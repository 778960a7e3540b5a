use massif_view::{parse_heap_node_line, parse_heap_tree, parse_massif_content, HeapNode};

fn node(line: &str) -> HeapNode {
    parse_heap_node_line(line).expect("a node line")
}

fn sample() -> String {
    let lines = [
        "desc: --time-unit=B",
        "cmd: ./prog arg",
        "time_unit: B",
        "#-----------",
        "snapshot=0",
        "#-----------",
        "time=0",
        "mem_heap_B=0",
        "mem_heap_extra_B=0",
        "mem_stacks_B=0",
        "heap_tree=empty",
        "#-----------",
        "snapshot=1",
        "#-----------",
        "time=2048",
        "mem_heap_B=1536",
        "mem_heap_extra_B=24",
        "mem_stacks_B=8",
        "heap_tree=detailed",
        "n2: 1536 (heap allocation functions) malloc/new/new[], --alloc-fns, etc.",
        " n1: 1024 0x1234: foo::bar (file.c:10)",
        "  n0: 1024 0x5678: main (main.c:3)",
        " n0: 512 in 3 places, all below threshold (1.00%)",
        "#-----------",
        "snapshot=2",
        "#-----------",
        "time=4096",
        "mem_heap_B=7",
        "mem_heap_extra_B=1",
        "mem_stacks_B=0",
        "heap_tree=empty",
    ];
    lines.join("\n") + "\n"
}

#[test]
fn detailed_node_line() {
    let n = node("n2: 1024 0x1234: foo::bar (file.c:10)");
    assert_eq!(n.num_children, 2);
    assert_eq!(n.bytes, 1024);
    assert_eq!(n.address, "0x1234");
    assert_eq!(n.function, "foo::bar");
    assert_eq!(n.file_info, Some("file.c:10".to_string()));
    assert!(n.children.is_empty());
}

#[test]
fn aggregate_node_line() {
    let n = node("n0: 512 in 3 places, all below threshold (1.00%)");
    assert_eq!(n.num_children, 0);
    assert_eq!(n.bytes, 512);
    assert_eq!(n.address, "");
    assert_eq!(n.function, "512 in 3 places, all below threshold (1.00%)");
    assert_eq!(n.file_info, None);
}

#[test]
fn node_line_without_address() {
    let n = node("n1: 64 (heap allocation functions) malloc/new");
    assert_eq!(n.num_children, 1);
    assert_eq!(n.bytes, 64);
    assert_eq!(n.address, "");
    assert_eq!(n.function, "(heap allocation functions) malloc/new");
    assert_eq!(n.file_info, None);
}

#[test]
fn node_line_without_file_info() {
    let n = node("n0: 8 0xAB: ???");
    assert_eq!(n.address, "0xAB");
    assert_eq!(n.function, "???");
    assert_eq!(n.file_info, None);
}

#[test]
fn file_info_only_at_the_end() {
    let n = node("n0: 8 0xAB: f (x) tail");
    assert_eq!(n.function, "f (x) tail");
    assert_eq!(n.file_info, None);
    let n = node("n0: 8 0xAB: g (a) (b.c:4)");
    assert_eq!(n.function, "g (a)");
    assert_eq!(n.file_info, Some("b.c:4".to_string()));
}

#[test]
fn unreadable_bytes_count_as_zero() {
    let n = node("n0: lots 0x1: f (g.c:1)");
    assert_eq!(n.bytes, 0);
    assert_eq!(n.address, "0x1");
    let n = node("n0: 18446744073709551616 0x1: f");
    assert_eq!(n.bytes, 0);
    let n = node("n0: 18446744073709551615 0x1: f");
    assert_eq!(n.bytes, u64::MAX);
}

#[test]
fn line_with_only_bytes() {
    let n = node("n0:   77");
    assert_eq!(n.bytes, 77);
    assert_eq!(n.address, "");
    assert_eq!(n.function, "");
    assert_eq!(n.file_info, None);
}

#[test]
fn bad_count_is_no_node() {
    assert!(parse_heap_node_line("nx: 10 0x1: f").is_none());
    assert!(parse_heap_node_line("n: 10 0x1: f").is_none());
    assert!(parse_heap_node_line("n-1: 10 0x1: f").is_none());
    assert!(parse_heap_node_line("n4294967296: 10 0x1: f").is_none());
    assert!(parse_heap_node_line("n1 10 0x1 f").is_none());
    assert!(parse_heap_node_line("m1: 10").is_none());
    assert!(parse_heap_node_line("").is_none());
    assert_eq!(node("n+3: 10").num_children, 3);
}

#[test]
fn short_child_list_is_kept() {
    let lines = vec![
        "n3: 300 0x1: top (t.c:1)",
        " n0: 100 0x2: a (a.c:1)",
        " n0: 100 0x3: b (b.c:1)",
        "n0: 5 0x9: next (n.c:1)",
    ];
    let (tree, next) = parse_heap_tree(&lines, 0, 0);
    let tree = tree.expect("a tree");
    assert_eq!(tree.num_children, 3);
    assert_eq!(tree.children.len(), 2);
    assert_eq!(tree.children[0].function, "a");
    assert_eq!(tree.children[1].function, "b");
    assert_eq!(next, 3);
}

#[test]
fn shallow_line_goes_back_to_ancestor() {
    let lines = vec![
        "n2: 30 0x1: root (r.c:1)",
        " n2: 20 0x2: mid (m.c:1)",
        "  n0: 10 0x3: leaf (l.c:1)",
        " n0: 10 0x4: sibling (s.c:1)",
    ];
    let (tree, next) = parse_heap_tree(&lines, 0, 0);
    let root = tree.expect("a tree");
    assert_eq!(next, 4);
    assert_eq!(root.children.len(), 2);
    let mid = &root.children[0];
    assert_eq!(mid.function, "mid");
    assert_eq!(mid.children.len(), 1);
    assert_eq!(mid.children[0].function, "leaf");
    assert_eq!(root.children[1].function, "sibling");
    assert!(root.children[1].children.is_empty());
}

#[test]
fn shallow_line_is_no_child() {
    let lines = vec!["  n0: 10 0x3: leaf (l.c:1)", "n0: 1 0x1: f"];
    let (tree, next) = parse_heap_tree(&lines, 1, 3);
    assert!(tree.is_none());
    assert_eq!(next, 1);
    let (tree, next) = parse_heap_tree(&lines, 0, 2);
    assert_eq!(tree.expect("deep enough").function, "leaf");
    assert_eq!(next, 1);
}

#[test]
fn tree_edges() {
    let lines = vec!["heap_tree=detailed", "nq: 1 0x1: f", "n0: 1 0x1: f"];
    let (tree, next) = parse_heap_tree(&lines, 0, 0);
    assert!(tree.is_none());
    assert_eq!(next, 0);
    let (tree, next) = parse_heap_tree(&lines, 1, 0);
    assert!(tree.is_none());
    assert_eq!(next, 2);
    let (tree, next) = parse_heap_tree(&lines, 3, 0);
    assert!(tree.is_none());
    assert_eq!(next, 3);
}

#[test]
fn whole_profile() {
    let data = parse_massif_content(&sample()).expect("parses");
    assert_eq!(data.desc, "--time-unit=B");
    assert_eq!(data.cmd, "./prog arg");
    assert_eq!(data.time_unit, "B");
    assert_eq!(data.snapshots.len(), 3);
    let s1 = &data.snapshots[1];
    assert_eq!(s1.snapshot_num, 1);
    assert_eq!(s1.time, 2048);
    assert_eq!(s1.mem_heap_b, 1536);
    assert_eq!(s1.mem_heap_extra_b, 24);
    assert_eq!(s1.mem_stacks_b, 8);
    let root = s1.heap_tree.as_ref().expect("a tree");
    assert_eq!(root.bytes, 1536);
    assert_eq!(root.children.len(), 2);
    assert_eq!(root.children[0].address, "0x1234");
    assert_eq!(root.children[0].children[0].function, "main");
    assert_eq!(root.children[0].children[0].file_info, Some("main.c:3".to_string()));
    assert_eq!(root.children[1].function, "512 in 3 places, all below threshold (1.00%)");
    let s2 = &data.snapshots[2];
    assert_eq!(s2.snapshot_num, 2);
    assert_eq!(s2.time, 4096);
    assert_eq!(s2.mem_heap_b, 7);
}

#[test]
fn one_snapshot_per_marker() {
    let text = "snapshot=4\nsnapshot=x\n#\nsnapshot=9\ntime=3\n  snapshot=1\n";
    let data = parse_massif_content(text).expect("parses");
    assert_eq!(data.snapshots.len(), 4);
    let nums: Vec<u32> = data.snapshots.iter().map(|s| s.snapshot_num).collect();
    assert_eq!(nums, vec![4, 0, 9, 1]);
    assert_eq!(data.snapshots[2].time, 3);
    assert_eq!(data.snapshots[3].time, 0);
}

#[test]
fn no_desc_line_gives_empty_desc() {
    let data = parse_massif_content("cmd: a\nsnapshot=0\ndesc: inside a block\n").expect("parses");
    assert_eq!(data.desc, "");
    assert_eq!(data.cmd, "a");
    assert_eq!(data.snapshots.len(), 1);
}

#[test]
fn empty_tree_marker_gives_no_tree() {
    let text = "snapshot=0\nheap_tree=empty\nn0: 10 0x1: f (f.c:1)\ntime=5\n";
    let data = parse_massif_content(text).expect("parses");
    assert_eq!(data.snapshots.len(), 1);
    assert!(data.snapshots[0].heap_tree.is_none());
    assert_eq!(data.snapshots[0].time, 5);
}

#[test]
fn empty_marker_after_tree_clears_it() {
    let text = "snapshot=0\nheap_tree=detailed\nn0: 10 0x1: f\nheap_tree=empty\n";
    let data = parse_massif_content(text).expect("parses");
    assert!(data.snapshots[0].heap_tree.is_none());
}

#[test]
fn empty_input() {
    let data = parse_massif_content("").expect("parses");
    assert_eq!(data.desc, "");
    assert_eq!(data.cmd, "");
    assert_eq!(data.time_unit, "");
    assert!(data.snapshots.is_empty());
}

#[test]
fn unreadable_numbers_default_to_zero() {
    let text = "snapshot=99999999999\ntime=soon\nmem_heap_B=-1\nmem_heap_extra_B=+12\nmem_stacks_B=\n";
    let data = parse_massif_content(text).expect("parses");
    let s = &data.snapshots[0];
    assert_eq!(s.snapshot_num, 0);
    assert_eq!(s.time, 0);
    assert_eq!(s.mem_heap_b, 0);
    assert_eq!(s.mem_heap_extra_b, 12);
    assert_eq!(s.mem_stacks_b, 0);
    assert!(s.heap_tree.is_none());
}

#[test]
fn crlf_lines_and_last_value_wins() {
    let text = "desc: first\r\ndesc:  second \r\ntime_unit: ms\r\nsnapshot=3\r\n#---\r\ntime=10\r\nheap_tree=detailed\r\nn1: 40 0x1: f (f.c:1)\r\n\tn0: 40 0x2: g (g.c:2)\r\n";
    let data = parse_massif_content(text).expect("parses");
    assert_eq!(data.desc, "second");
    assert_eq!(data.time_unit, "ms");
    let s = &data.snapshots[0];
    assert_eq!(s.snapshot_num, 3);
    assert_eq!(s.time, 10);
    let root = s.heap_tree.as_ref().expect("a tree");
    assert_eq!(root.file_info, Some("f.c:1".to_string()));
    assert_eq!(root.children.len(), 1);
    assert_eq!(root.children[0].function, "g");
}

#[test]
fn unicode_white_space_is_trimmed() {
    let data = parse_massif_content("cmd:\u{3000}run\u{a0}\n").expect("parses");
    assert_eq!(data.cmd, "run");
}

#[test]
fn unparsable_node_line_is_stepped_over() {
    let text = "snapshot=0\nheap_tree=detailed\nnope: 1\ntime=6\n";
    let data = parse_massif_content(text).expect("parses");
    assert!(data.snapshots[0].heap_tree.is_none());
    assert_eq!(data.snapshots[0].time, 6);
}

#[test]
fn indentation_counts_bytes() {
    // U+3000 takes three bytes: a child needs at least four.
    let lines = vec!["\u{3000}n1: 10 0x1: f (f.c:1)", "  n0: 5 0x2: g (g.c:2)"];
    let (tree, next) = parse_heap_tree(&lines, 0, 0);
    let root = tree.expect("a tree");
    assert!(root.children.is_empty());
    assert_eq!(next, 1);
    let lines = vec!["\u{3000}n1: 10 0x1: f (f.c:1)", "    n0: 5 0x2: g (g.c:2)"];
    let (tree, next) = parse_heap_tree(&lines, 0, 0);
    let root = tree.expect("a tree");
    assert_eq!(root.children.len(), 1);
    assert_eq!(root.children[0].function, "g");
    assert_eq!(next, 2);
}

#[test]
fn deep_nesting() {
    let depth = 2000;
    let mut owned: Vec<String> = Vec::new();
    for level in 0..depth {
        let count = if level + 1 < depth { 1 } else { 0 };
        owned.push(format!("{}n{}: 8 0x{:x}: f{} (f.c:{})", " ".repeat(level), count, level, level, level));
    }
    let lines: Vec<&str> = owned.iter().map(|l| l.as_str()).collect();
    let (tree, next) = parse_heap_tree(&lines, 0, 0);
    assert_eq!(next, depth);
    let mut node = tree.expect("a tree");
    let mut seen = 1;
    while let Some(child) = node.children.pop() {
        assert_eq!(child.function, format!("f{}", seen));
        node = child;
        seen += 1;
    }
    assert_eq!(seen, depth);
}
