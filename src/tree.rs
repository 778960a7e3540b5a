use vstd::prelude::*;

use crate::node::{node_from_chars, node_line, node_view, nodes_view, opt_node_view, HeapNode, NodeView};
use crate::laws::lemma_tree_span;
use crate::text::{chars_of, indent_of, indent_width, trim, trim_chars};

verus! {

broadcast use vstd::std_specs::vec::group_vec_axioms, vstd::seq::group_seq_axioms;

/// The text of each line.
pub open spec fn lines_view(lines: Seq<&str>) -> Seq<Seq<char>> {
    lines.map_values(|l: &str| l@)
}

/// The node that begins at line `start` with its subtree, and the line after
/// the last one it takes. A line is a node's only where its trimmed text
/// begins with `n`, and, below the top (`expected > 0`), where its
/// indentation, in bytes of leading white space, is at least `expected`.
/// A node's children are read at its own indentation plus one. A node line
/// that does not parse is stepped over.
pub open spec fn tree_at(lines: Seq<Seq<char>>, start: int, expected: int) -> (Option<NodeView>, int)
    decreases lines.len() - start, 0int,
{
    if start < 0 || start >= lines.len() {
        (None, start)
    } else {
        let line = lines[start];
        let t = trim(line);
        if t.len() == 0 || t[0] != 'n' {
            (None, start)
        } else if expected > 0 && indent_of(line) < expected {
            (None, start)
        } else {
            match node_line(t) {
                None => (None, start + 1),
                Some(n) => {
                    let (kids, end) = children_at(
                        lines,
                        start + 1,
                        indent_of(line) as int + 1,
                        n.num_children as int,
                        Seq::empty(),
                    );
                    (
                        Some(
                            NodeView {
                                num_children: n.num_children,
                                bytes: n.bytes,
                                address: n.address,
                                function: n.function,
                                file_info: n.file_info,
                                children: kids,
                            },
                        ),
                        end,
                    )
                },
            }
        }
    }
}

/// Children read from line `i` on at indentation `depth`, after those in
/// `acc`: one subtree after another, until `want` are there, the lines run
/// out, or no child begins at the next line.
pub open spec fn children_at(
    lines: Seq<Seq<char>>,
    i: int,
    depth: int,
    want: int,
    acc: Seq<NodeView>,
) -> (Seq<NodeView>, int)
    decreases lines.len() - i, 1int,
{
    if acc.len() >= want || i < 0 || i >= lines.len() {
        (acc, i)
    } else {
        let (child, next) = tree_at(lines, i, depth);
        match child {
            None => (acc, i),
            Some(c) => {
                if i < next <= lines.len() {
                    children_at(lines, next, depth, want, acc.push(c))
                } else {
                    (acc, i)
                }
            },
        }
    }
}

/// `n` with `kids` for children.
pub open spec fn with_children(n: NodeView, kids: Seq<NodeView>) -> NodeView {
    NodeView {
        num_children: n.num_children,
        bytes: n.bytes,
        address: n.address,
        function: n.function,
        file_info: n.file_info,
        children: kids,
    }
}

/// The nodes still open while a tree is read, outermost first, each with the
/// indentation its children need.
pub open spec fn frames_view(s: Seq<(HeapNode, u128)>) -> Seq<(NodeView, int)> {
    s.map_values(|f: (HeapNode, u128)| (f.0@, f.1 as int))
}

/// What reading from line `i` on gives when the nodes of `frames` are open:
/// the innermost collects its remaining children, is closed and becomes the
/// next child of the one around it, and so on out to the root.
pub open spec fn resume(lines: Seq<Seq<char>>, frames: Seq<(NodeView, int)>, i: int) -> (
    Option<NodeView>,
    int,
)
    decreases frames.len(),
{
    if frames.len() == 0 {
        (None, i)
    } else {
        let f = frames.last();
        let (kids, end) = children_at(lines, i, f.1, f.0.num_children as int, f.0.children);
        let n = with_children(f.0, kids);
        if frames.len() == 1 {
            (Some(n), end)
        } else {
            let p = frames[frames.len() - 2];
            resume(
                lines,
                frames.subrange(0, frames.len() - 2).push(
                    (with_children(p.0, p.0.children.push(n)), p.1),
                ),
                end,
            )
        }
    }
}

/// Reads the node that begins at line `start`, with its subtree (see
/// `tree_at`), and returns it with the index of the line after it.
pub fn parse_heap_tree(lines: &[&str], start: usize, expected_indent: usize) -> (r: (
    Option<HeapNode>,
    usize,
))
    ensures
        (opt_node_view(r.0), r.1 as int) == tree_at(
            lines_view(lines@),
            start as int,
            expected_indent as int,
        ),
        start <= r.1,
        start <= lines.len() ==> r.1 <= lines.len(),
        r.0 is Some ==> start < r.1,
{
    read_tree(lines, start, expected_indent as u128)
}

/// The node whose line is line `i`, without children, where that line can
/// be a node at indentation `expected`, with the line's indentation.
fn node_head(lines: &[&str], i: usize, expected: u128) -> (r: Option<(HeapNode, u128)>)
    requires
        i < lines.len(),
    ensures
        r matches Some((n, ind)) ==> {
            let line = lines_view(lines@)[i as int];
            &&& ind == indent_of(line)
            &&& ind <= 4 * (usize::MAX as u128)
            &&& n.children@.len() == 0
            &&& trim(line).len() > 0
            &&& trim(line)[0] == 'n'
            &&& !(expected > 0 && ind < expected)
            &&& node_line(trim(line)) == Some(n@)
        },
        r is None ==> tree_at(lines_view(lines@), i as int, expected as int).0 is None,
{
    let ghost lv = lines_view(lines@);
    let line = chars_of(lines[i]);
    assert(line@ == lv[i as int]);
    let t = trim_chars(&line);
    if t.len() == 0 || t[0] != 'n' {
        return None;
    }
    let ind = indent_width(&line);
    if ind < expected && expected > 0 {
        return None;
    }
    match node_from_chars(&t) {
        Some(n) => {
            let n = HeapNode {
                num_children: n.num_children,
                bytes: n.bytes,
                address: n.address,
                function: n.function,
                file_info: n.file_info,
                children: Vec::new(),
            };
            assert(n.children@ == Seq::<HeapNode>::empty());
            Some((n, ind))
        },
        None => None,
    }
}

proof fn lemma_nodes_view_len(s: Seq<HeapNode>)
    ensures
        nodes_view(s).len() == s.len(),
    decreases s.len(),
{
    if s.len() > 0 {
        lemma_nodes_view_len(s.drop_last());
    }
}

proof fn lemma_push_child(n: HeapNode, c: HeapNode, kids: Vec<HeapNode>)
    requires
        kids@ == n.children@.push(c),
    ensures
        node_view(
            HeapNode {
                num_children: n.num_children,
                bytes: n.bytes,
                address: n.address,
                function: n.function,
                file_info: n.file_info,
                children: kids,
            },
        ) == with_children(n@, n@.children.push(c@)),
{
    assert(kids@.drop_last() == n.children@);
}

/// The tree is read with a stack of open nodes rather than by recursion, so
/// that a deeply nested input cannot exhaust the call stack.
fn read_tree(lines: &[&str], start: usize, expected_indent: u128) -> (r: (
    Option<HeapNode>,
    usize,
))
    ensures
        (opt_node_view(r.0), r.1 as int) == tree_at(
            lines_view(lines@),
            start as int,
            expected_indent as int,
        ),
        start <= r.1,
        start <= lines.len() ==> r.1 <= lines.len(),
        r.0 is Some ==> start < r.1,
{
    let ghost lv = lines_view(lines@);
    if start >= lines.len() {
        return (None, start);
    }
    let line = chars_of(lines[start]);
    assert(line@ == lv[start as int]);
    let t = trim_chars(&line);
    if t.len() == 0 || t[0] != 'n' {
        return (None, start);
    }
    let indent = indent_width(&line);
    if indent < expected_indent && expected_indent > 0 {
        return (None, start);
    }
    let node = match node_from_chars(&t) {
        Some(n) => n,
        None => {
            return (None, start + 1);
        },
    };
    let root = HeapNode {
        num_children: node.num_children,
        bytes: node.bytes,
        address: node.address,
        function: node.function,
        file_info: node.file_info,
        children: Vec::new(),
    };
    assert(root.children@ == Seq::<HeapNode>::empty());
    let mut stack: Vec<(HeapNode, u128)> = Vec::new();
    stack.push((root, indent + 1));
    let mut i = start + 1;
    proof {
        assert(frames_view(stack@) =~= seq![(root@, indent as int + 1)]);
    }
    loop
        invariant
            start < i <= lines.len(),
            lv == lines_view(lines@),
            stack.len() >= 1,
            resume(lv, frames_view(stack@), i as int) == tree_at(
                lv,
                start as int,
                expected_indent as int,
            ),
        decreases 2 * (lines.len() - i) + stack.len(),
    {
        let ghost old_frames = frames_view(stack@);
        let top = stack.len() - 1;
        let want = stack[top].0.num_children;
        let depth = stack[top].1;
        let have = stack[top].0.children.len();
        proof {
            assert(old_frames[top as int] == (stack@[top as int].0@, stack@[top as int].1 as int));
            lemma_nodes_view_len(stack@[top as int].0.children@);
        }
        let child = if have < want as usize && i < lines.len() {
            node_head(lines, i, depth)
        } else {
            None
        };
        match child {
            Some((n, ind)) => {
                proof {
                    lemma_tree_span(lv, i as int, depth as int);
                    assert(n@.children == Seq::<NodeView>::empty());
                    let (kids2, end) = children_at(
                        lv,
                        i + 1,
                        ind + 1,
                        n.num_children as int,
                        Seq::empty(),
                    );
                    let full = with_children(n@, kids2);
                    let f = old_frames.last();
                    let len = old_frames.len();
                    let s2 = old_frames.drop_last().push(
                        (with_children(f.0, f.0.children.push(full)), f.1),
                    );
                    let grown = old_frames.push((n@, ind + 1));
                    assert(grown.drop_last() == old_frames);
                    assert(grown.subrange(0, grown.len() - 2) == old_frames.drop_last());
                    assert(grown[grown.len() - 2] == f);
                    if len >= 2 {
                        assert(s2.subrange(0, len - 2) == old_frames.subrange(0, len - 2));
                        assert(s2[len - 2] == old_frames[len - 2]);
                    }
                    assert(resume(lv, grown, i + 1) == resume(lv, s2, end));
                    assert(resume(lv, old_frames, i as int) == resume(lv, s2, end));
                }
                stack.push((n, ind + 1));
                proof {
                    assert(frames_view(stack@) =~= old_frames.push((n@, ind + 1)));
                }
                i = i + 1;
            },
            None => {
                let ghost popped = stack@;
                let f = match stack.pop() {
                    Some(x) => x.0,
                    None => {
                        return (None, i);
                    },
                };
                proof {
                    assert(f@.children == old_frames.last().0.children);
                }
                if stack.len() == 0 {
                    proof {
                        assert(with_children(f@, f@.children) == f@);
                    }
                    return (Some(f), i);
                }
                let (p, pd) = match stack.pop() {
                    Some(x) => x,
                    None => {
                        return (None, i);
                    },
                };
                let ghost pv = p@;
                let mut kids = p.children;
                kids.push(f);
                let closed_parent = HeapNode {
                    num_children: p.num_children,
                    bytes: p.bytes,
                    address: p.address,
                    function: p.function,
                    file_info: p.file_info,
                    children: kids,
                };
                proof {
                    lemma_push_child(p, f, kids);
                    assert(with_children(f@, f@.children) == f@);
                }
                stack.push((closed_parent, pd));
                proof {
                    let len = old_frames.len();
                    assert(frames_view(stack@) =~= old_frames.subrange(0, len - 2).push(
                        (with_children(pv, pv.children.push(f@)), pd as int),
                    ));
                }
            },
        }
    }
}

} // verus!
