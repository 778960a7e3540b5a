use vstd::prelude::*;

use crate::massif::{
    snapshot_block, snapshot_number,
    u64_or_zero,
    after, block_at, empty_profile, fresh_snapshot, key_cmd, key_comment, key_desc, key_detailed,
    key_empty, key_heap, key_heap_extra, key_snapshot, key_stacks, key_time, key_time_unit, line_has, massif_model, scan_at, skip_comments,
    str_lines, MassifView, SnapshotView,
};
use crate::node::{node_line, NodeView};
use crate::text::{indent_of, starts_with, trim};
use crate::tree::{children_at, tree_at};

verus! {

/// Whether the trimmed text of line `k` begins with a node marker.
pub open spec fn is_node_line(lines: Seq<Seq<char>>, k: int) -> bool {
    trim(lines[k]).len() > 0 && trim(lines[k])[0] == 'n'
}

/// A line indented less than the depth a child needs is no child: the
/// reader takes no node from it and leaves it where it is.
pub proof fn lemma_shallow_line_not_child(lines: Seq<Seq<char>>, start: int, expected: int)
    requires
        0 <= start < lines.len(),
        expected > 0,
        indent_of(lines[start]) < expected,
    ensures
        tree_at(lines, start, expected) == (None::<NodeView>, start),
{
}

/// Such a line ends the collection of a parent's children, which then
/// stops at that very line, so that the levels above read it next.
pub proof fn lemma_shallow_line_ends_children(
    lines: Seq<Seq<char>>,
    i: int,
    depth: int,
    want: int,
    acc: Seq<NodeView>,
)
    requires
        0 <= i < lines.len(),
        depth > 0,
        indent_of(lines[i]) < depth,
    ensures
        children_at(lines, i, depth, want, acc) == (acc, i),
{
    lemma_shallow_line_not_child(lines, i, depth);
}

proof fn lemma_no_desc_from(lines: Seq<Seq<char>>, i: int, acc: MassifView)
    requires
        0 <= i,
        acc.desc == Seq::<char>::empty(),
        forall|k: int| i <= k < lines.len() ==> !line_has(lines, k, key_desc()),
    ensures
        scan_at(lines, i, acc).desc == Seq::<char>::empty(),
    decreases lines.len() - i,
{
    if i < lines.len() {
        assert(!line_has(lines, i, key_desc()));
        let t = trim(lines[i]);
        if starts_with(t, key_cmd()) {
            lemma_no_desc_from(lines, i + 1, MassifView { cmd: trim(after(t, key_cmd())), ..acc });
        } else if starts_with(t, key_time_unit()) {
            lemma_no_desc_from(
                lines,
                i + 1,
                MassifView { time_unit: trim(after(t, key_time_unit())), ..acc },
            );
        } else if starts_with(t, key_snapshot()) {
            let (snap, end) = snapshot_block(lines, i);
            if i < end <= lines.len() {
                lemma_no_desc_from(
                    lines,
                    end,
                    MassifView { snapshots: acc.snapshots.push(snap), ..acc },
                );
            }
        } else {
            lemma_no_desc_from(lines, i + 1, acc);
        }
    }
}

/// A text with no `desc:` line gives an empty description.
pub proof fn lemma_no_desc_line(content: Seq<char>)
    requires
        forall|k: int| 0 <= k < str_lines(content).len() ==> !line_has(str_lines(content), k, key_desc()),
    ensures
        massif_model(content).desc == Seq::<char>::empty(),
{
    lemma_no_desc_from(str_lines(content), 0, empty_profile());
}

/// Texts that begin with keys differing at `k` do not both begin `t`.
proof fn lemma_keys_exclude(t: Seq<char>, a: Seq<char>, b: Seq<char>, k: int)
    requires
        starts_with(t, a),
        0 <= k < a.len(),
        k < b.len(),
        a[k] != b[k],
    ensures
        !starts_with(t, b),
{
    assert(t.subrange(0, a.len() as int)[k] == t[k]);
    if b.len() <= t.len() {
        assert(t.subrange(0, b.len() as int)[k] == t[k]);
    }
}

proof fn lemma_no_tree_from(lines: Seq<Seq<char>>, j: int, s: SnapshotView)
    requires
        0 <= j,
        s.heap_tree is None,
        forall|k: int| j <= k < block_at(lines, j, s).1 ==> !line_has(lines, k, key_detailed()),
    ensures
        block_at(lines, j, s).0.heap_tree is None,
    decreases lines.len() - j,
{
    if j < lines.len() {
        let t = trim(lines[j]);
        if starts_with(t, key_comment()) || starts_with(t, key_snapshot()) {
        } else if starts_with(t, key_time()) {
            lemma_no_tree_from(lines, j + 1, SnapshotView { time: u64_or_zero(after(t, key_time())), ..s });
        } else if starts_with(t, key_heap()) {
            lemma_no_tree_from(
                lines,
                j + 1,
                SnapshotView { mem_heap_b: u64_or_zero(after(t, key_heap())), ..s },
            );
        } else if starts_with(t, key_heap_extra()) {
            lemma_no_tree_from(
                lines,
                j + 1,
                SnapshotView { mem_heap_extra_b: u64_or_zero(after(t, key_heap_extra())), ..s },
            );
        } else if starts_with(t, key_stacks()) {
            lemma_no_tree_from(
                lines,
                j + 1,
                SnapshotView { mem_stacks_b: u64_or_zero(after(t, key_stacks())), ..s },
            );
        } else if starts_with(t, key_detailed()) {
            let (tree, end) = tree_at(lines, j + 1, 0);
            if j < end <= lines.len() {
                lemma_block_span(lines, end, SnapshotView { heap_tree: tree, ..s });
                assert(!line_has(lines, j, key_detailed()));
            }
        } else if starts_with(t, key_empty()) {
            lemma_no_tree_from(lines, j + 1, SnapshotView { heap_tree: None, ..s });
        } else {
            lemma_no_tree_from(lines, j + 1, s);
        }
    }
}

/// A `heap_tree=empty` line leaves its snapshot without a tree, whatever
/// lines follow it in the block, unless one of them is `heap_tree=detailed`.
pub proof fn lemma_empty_tree_marker(lines: Seq<Seq<char>>, i: int, s: SnapshotView)
    requires
        0 <= i < lines.len(),
        line_has(lines, i, key_empty()),
        forall|k: int| i < k < block_at(lines, i, s).1 ==> !line_has(lines, k, key_detailed()),
    ensures
        block_at(lines, i, s).0.heap_tree is None,
{
    let t = trim(lines[i]);
    lemma_keys_exclude(t, key_empty(), key_comment(), 0);
    lemma_keys_exclude(t, key_empty(), key_snapshot(), 0);
    lemma_keys_exclude(t, key_empty(), key_time(), 0);
    lemma_keys_exclude(t, key_empty(), key_heap(), 0);
    lemma_keys_exclude(t, key_empty(), key_heap_extra(), 0);
    lemma_keys_exclude(t, key_empty(), key_stacks(), 0);
    lemma_keys_exclude(t, key_empty(), key_detailed(), 10);
    lemma_no_tree_from(lines, i + 1, SnapshotView { heap_tree: None, ..s });
}

proof fn lemma_node_line_not_key(lines: Seq<Seq<char>>, k: int, key: Seq<char>)
    requires
        0 <= k < lines.len(),
        is_node_line(lines, k),
        key.len() > 0,
        key[0] != 'n',
    ensures
        !line_has(lines, k, key),
{
    let t = trim(lines[k]);
    if key.len() <= t.len() {
        assert(t.subrange(0, key.len() as int)[0] == t[0]);
    }
}

pub(crate) proof fn lemma_tree_span(lines: Seq<Seq<char>>, start: int, expected: int)
    requires
        0 <= start,
    ensures
        start <= tree_at(lines, start, expected).1,
        start <= lines.len() ==> tree_at(lines, start, expected).1 <= lines.len(),
        forall|k: int| start <= k < tree_at(lines, start, expected).1 ==> is_node_line(lines, k),
        tree_at(lines, start, expected).0 is Some ==> start < tree_at(lines, start, expected).1,
    decreases lines.len() - start, 0int,
{
    if start < lines.len() {
        let line = lines[start];
        let t = trim(line);
        if t.len() > 0 && t[0] == 'n' && !(expected > 0 && indent_of(line) < expected) {
            match node_line(t) {
                None => {},
                Some(n) => {
                    lemma_children_span(
                        lines,
                        start + 1,
                        indent_of(line) as int + 1,
                        n.num_children as int,
                        Seq::empty(),
                    );
                },
            }
        }
    }
}

proof fn lemma_children_span(
    lines: Seq<Seq<char>>,
    i: int,
    depth: int,
    want: int,
    acc: Seq<NodeView>,
)
    requires
        0 <= i,
    ensures
        i <= children_at(lines, i, depth, want, acc).1,
        i <= lines.len() ==> children_at(lines, i, depth, want, acc).1 <= lines.len(),
        forall|k: int| i <= k < children_at(lines, i, depth, want, acc).1 ==> is_node_line(lines, k),
    decreases lines.len() - i, 1int,
{
    if acc.len() < want && i < lines.len() {
        lemma_tree_span(lines, i, depth);
        let (child, next) = tree_at(lines, i, depth);
        match child {
            None => {},
            Some(c) => {
                if i < next <= lines.len() {
                    lemma_children_span(lines, next, depth, want, acc.push(c));
                }
            },
        }
    }
}

proof fn lemma_block_span(lines: Seq<Seq<char>>, j: int, s: SnapshotView)
    requires
        0 <= j,
    ensures
        j <= block_at(lines, j, s).1,
        j <= lines.len() ==> block_at(lines, j, s).1 <= lines.len(),
        forall|k: int| j <= k < block_at(lines, j, s).1 ==> !line_has(lines, k, key_snapshot()),
    decreases lines.len() - j,
{
    if j < lines.len() {
        let t = trim(lines[j]);
        if starts_with(t, key_comment()) || starts_with(t, key_snapshot()) {
        } else if starts_with(t, key_time()) {
            lemma_block_span(lines, j + 1, SnapshotView { time: u64_or_zero(after(t, key_time())), ..s });
        } else if starts_with(t, key_heap()) {
            lemma_block_span(
                lines,
                j + 1,
                SnapshotView { mem_heap_b: u64_or_zero(after(t, key_heap())), ..s },
            );
        } else if starts_with(t, key_heap_extra()) {
            lemma_block_span(
                lines,
                j + 1,
                SnapshotView { mem_heap_extra_b: u64_or_zero(after(t, key_heap_extra())), ..s },
            );
        } else if starts_with(t, key_stacks()) {
            lemma_block_span(
                lines,
                j + 1,
                SnapshotView { mem_stacks_b: u64_or_zero(after(t, key_stacks())), ..s },
            );
        } else if starts_with(t, key_detailed()) {
            lemma_keys_exclude(t, key_detailed(), key_snapshot(), 0);
            lemma_tree_span(lines, j + 1, 0);
            let (tree, end) = tree_at(lines, j + 1, 0);
            if j < end <= lines.len() {
                lemma_block_span(lines, end, SnapshotView { heap_tree: tree, ..s });
                assert forall|k: int| j < k < end implies !line_has(lines, k, key_snapshot()) by {
                    lemma_node_line_not_key(lines, k, key_snapshot());
                }
            }
        } else if starts_with(t, key_empty()) {
            lemma_block_span(lines, j + 1, SnapshotView { heap_tree: None, ..s });
        } else {
            lemma_block_span(lines, j + 1, s);
        }
    }
}

/// Number of lines from `i` on whose trimmed text begins with `key`.
pub open spec fn count_lines_with(lines: Seq<Seq<char>>, i: int, key: Seq<char>) -> nat
    decreases lines.len() - i,
{
    if i < 0 || i >= lines.len() {
        0
    } else {
        (if line_has(lines, i, key) {
            1nat
        } else {
            0nat
        }) + count_lines_with(lines, i + 1, key)
    }
}

proof fn lemma_count_unchanged(lines: Seq<Seq<char>>, a: int, b: int, key: Seq<char>)
    requires
        0 <= a <= b <= lines.len(),
        forall|k: int| a <= k < b ==> !line_has(lines, k, key),
    ensures
        count_lines_with(lines, a, key) == count_lines_with(lines, b, key),
    decreases b - a,
{
    if a < b {
        lemma_count_unchanged(lines, a + 1, b, key);
    }
}

proof fn lemma_skip_span(lines: Seq<Seq<char>>, i: int)
    requires
        0 <= i,
    ensures
        i <= skip_comments(lines, i),
        i <= lines.len() ==> skip_comments(lines, i) <= lines.len(),
        forall|k: int| i <= k < skip_comments(lines, i) ==> !line_has(lines, k, key_snapshot()),
    decreases lines.len() - i,
{
    if 0 <= i < lines.len() && line_has(lines, i, key_comment()) {
        lemma_skip_span(lines, i + 1);
        lemma_keys_exclude(trim(lines[i]), key_comment(), key_snapshot(), 0);
    }
}

proof fn lemma_snapshot_count_from(lines: Seq<Seq<char>>, i: int, acc: MassifView)
    requires
        0 <= i,
    ensures
        scan_at(lines, i, acc).snapshots.len() == acc.snapshots.len() + count_lines_with(
            lines,
            i,
            key_snapshot(),
        ),
    decreases lines.len() - i,
{
    if i < lines.len() {
        let t = trim(lines[i]);
        if starts_with(t, key_desc()) {
            lemma_keys_exclude(t, key_desc(), key_snapshot(), 0);
            lemma_snapshot_count_from(lines, i + 1, MassifView { desc: trim(after(t, key_desc())), ..acc });
        } else if starts_with(t, key_cmd()) {
            lemma_keys_exclude(t, key_cmd(), key_snapshot(), 0);
            lemma_snapshot_count_from(lines, i + 1, MassifView { cmd: trim(after(t, key_cmd())), ..acc });
        } else if starts_with(t, key_time_unit()) {
            lemma_keys_exclude(t, key_time_unit(), key_snapshot(), 0);
            lemma_snapshot_count_from(
                lines,
                i + 1,
                MassifView { time_unit: trim(after(t, key_time_unit())), ..acc },
            );
        } else if starts_with(t, key_snapshot()) {
            let j = skip_comments(lines, i + 1);
            lemma_skip_span(lines, i + 1);
            lemma_block_span(lines, j, fresh_snapshot(snapshot_number(t)));
            let (snap, end) = snapshot_block(lines, i);
            lemma_count_unchanged(lines, i + 1, end, key_snapshot());
            lemma_snapshot_count_from(
                lines,
                end,
                MassifView { snapshots: acc.snapshots.push(snap), ..acc },
            );
        } else {
            lemma_snapshot_count_from(lines, i + 1, acc);
        }
    }
}

/// A text gives one snapshot for each line that begins with `snapshot=`.
pub proof fn lemma_snapshot_count(content: Seq<char>)
    ensures
        massif_model(content).snapshots.len() == count_lines_with(
            str_lines(content),
            0,
            key_snapshot(),
        ),
{
    lemma_snapshot_count_from(str_lines(content), 0, empty_profile());
}

proof fn lemma_children_count(
    lines: Seq<Seq<char>>,
    i: int,
    depth: int,
    want: int,
    acc: Seq<NodeView>,
)
    requires
        0 <= i,
        acc.len() <= want,
    ensures
        children_at(lines, i, depth, want, acc).0.len() <= want,
        children_at(lines, i, depth, want, acc).0.len() < want ==> (children_at(
            lines,
            i,
            depth,
            want,
            acc,
        ).1 >= lines.len() || tree_at(lines, children_at(lines, i, depth, want, acc).1, depth).0 is None),
    decreases lines.len() - i,
{
    if acc.len() < want && i < lines.len() {
        lemma_tree_span(lines, i, depth);
        let (child, next) = tree_at(lines, i, depth);
        match child {
            None => {},
            Some(c) => {
                lemma_children_count(lines, next, depth, want, acc.push(c));
            },
        }
    }
}

/// A node keeps at most as many children as its line declares. Where it
/// keeps fewer, the lines ran out, or no child could be read at the line
/// after the last one it took. Each node of a tree is read this way, from
/// its own line.
pub proof fn lemma_declared_children_bound(lines: Seq<Seq<char>>, start: int, expected: int)
    requires
        0 <= start,
    ensures
        tree_at(lines, start, expected).0 matches Some(n) ==> {
            &&& n.children.len() <= n.num_children
            &&& n.children.len() < n.num_children ==> (tree_at(lines, start, expected).1
                >= lines.len() || tree_at(
                lines,
                tree_at(lines, start, expected).1,
                indent_of(lines[start]) as int + 1,
            ).0 is None)
        },
{
    if start < lines.len() {
        let line = lines[start];
        let t = trim(line);
        if t.len() > 0 && t[0] == 'n' && !(expected > 0 && indent_of(line) < expected) {
            match node_line(t) {
                None => {},
                Some(n) => {
                    lemma_children_count(
                        lines,
                        start + 1,
                        indent_of(line) as int + 1,
                        n.num_children as int,
                        Seq::empty(),
                    );
                },
            }
        }
    }
}

proof fn lemma_scan_keeps(lines: Seq<Seq<char>>, j: int, acc: MassifView)
    requires
        0 <= j,
    ensures
        acc.snapshots.len() <= scan_at(lines, j, acc).snapshots.len(),
        forall|k: int|
            0 <= k < acc.snapshots.len() ==> #[trigger] scan_at(lines, j, acc).snapshots[k]
                == acc.snapshots[k],
    decreases lines.len() - j,
{
    if j < lines.len() {
        let t = trim(lines[j]);
        if starts_with(t, key_desc()) {
            lemma_scan_keeps(lines, j + 1, MassifView { desc: trim(after(t, key_desc())), ..acc });
        } else if starts_with(t, key_cmd()) {
            lemma_scan_keeps(lines, j + 1, MassifView { cmd: trim(after(t, key_cmd())), ..acc });
        } else if starts_with(t, key_time_unit()) {
            lemma_scan_keeps(
                lines,
                j + 1,
                MassifView { time_unit: trim(after(t, key_time_unit())), ..acc },
            );
        } else if starts_with(t, key_snapshot()) {
            let (snap, end) = snapshot_block(lines, j);
            if j < end <= lines.len() {
                let next = MassifView { snapshots: acc.snapshots.push(snap), ..acc };
                lemma_scan_keeps(lines, end, next);
                assert forall|k: int| 0 <= k < acc.snapshots.len() implies #[trigger] scan_at(
                    lines,
                    j,
                    acc,
                ).snapshots[k] == acc.snapshots[k] by {
                    assert(next.snapshots[k] == acc.snapshots[k]);
                }
            }
        } else {
            lemma_scan_keeps(lines, j + 1, acc);
        }
    }
}

proof fn lemma_scan_reaches(lines: Seq<Seq<char>>, j: int, acc: MassifView, i: int)
    requires
        0 <= j <= i < lines.len(),
        line_has(lines, i, key_snapshot()),
    ensures
        count_lines_with(lines, j, key_snapshot()) >= count_lines_with(lines, i, key_snapshot()),
        acc.snapshots.len() + count_lines_with(lines, j, key_snapshot()) - count_lines_with(
            lines,
            i,
            key_snapshot(),
        ) < scan_at(lines, j, acc).snapshots.len(),
        scan_at(lines, j, acc).snapshots[acc.snapshots.len() + count_lines_with(
            lines,
            j,
            key_snapshot(),
        ) - count_lines_with(lines, i, key_snapshot())] == snapshot_block(lines, i).0,
    decreases lines.len() - j,
{
    let t = trim(lines[j]);
    if starts_with(t, key_desc()) {
        lemma_keys_exclude(t, key_desc(), key_snapshot(), 0);
        lemma_scan_reaches(lines, j + 1, MassifView { desc: trim(after(t, key_desc())), ..acc }, i);
    } else if starts_with(t, key_cmd()) {
        lemma_keys_exclude(t, key_cmd(), key_snapshot(), 0);
        lemma_scan_reaches(lines, j + 1, MassifView { cmd: trim(after(t, key_cmd())), ..acc }, i);
    } else if starts_with(t, key_time_unit()) {
        lemma_keys_exclude(t, key_time_unit(), key_snapshot(), 0);
        lemma_scan_reaches(
            lines,
            j + 1,
            MassifView { time_unit: trim(after(t, key_time_unit())), ..acc },
            i,
        );
    } else if starts_with(t, key_snapshot()) {
        let first = skip_comments(lines, j + 1);
        lemma_skip_span(lines, j + 1);
        lemma_block_span(lines, first, fresh_snapshot(snapshot_number(t)));
        let (snap, end) = snapshot_block(lines, j);
        let next = MassifView { snapshots: acc.snapshots.push(snap), ..acc };
        lemma_count_unchanged(lines, j + 1, end, key_snapshot());
        if j == i {
            lemma_scan_keeps(lines, end, next);
            assert(next.snapshots[acc.snapshots.len() as int] == snap);
        } else {
            lemma_scan_reaches(lines, end, next, i);
        }
    } else {
        lemma_scan_reaches(lines, j + 1, acc, i);
    }
}

proof fn lemma_block_empty_at(lines: Seq<Seq<char>>, j: int, s: SnapshotView, e: int)
    requires
        0 <= j <= e < block_at(lines, j, s).1,
        e < lines.len(),
        line_has(lines, e, key_empty()),
        forall|k: int| e < k < block_at(lines, j, s).1 ==> !line_has(lines, k, key_detailed()),
    ensures
        block_at(lines, j, s).0.heap_tree is None,
    decreases lines.len() - j,
{
    if j == e {
        lemma_empty_tree_marker(lines, e, s);
    } else {
        let t = trim(lines[j]);
        if starts_with(t, key_comment()) || starts_with(t, key_snapshot()) {
        } else if starts_with(t, key_time()) {
            lemma_block_empty_at(lines, j + 1, SnapshotView { time: u64_or_zero(after(t, key_time())), ..s }, e);
        } else if starts_with(t, key_heap()) {
            lemma_block_empty_at(
                lines,
                j + 1,
                SnapshotView { mem_heap_b: u64_or_zero(after(t, key_heap())), ..s },
                e,
            );
        } else if starts_with(t, key_heap_extra()) {
            lemma_block_empty_at(
                lines,
                j + 1,
                SnapshotView { mem_heap_extra_b: u64_or_zero(after(t, key_heap_extra())), ..s },
                e,
            );
        } else if starts_with(t, key_stacks()) {
            lemma_block_empty_at(
                lines,
                j + 1,
                SnapshotView { mem_stacks_b: u64_or_zero(after(t, key_stacks())), ..s },
                e,
            );
        } else if starts_with(t, key_detailed()) {
            lemma_tree_span(lines, j + 1, 0);
            let (tree, end) = tree_at(lines, j + 1, 0);
            if j < end <= lines.len() {
                if e < end {
                    lemma_node_line_not_key(lines, e, key_empty());
                }
                lemma_block_empty_at(lines, end, SnapshotView { heap_tree: tree, ..s }, e);
            }
        } else if starts_with(t, key_empty()) {
            lemma_block_empty_at(lines, j + 1, SnapshotView { heap_tree: None, ..s }, e);
        } else {
            lemma_block_empty_at(lines, j + 1, s, e);
        }
    }
}

/// In a whole text, the snapshot opened by the `snapshot=` line `i` is the
/// one counted by the `snapshot=` lines before it. Where its block holds a
/// `heap_tree=empty` line `e`, with no `heap_tree=detailed` line after `e`
/// in the block, that snapshot has no tree.
pub proof fn lemma_empty_tree_snapshot(content: Seq<char>, i: int, e: int)
    requires
        0 <= i < str_lines(content).len(),
        line_has(str_lines(content), i, key_snapshot()),
        skip_comments(str_lines(content), i + 1) <= e < snapshot_block(str_lines(content), i).1,
        line_has(str_lines(content), e, key_empty()),
        forall|k: int|
            e < k < snapshot_block(str_lines(content), i).1 ==> !line_has(
                str_lines(content),
                k,
                key_detailed(),
            ),
    ensures
        ({
            let n = count_lines_with(str_lines(content), 0, key_snapshot()) - count_lines_with(
                str_lines(content),
                i,
                key_snapshot(),
            );
            &&& 0 <= n < massif_model(content).snapshots.len()
            &&& massif_model(content).snapshots[n] == snapshot_block(str_lines(content), i).0
            &&& massif_model(content).snapshots[n].heap_tree is None
        }),
{
    let lines = str_lines(content);
    lemma_scan_reaches(lines, 0, empty_profile(), i);
    let first = skip_comments(lines, i + 1);
    lemma_skip_span(lines, i + 1);
    lemma_block_span(lines, first, fresh_snapshot(snapshot_number(trim(lines[i]))));
    lemma_block_empty_at(lines, first, fresh_snapshot(snapshot_number(trim(lines[i]))), e);
}

} // verus!
