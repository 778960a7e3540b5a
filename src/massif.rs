use vstd::prelude::*;

use crate::node::{opt_node_view, HeapNode, NodeView};
use crate::text::{
    chars_of, find_char, find_first, has_prefix, parse_u32, parse_u32_spec, parse_u64,
    parse_u64_spec, slice_of, starts_with, string_of, trim, trim_chars,
};
use crate::tree::{lines_view, parse_heap_tree, tree_at};

verus! {

broadcast use vstd::std_specs::vec::group_vec_axioms, vstd::seq::group_seq_axioms;

/// One measurement: the memory in use at one moment, and optionally the
/// allocation tree behind it.
#[derive(Debug)]
pub struct Snapshot {
    pub snapshot_num: u32,
    pub time: u64,
    pub mem_heap_b: u64,
    pub mem_heap_extra_b: u64,
    pub mem_stacks_b: u64,
    pub heap_tree: Option<HeapNode>,
}

/// A whole profile: its header fields and its snapshots in the order of the file.
#[derive(Debug)]
pub struct MassifData {
    pub desc: String,
    pub cmd: String,
    pub time_unit: String,
    pub snapshots: Vec<Snapshot>,
}

pub struct SnapshotView {
    pub snapshot_num: u32,
    pub time: u64,
    pub mem_heap_b: u64,
    pub mem_heap_extra_b: u64,
    pub mem_stacks_b: u64,
    pub heap_tree: Option<NodeView>,
}

pub struct MassifView {
    pub desc: Seq<char>,
    pub cmd: Seq<char>,
    pub time_unit: Seq<char>,
    pub snapshots: Seq<SnapshotView>,
}

impl View for Snapshot {
    type V = SnapshotView;

    open spec fn view(&self) -> SnapshotView {
        SnapshotView {
            snapshot_num: self.snapshot_num,
            time: self.time,
            mem_heap_b: self.mem_heap_b,
            mem_heap_extra_b: self.mem_heap_extra_b,
            mem_stacks_b: self.mem_stacks_b,
            heap_tree: opt_node_view(self.heap_tree),
        }
    }
}

pub open spec fn snapshots_view(s: Seq<Snapshot>) -> Seq<SnapshotView> {
    s.map_values(|x: Snapshot| x@)
}

impl View for MassifData {
    type V = MassifView;

    open spec fn view(&self) -> MassifView {
        MassifView {
            desc: self.desc@,
            cmd: self.cmd@,
            time_unit: self.time_unit@,
            snapshots: snapshots_view(self.snapshots@),
        }
    }
}

/// The text split at each line feed: one piece more than there are line feeds.
pub open spec fn split_nl(s: Seq<char>) -> Seq<Seq<char>>
    decreases s.len(),
{
    let i = find_char(s, '\n');
    if i < 0 || i >= s.len() {
        seq![s]
    } else {
        seq![s.subrange(0, i)] + split_nl(s.subrange(i + 1, s.len() as int))
    }
}

/// A line that ended in "\r\n" without its "\r".
pub open spec fn strip_cr(l: Seq<char>) -> Seq<char> {
    if l.len() > 0 && l.last() == '\r' {
        l.drop_last()
    } else {
        l
    }
}

/// The lines of a text as `str::lines` gives them: split at each "\n", with a
/// "\r" just before it dropped, and no empty line after a final "\n".
pub open spec fn str_lines(s: Seq<char>) -> Seq<Seq<char>> {
    let p = split_nl(s);
    let body = p.drop_last().map_values(|l: Seq<char>| strip_cr(l));
    if p.last().len() == 0 {
        body
    } else {
        body.push(p.last())
    }
}

/// Relies on `str::lines`: the text cut at line feeds, a carriage return just
/// before a line feed dropped, and no empty line after a final line feed.
#[verifier::external_body]
fn split_lines(s: &str) -> (r: Vec<&str>)
    ensures
        lines_view(r@) == str_lines(s@),
{
    s.lines().collect()
}

pub open spec fn key_desc() -> Seq<char> {
    seq!['d', 'e', 's', 'c', ':']
}

pub open spec fn key_cmd() -> Seq<char> {
    seq!['c', 'm', 'd', ':']
}

pub open spec fn key_time_unit() -> Seq<char> {
    seq!['t', 'i', 'm', 'e', '_', 'u', 'n', 'i', 't', ':']
}

pub open spec fn key_snapshot() -> Seq<char> {
    seq!['s', 'n', 'a', 'p', 's', 'h', 'o', 't', '=']
}

pub open spec fn key_comment() -> Seq<char> {
    seq!['#']
}

pub open spec fn key_time() -> Seq<char> {
    seq!['t', 'i', 'm', 'e', '=']
}

pub open spec fn key_heap() -> Seq<char> {
    seq!['m', 'e', 'm', '_', 'h', 'e', 'a', 'p', '_', 'B', '=']
}

pub open spec fn key_heap_extra() -> Seq<char> {
    seq!['m', 'e', 'm', '_', 'h', 'e', 'a', 'p', '_', 'e', 'x', 't', 'r', 'a', '_', 'B', '=']
}

pub open spec fn key_stacks() -> Seq<char> {
    seq!['m', 'e', 'm', '_', 's', 't', 'a', 'c', 'k', 's', '_', 'B', '=']
}

pub open spec fn key_detailed() -> Seq<char> {
    seq!['h', 'e', 'a', 'p', '_', 't', 'r', 'e', 'e', '=', 'd', 'e', 't', 'a', 'i', 'l', 'e', 'd']
}

pub open spec fn key_empty() -> Seq<char> {
    seq!['h', 'e', 'a', 'p', '_', 't', 'r', 'e', 'e', '=', 'e', 'm', 'p', 't', 'y']
}

/// What follows `key` in `t`.
pub open spec fn after(t: Seq<char>, key: Seq<char>) -> Seq<char> {
    t.subrange(key.len() as int, t.len() as int)
}

pub open spec fn u64_or_zero(s: Seq<char>) -> u64 {
    match parse_u64_spec(s) {
        Some(v) => v,
        None => 0,
    }
}

pub open spec fn line_has(lines: Seq<Seq<char>>, k: int, key: Seq<char>) -> bool {
    starts_with(trim(lines[k]), key)
}

/// The first line from `i` on that is no comment line.
pub open spec fn skip_comments(lines: Seq<Seq<char>>, i: int) -> int
    decreases lines.len() - i,
{
    if 0 <= i < lines.len() && line_has(lines, i, key_comment()) {
        skip_comments(lines, i + 1)
    } else {
        i
    }
}

pub open spec fn fresh_snapshot(num: u32) -> SnapshotView {
    SnapshotView {
        snapshot_num: num,
        time: 0,
        mem_heap_b: 0,
        mem_heap_extra_b: 0,
        mem_stacks_b: 0,
        heap_tree: None,
    }
}

/// The body of a snapshot block read from line `i` on into `s`, and the line
/// where the block ends: the first one that begins with `#` or `snapshot=`.
pub open spec fn block_at(lines: Seq<Seq<char>>, i: int, s: SnapshotView) -> (SnapshotView, int)
    decreases lines.len() - i,
{
    if i < 0 || i >= lines.len() {
        (s, i)
    } else {
        let t = trim(lines[i]);
        if starts_with(t, key_comment()) || starts_with(t, key_snapshot()) {
            (s, i)
        } else if starts_with(t, key_time()) {
            block_at(lines, i + 1, SnapshotView { time: u64_or_zero(after(t, key_time())), ..s })
        } else if starts_with(t, key_heap()) {
            block_at(
                lines,
                i + 1,
                SnapshotView { mem_heap_b: u64_or_zero(after(t, key_heap())), ..s },
            )
        } else if starts_with(t, key_heap_extra()) {
            block_at(
                lines,
                i + 1,
                SnapshotView { mem_heap_extra_b: u64_or_zero(after(t, key_heap_extra())), ..s },
            )
        } else if starts_with(t, key_stacks()) {
            block_at(
                lines,
                i + 1,
                SnapshotView { mem_stacks_b: u64_or_zero(after(t, key_stacks())), ..s },
            )
        } else if starts_with(t, key_detailed()) {
            let (tree, end) = tree_at(lines, i + 1, 0);
            if i < end <= lines.len() {
                block_at(lines, end, SnapshotView { heap_tree: tree, ..s })
            } else {
                (s, i)
            }
        } else if starts_with(t, key_empty()) {
            block_at(lines, i + 1, SnapshotView { heap_tree: None, ..s })
        } else {
            block_at(lines, i + 1, s)
        }
    }
}

/// The number on a `snapshot=` line, or 0 where none can be read.
pub open spec fn snapshot_number(t: Seq<char>) -> u32 {
    match parse_u32_spec(after(t, key_snapshot())) {
        Some(v) => v,
        None => 0,
    }
}

/// The snapshot whose `snapshot=` line is line `i`, and the line where its
/// block ends: comment lines after the marker are passed over.
pub open spec fn snapshot_block(lines: Seq<Seq<char>>, i: int) -> (SnapshotView, int) {
    block_at(lines, skip_comments(lines, i + 1), fresh_snapshot(snapshot_number(trim(lines[i]))))
}

/// The profile read from line `i` on into `acc`.
pub open spec fn scan_at(lines: Seq<Seq<char>>, i: int, acc: MassifView) -> MassifView
    decreases lines.len() - i,
{
    if i < 0 || i >= lines.len() {
        acc
    } else {
        let t = trim(lines[i]);
        if starts_with(t, key_desc()) {
            scan_at(lines, i + 1, MassifView { desc: trim(after(t, key_desc())), ..acc })
        } else if starts_with(t, key_cmd()) {
            scan_at(lines, i + 1, MassifView { cmd: trim(after(t, key_cmd())), ..acc })
        } else if starts_with(t, key_time_unit()) {
            scan_at(lines, i + 1, MassifView { time_unit: trim(after(t, key_time_unit())), ..acc })
        } else if starts_with(t, key_snapshot()) {
            let (snap, end) = snapshot_block(lines, i);
            if i < end <= lines.len() {
                scan_at(lines, end, MassifView { snapshots: acc.snapshots.push(snap), ..acc })
            } else {
                acc
            }
        } else {
            scan_at(lines, i + 1, acc)
        }
    }
}

pub open spec fn empty_profile() -> MassifView {
    MassifView { desc: Seq::empty(), cmd: Seq::empty(), time_unit: Seq::empty(), snapshots: Seq::empty() }
}

/// The profile that a text holds.
pub open spec fn massif_model(content: Seq<char>) -> MassifView {
    scan_at(str_lines(content), 0, empty_profile())
}

fn desc_key() -> (r: Vec<char>)
    ensures
        r@ == key_desc(),
{
    vec!['d', 'e', 's', 'c', ':']
}

fn cmd_key() -> (r: Vec<char>)
    ensures
        r@ == key_cmd(),
{
    vec!['c', 'm', 'd', ':']
}

fn time_unit_key() -> (r: Vec<char>)
    ensures
        r@ == key_time_unit(),
{
    vec!['t', 'i', 'm', 'e', '_', 'u', 'n', 'i', 't', ':']
}

fn snapshot_key() -> (r: Vec<char>)
    ensures
        r@ == key_snapshot(),
{
    vec!['s', 'n', 'a', 'p', 's', 'h', 'o', 't', '=']
}

fn comment_key() -> (r: Vec<char>)
    ensures
        r@ == key_comment(),
{
    vec!['#']
}

fn time_key() -> (r: Vec<char>)
    ensures
        r@ == key_time(),
{
    vec!['t', 'i', 'm', 'e', '=']
}

fn heap_key() -> (r: Vec<char>)
    ensures
        r@ == key_heap(),
{
    vec!['m', 'e', 'm', '_', 'h', 'e', 'a', 'p', '_', 'B', '=']
}

fn heap_extra_key() -> (r: Vec<char>)
    ensures
        r@ == key_heap_extra(),
{
    vec!['m', 'e', 'm', '_', 'h', 'e', 'a', 'p', '_', 'e', 'x', 't', 'r', 'a', '_', 'B', '=']
}

fn stacks_key() -> (r: Vec<char>)
    ensures
        r@ == key_stacks(),
{
    vec!['m', 'e', 'm', '_', 's', 't', 'a', 'c', 'k', 's', '_', 'B', '=']
}

fn detailed_key() -> (r: Vec<char>)
    ensures
        r@ == key_detailed(),
{
    vec!['h', 'e', 'a', 'p', '_', 't', 'r', 'e', 'e', '=', 'd', 'e', 't', 'a', 'i', 'l', 'e', 'd']
}

fn empty_key() -> (r: Vec<char>)
    ensures
        r@ == key_empty(),
{
    vec!['h', 'e', 'a', 'p', '_', 't', 'r', 'e', 'e', '=', 'e', 'm', 'p', 't', 'y']
}

/// The trimmed text of line `k`.
fn trimmed_line(lines: &[&str], k: usize) -> (r: Vec<char>)
    requires
        k < lines.len(),
    ensures
        r@ == trim(lines_view(lines@)[k as int]),
{
    let line = chars_of(lines[k]);
    trim_chars(&line)
}

/// The number after `key` in `t`, or 0 where none can be read.
fn number_after(t: &Vec<char>, key: &Vec<char>) -> (r: u64)
    requires
        starts_with(t@, key@),
    ensures
        r == u64_or_zero(after(t@, key@)),
{
    let rest = slice_of(t, key.len(), t.len());
    match parse_u64(&rest) {
        Some(v) => v,
        None => 0,
    }
}

/// The text after `key` in `t`, trimmed.
fn text_after(t: &Vec<char>, key: &Vec<char>) -> (r: String)
    requires
        starts_with(t@, key@),
    ensures
        r@ == trim(after(t@, key@)),
{
    let rest = slice_of(t, key.len(), t.len());
    let tr = trim_chars(&rest);
    assert(tr@.subrange(0, tr@.len() as int) == tr@);
    string_of(&tr, 0, tr.len())
}

fn skip_comment_lines(lines: &[&str], start: usize) -> (r: usize)
    requires
        start <= lines.len(),
    ensures
        r == skip_comments(lines_view(lines@), start as int),
        start <= r <= lines.len(),
{
    let ghost lv = lines_view(lines@);
    let hash = comment_key();
    let mut i = start;
    while i < lines.len() && has_prefix(&trimmed_line(lines, i), &hash)
        invariant
            start <= i <= lines.len(),
            lv == lines_view(lines@),
            hash@ == key_comment(),
            skip_comments(lv, i as int) == skip_comments(lv, start as int),
        decreases lines.len() - i,
    {
        i = i + 1;
    }
    i
}

/// Reads the body of a snapshot block from line `start` on (see `block_at`).
fn parse_snapshot_block(lines: &[&str], start: usize, num: u32) -> (r: (Snapshot, usize))
    requires
        start <= lines.len(),
    ensures
        (r.0@, r.1 as int) == block_at(lines_view(lines@), start as int, fresh_snapshot(num)),
        start <= r.1 <= lines.len(),
{
    let ghost lv = lines_view(lines@);
    let mut snap = Snapshot {
        snapshot_num: num,
        time: 0,
        mem_heap_b: 0,
        mem_heap_extra_b: 0,
        mem_stacks_b: 0,
        heap_tree: None,
    };
    let mut i = start;
    loop
        invariant
            start <= i <= lines.len(),
            lv == lines_view(lines@),
            block_at(lv, i as int, snap@) == block_at(lv, start as int, fresh_snapshot(num)),
        ensures
            block_at(lv, start as int, fresh_snapshot(num)) == (snap@, i as int),
            start <= i <= lines.len(),
        decreases lines.len() - i,
    {
        if i >= lines.len() {
            break;
        }
        let t = trimmed_line(lines, i);
        if has_prefix(&t, &comment_key()) || has_prefix(&t, &snapshot_key()) {
            break;
        }
        let k = time_key();
        if has_prefix(&t, &k) {
            snap.time = number_after(&t, &k);
            i = i + 1;
            continue;
        }
        let k = heap_key();
        if has_prefix(&t, &k) {
            snap.mem_heap_b = number_after(&t, &k);
            i = i + 1;
            continue;
        }
        let k = heap_extra_key();
        if has_prefix(&t, &k) {
            snap.mem_heap_extra_b = number_after(&t, &k);
            i = i + 1;
            continue;
        }
        let k = stacks_key();
        if has_prefix(&t, &k) {
            snap.mem_stacks_b = number_after(&t, &k);
            i = i + 1;
            continue;
        }
        if has_prefix(&t, &detailed_key()) {
            let (tree, end) = parse_heap_tree(lines, i + 1, 0);
            snap.heap_tree = tree;
            i = end;
            continue;
        }
        if has_prefix(&t, &empty_key()) {
            snap.heap_tree = None;
        }
        i = i + 1;
    }
    (snap, i)
}

/// Parses the text of a profile. Reading never fails: numbers that do not
/// read count as 0, lines that are not understood are passed over, and a
/// tree cut short keeps the nodes that are there.
pub fn parse_massif_content(content: &str) -> (r: Result<MassifData, String>)
    ensures
        r matches Ok(d) && d@ == massif_model(content@),
{
    let all = split_lines(content);
    let lines = all.as_slice();
    let ghost lv = lines_view(lines@);
    let mut desc = String::new();
    let mut cmd = String::new();
    let mut time_unit = String::new();
    let mut snapshots: Vec<Snapshot> = Vec::new();
    let mut i: usize = 0;
    assert(snapshots_view(snapshots@) == Seq::<SnapshotView>::empty());
    while i < lines.len()
        invariant
            i <= lines.len(),
            lv == lines_view(lines@),
            lv == str_lines(content@),
            scan_at(
                lv,
                i as int,
                MassifView {
                    desc: desc@,
                    cmd: cmd@,
                    time_unit: time_unit@,
                    snapshots: snapshots_view(snapshots@),
                },
            ) == massif_model(content@),
        decreases lines.len() - i,
    {
        let t = trimmed_line(lines, i);
        let k = desc_key();
        if has_prefix(&t, &k) {
            desc = text_after(&t, &k);
            i = i + 1;
            continue;
        }
        let k = cmd_key();
        if has_prefix(&t, &k) {
            cmd = text_after(&t, &k);
            i = i + 1;
            continue;
        }
        let k = time_unit_key();
        if has_prefix(&t, &k) {
            time_unit = text_after(&t, &k);
            i = i + 1;
            continue;
        }
        let k = snapshot_key();
        if has_prefix(&t, &k) {
            let num_text = slice_of(&t, k.len(), t.len());
            let num = match parse_u32(&num_text) {
                Some(v) => v,
                None => 0,
            };
            let j = skip_comment_lines(lines, i + 1);
            let (snap, end) = parse_snapshot_block(lines, j, num);
            proof {
                assert(snapshots_view(snapshots@.push(snap)) =~= snapshots_view(snapshots@).push(
                    snap@,
                ));
            }
            snapshots.push(snap);
            i = end;
            continue;
        }
        i = i + 1;
    }
    Ok(MassifData { desc, cmd, time_unit, snapshots })
}

} // verus!
