use vstd::prelude::*;

use crate::text::{
    chars_of, find_first, first_index, has_prefix, is_first, is_last_end, last_end, lemma_first_index,
    lemma_last_end, parse_u32, parse_u32_spec, parse_u64, parse_u64_spec, slice_of, starts_with,
    string_of, trim, trim_chars, find_char,
};

verus! {

broadcast use vstd::std_specs::vec::group_vec_axioms, vstd::seq::group_seq_axioms;

/// One node of an allocation tree: a call site, the bytes attributed to it and
/// to its callees, and the callees themselves.
#[derive(Debug)]
pub struct HeapNode {
    /// The number of children the node's line declares; `children` may hold fewer.
    pub num_children: u32,
    pub bytes: u64,
    /// Empty on an aggregate "below threshold" node.
    pub address: String,
    pub function: String,
    pub file_info: Option<String>,
    pub children: Vec<HeapNode>,
}

/// What a `HeapNode` holds, as mathematical values.
pub struct NodeView {
    pub num_children: u32,
    pub bytes: u64,
    pub address: Seq<char>,
    pub function: Seq<char>,
    pub file_info: Option<Seq<char>>,
    pub children: Seq<NodeView>,
}

pub open spec fn opt_view(o: Option<String>) -> Option<Seq<char>> {
    match o {
        Some(s) => Some(s@),
        None => None,
    }
}

pub open spec fn node_view(n: HeapNode) -> NodeView
    decreases n,
{
    NodeView {
        num_children: n.num_children,
        bytes: n.bytes,
        address: n.address@,
        function: n.function@,
        file_info: opt_view(n.file_info),
        children: nodes_view(n.children@),
    }
}

pub open spec fn nodes_view(s: Seq<HeapNode>) -> Seq<NodeView>
    decreases s,
{
    if s.len() == 0 {
        Seq::empty()
    } else {
        nodes_view(s.drop_last()).push(node_view(s.last()))
    }
}

impl View for HeapNode {
    type V = NodeView;

    open spec fn view(&self) -> NodeView {
        node_view(*self)
    }
}

pub open spec fn opt_node_view(o: Option<HeapNode>) -> Option<NodeView> {
    match o {
        Some(n) => Some(n@),
        None => None,
    }
}

/// A ": " begins at `k`.
pub open spec fn colon_space_at(s: Seq<char>) -> spec_fn(int) -> bool {
    |k: int| 0 <= k && k + 1 < s.len() && s[k] == ':' && s[k + 1] == ' '
}

/// A " (" begins at `k`.
pub open spec fn paren_open_at(s: Seq<char>) -> spec_fn(int) -> bool {
    |k: int| 0 <= k && k + 1 < s.len() && s[k] == ' ' && s[k + 1] == '('
}

/// A function text split into the function and, where it ends in a
/// parenthesised group opened by the last " (", the text of that group.
pub open spec fn split_function(f: Seq<char>) -> (Seq<char>, Option<Seq<char>>) {
    let j = last_end(f.len() as int, paren_open_at(f));
    if j > 0 && f.len() > 0 && f.last() == ')' {
        (f.subrange(0, j - 1), Some(f.subrange(j + 1, f.len() - 1)))
    } else {
        (f, None)
    }
}

/// The description of a detailed node, `<address>: <function>[ (<file_info>)]`,
/// as (address, function, file_info).
pub open spec fn split_description(d: Seq<char>) -> (Seq<char>, Seq<char>, Option<Seq<char>>) {
    let c = first_index(d.len() as int, colon_space_at(d));
    if c == d.len() {
        (Seq::empty(), d, None)
    } else {
        let (f, info) = split_function(d.subrange(c + 2, d.len() as int));
        (trim(d.subrange(0, c)), f, info)
    }
}

pub open spec fn leaf(
    num_children: u32,
    bytes: u64,
    address: Seq<char>,
    function: Seq<char>,
    file_info: Option<Seq<char>>,
) -> NodeView {
    NodeView { num_children, bytes, address, function, file_info, children: Seq::empty() }
}

pub open spec fn aggregate_marker() -> Seq<char> {
    seq!['i', 'n', ' ']
}

/// The node a line describes, without children: `n<count>: <bytes> <description>`.
/// A count that does not read as a `u32` makes the line no node; bytes that do
/// not read as a `u64` count as 0. A description that begins with "in " is an
/// aggregate: the whole text after the colon becomes the function.
pub open spec fn node_line(t: Seq<char>) -> Option<NodeView> {
    if t.len() == 0 || t[0] != 'n' {
        None
    } else {
        let c = find_char(t, ':');
        if c == t.len() {
            None
        } else {
            match parse_u32_spec(t.subrange(1, c)) {
                None => None,
                Some(k) => {
                    let rest = trim(t.subrange(c + 1, t.len() as int));
                    let sp = find_char(rest, ' ');
                    let bytes = match parse_u64_spec(rest.subrange(0, sp)) {
                        Some(b) => b,
                        None => 0,
                    };
                    if sp == rest.len() {
                        Some(leaf(k, bytes, Seq::empty(), Seq::empty(), None))
                    } else {
                        let d = rest.subrange(sp + 1, rest.len() as int);
                        if starts_with(d, aggregate_marker()) {
                            Some(leaf(k, bytes, Seq::empty(), rest, None))
                        } else {
                            let (a, f, info) = split_description(d);
                            Some(leaf(k, bytes, a, f, info))
                        }
                    }
                }
            }
        }
    }
}

fn find_colon_space(v: &Vec<char>) -> (r: usize)
    ensures
        r == first_index(v@.len() as int, colon_space_at(v@)),
        r <= v.len(),
        r < v.len() ==> r + 1 < v.len(),
{
    let ghost s = v@;
    let mut i: usize = 0;
    while i < v.len() && !(i + 1 < v.len() && v[i] == ':' && v[i + 1] == ' ')
        invariant
            i <= v.len(),
            s == v@,
            forall|k: int| 0 <= k < i ==> !(#[trigger] colon_space_at(s)(k)),
        decreases v.len() - i,
    {
        i = i + 1;
    }
    proof {
        lemma_first_index(s.len() as int, colon_space_at(s), i as int);
    }
    i
}

fn last_paren_open(v: &Vec<char>) -> (r: usize)
    ensures
        r == last_end(v@.len() as int, paren_open_at(v@)),
        r <= v.len(),
        r > 0 ==> r < v.len() && v@[r as int] == '(',
{
    let ghost s = v@;
    let mut j: usize = v.len();
    while j > 0 && !(j < v.len() && v[j - 1] == ' ' && v[j] == '(')
        invariant
            j <= v.len(),
            s == v@,
            forall|k: int| j <= k < s.len() ==> !(#[trigger] paren_open_at(s)(k)),
        decreases j,
    {
        j = j - 1;
    }
    proof {
        lemma_last_end(s.len() as int, paren_open_at(s), j as int);
    }
    j
}

fn split_function_exec(f: &Vec<char>) -> (r: (String, Option<String>))
    ensures
        (r.0@, opt_view(r.1)) == split_function(f@),
{
    let j = last_paren_open(f);
    if j > 0 && f.len() > 0 && f[f.len() - 1] == ')' {
        (string_of(f, 0, j - 1), Some(string_of(f, j + 1, f.len() - 1)))
    } else {
        assert(f@.subrange(0, f@.len() as int) == f@);
        (string_of(f, 0, f.len()), None)
    }
}

fn split_description_exec(d: &Vec<char>) -> (r: (String, String, Option<String>))
    ensures
        (r.0@, r.1@, opt_view(r.2)) == split_description(d@),
{
    let c = find_colon_space(d);
    if c == d.len() {
        assert(d@.subrange(0, d@.len() as int) == d@);
        (String::new(), string_of(d, 0, d.len()), None)
    } else {
        let f = slice_of(d, c + 2, d.len());
        let (function, file_info) = split_function_exec(&f);
        let a = slice_of(d, 0, c);
        let at = trim_chars(&a);
        (string_of(&at, 0, at.len()), function, file_info)
    }
}

fn bare_node(
    num_children: u32,
    bytes: u64,
    address: String,
    function: String,
    file_info: Option<String>,
) -> (r: HeapNode)
    ensures
        r@ == leaf(num_children, bytes, address@, function@, opt_view(file_info)),
{
    let r = HeapNode { num_children, bytes, address, function, file_info, children: Vec::new() };
    assert(r.children@ == Seq::<HeapNode>::empty());
    r
}

/// Parses one node line (see `node_line`); `None` where the line is no node.
pub fn parse_heap_node_line(line: &str) -> (r: Option<HeapNode>)
    ensures
        opt_node_view(r) == node_line(line@),
{
    let t = chars_of(line);
    node_from_chars(&t)
}

/// Parses the characters of one node line (see `node_line`).
pub fn node_from_chars(t: &Vec<char>) -> (r: Option<HeapNode>)
    ensures
        opt_node_view(r) == node_line(t@),
{
    if t.len() == 0 || t[0] != 'n' {
        return None;
    }
    let c = find_first(t, ':');
    if c == t.len() {
        return None;
    }
    let count_text = slice_of(t, 1, c);
    let num_children = match parse_u32(&count_text) {
        Some(k) => k,
        None => {
            return None;
        },
    };
    let after = slice_of(t, c + 1, t.len());
    let rest = trim_chars(&after);
    let sp = find_first(&rest, ' ');
    let head = slice_of(&rest, 0, sp);
    let bytes = match parse_u64(&head) {
        Some(b) => b,
        None => 0,
    };
    if sp == rest.len() {
        return Some(bare_node(num_children, bytes, String::new(), String::new(), None));
    }
    let d = slice_of(&rest, sp + 1, rest.len());
    let marker = vec!['i', 'n', ' '];
    assert(marker@ == aggregate_marker());
    if has_prefix(&d, &marker) {
        assert(rest@.subrange(0, rest@.len() as int) == rest@);
        return Some(bare_node(num_children, bytes, String::new(), string_of(&rest, 0, rest.len()), None));
    }
    let (address, function, file_info) = split_description_exec(&d);
    Some(bare_node(num_children, bytes, address, function, file_info))
}

} // verus!
