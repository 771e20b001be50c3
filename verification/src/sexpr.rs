//! A minimal s-expression reader for KiCad board documents.
//!
//! KiCad hands the whole board over as its own s-expression text, which is the
//! only representation that carries everything KiCase needs: polygon vertices,
//! pad drills and, above all, the persistent UUID of every object.
//!
//! The reader works on the UTF-8 bytes of the document and reports errors by
//! byte offset. Its behaviour is stated by the grammar functions below
//! ([`node_at`], [`list_from`], [`quoted_at`], [`bare_at`], ...), each of
//! which reads one construct starting at a byte position and says where the
//! construct ends.

use crate::text::{
    contains_str, contains_string, lemma_str_from_bytes, push_char, str_eq, str_views, string_views,
    utf8_str,
};
use vstd::prelude::*;
use vstd::string::StringSliceAdditionalSpecFns;
use vstd::utf8::*;

verus! {

broadcast use vstd::utf8::group_utf8_lib;

/// The value of an s-expression node: what [`Node::deep`] maps a node to.
pub enum SNode {
    Atom(Seq<char>),
    List(Seq<SNode>),
}

/// One s-expression node.
#[derive(Debug, PartialEq)]
pub enum Node {
    /// A bare token or a quoted string, unescaped.
    Atom(String),
    /// A parenthesised list.
    List(Vec<Node>),
}

/// Where a parse failed, and why.
#[derive(Debug, Clone, PartialEq, Eq)]
pub struct ParseError {
    pub message: String,
    pub offset: usize,
}

/// The outcome of reading one construct: the node and the byte position just
/// after it, or an error message with its byte offset.
pub type SResult = Result<(SNode, int), (Seq<char>, int)>;

impl Node {
    /// The value of a node, with every string taken by its characters.
    pub open spec fn deep(self) -> SNode
        decreases self,
    {
        match self {
            Node::Atom(s) => SNode::Atom(s@),
            Node::List(items) => SNode::List(
                Seq::new(
                    items@.len(),
                    |i: int|
                        if 0 <= i < items@.len() {
                            items@[i].deep()
                        } else {
                            SNode::Atom(Seq::empty())
                        },
                ),
            ),
        }
    }
}

impl Clone for Node {
    /// A copy of the node, with the same value.
    fn clone(&self) -> (r: Self)
        ensures
            r.deep() == self.deep(),
        decreases self,
    {
        match self {
            Node::Atom(text) => Node::Atom(text.clone()),
            Node::List(items) => {
                let mut copy: Vec<Node> = Vec::new();
                let mut i: usize = 0;
                while i < items.len()
                    invariant
                        i <= items@.len(),
                        *self == Node::List(*items),
                        deep_seq(copy@) == deep_seq(items@).take(i as int),
                    decreases items.len() - i,
                {
                    proof {
                        assert(self->List_0 == *items);
                        assert(decreases_to!(*self => self->List_0));
                        assert(decreases_to!(*items => items@));
                        assert(decreases_to!(items@ => items@[i as int]));
                    }
                    let child = items[i].clone();
                    let ghost before = copy@;
                    copy.push(child);
                    assert(deep_seq(copy@) =~= deep_seq(before).push(child.deep()));
                    assert(deep_seq(items@).take(i + 1) =~= deep_seq(items@).take(i as int).push(
                        items@[i as int].deep(),
                    ));
                    i = i + 1;
                }
                assert(deep_seq(items@).take(items@.len() as int) =~= deep_seq(items@));
                proof {
                    lemma_list_deep(copy);
                    lemma_list_deep(*items);
                }
                Node::List(copy)
            },
        }
    }
}

/// The values of a sequence of nodes.
pub open spec fn deep_seq(items: Seq<Node>) -> Seq<SNode> {
    Seq::new(items.len(), |i: int| items[i].deep())
}

pub proof fn lemma_list_deep(items: Vec<Node>)
    ensures
        Node::List(items).deep() == SNode::List(deep_seq(items@)),
{
    let d = Node::List(items).deep();
    if let SNode::List(s) = d {
        assert(s =~= deep_seq(items@));
    }
}

/// An error with its message and byte offset.
pub open spec fn error_is(e: ParseError, s: (Seq<char>, int)) -> bool {
    e.message@ == s.0 && e.offset == s.1
}

/// `r` is the executable outcome of the construct `s`, and `end` is where it
/// stopped when it succeeded.
pub open spec fn node_result(r: Result<Node, ParseError>, s: SResult, end: int) -> bool {
    match s {
        Ok((n, q)) => r matches Ok(node) && node.deep() == n && end == q,
        Err(e) => r matches Err(err) && error_is(err, e),
    }
}


/// The head symbol of a list value, e.g. `gr_line` for `(gr_line ...)`.
pub open spec fn head_of(n: SNode) -> Option<Seq<char>> {
    match n {
        SNode::List(items) => if items.len() > 0 {
            match items[0] {
                SNode::Atom(t) => Some(t),
                SNode::List(_) => None,
            }
        } else {
            None
        },
        SNode::Atom(_) => None,
    }
}

/// The direct children of a list value that are lists headed by `name`.
pub open spec fn children_of(n: SNode, name: Seq<char>) -> Seq<SNode> {
    match n {
        SNode::List(items) => items.filter(|c: SNode| head_of(c) == Some(name)),
        SNode::Atom(_) => Seq::empty(),
    }
}

/// Everything after the head of a list value.
pub open spec fn args_of(n: SNode) -> Seq<SNode> {
    match n {
        SNode::List(items) => if items.len() > 0 {
            items.subrange(1, items.len() as int)
        } else {
            Seq::empty()
        },
        SNode::Atom(_) => Seq::empty(),
    }
}

/// The `index`-th argument of a list value, when it is an atom.
pub open spec fn string_of(n: SNode, index: int) -> Option<Seq<char>> {
    let args = args_of(n);
    if 0 <= index < args.len() {
        match args[index] {
            SNode::Atom(t) => Some(t),
            SNode::List(_) => None,
        }
    } else {
        None
    }
}

/// The first argument of the first child headed by `name`.
pub open spec fn child_string_of(n: SNode, name: Seq<char>) -> Option<Seq<char>> {
    let found = children_of(n, name);
    if found.len() > 0 {
        string_of(found[0], 0)
    } else {
        None
    }
}

/// Every list in a value, depth first, each before its own children.
pub open spec fn lists_preorder(n: SNode) -> Seq<SNode>
    decreases n,
{
    match n {
        SNode::List(items) => seq![n] + lists_preorder_seq(items),
        SNode::Atom(_) => Seq::empty(),
    }
}

/// [`lists_preorder`] of each value in turn.
pub open spec fn lists_preorder_seq(items: Seq<SNode>) -> Seq<SNode>
    decreases items,
{
    if items.len() == 0 {
        Seq::empty()
    } else {
        lists_preorder_seq(items.drop_last()) + lists_preorder(items.last())
    }
}

/// The values behind a sequence of references.
pub open spec fn deep_refs(v: Seq<&Node>) -> Seq<SNode> {
    Seq::new(v.len(), |i: int| v[i].deep())
}

// ---------------------------------------------------------------------------
// The grammar.

/// ASCII whitespace, as `u8::is_ascii_whitespace` defines it.
pub open spec fn is_space(b: u8) -> bool {
    b == 0x20 || b == 0x09 || b == 0x0A || b == 0x0C || b == 0x0D
}

/// A byte that ends a bare token.
pub open spec fn ends_bare(b: u8) -> bool {
    is_space(b) || b == 0x28 || b == 0x29
}

/// The first position at or after `pos` that is not whitespace.
pub open spec fn skip_space(b: Seq<u8>, pos: int) -> int
    decreases b.len() - pos,
{
    if 0 <= pos < b.len() && is_space(b[pos]) {
        skip_space(b, pos + 1)
    } else {
        pos
    }
}

/// The first position at or after `pos` that ends a bare token.
pub open spec fn bare_end(b: Seq<u8>, pos: int) -> int
    decreases b.len() - pos,
{
    if 0 <= pos < b.len() && !ends_bare(b[pos]) {
        bare_end(b, pos + 1)
    } else {
        pos
    }
}

/// The characters that the bytes `from..to` encode, when they are UTF-8.
pub open spec fn decode_run(b: Seq<u8>, from: int, to: int) -> Option<Seq<char>> {
    let run = b.subrange(from, to);
    if valid_utf8(run) {
        Some(decode_utf8(run))
    } else {
        None
    }
}

pub open spec fn msg_end_of_input() -> Seq<char> {
    "unexpected end of input"@
}

pub open spec fn msg_unclosed_list() -> Seq<char> {
    "unclosed list"@
}

pub open spec fn msg_unexpected_close() -> Seq<char> {
    "unexpected ')'"@
}

pub open spec fn msg_unterminated() -> Seq<char> {
    "unterminated string"@
}

pub open spec fn msg_invalid_utf8() -> Seq<char> {
    "invalid UTF-8"@
}

/// A bare token: everything up to whitespace or a parenthesis.
pub open spec fn bare_at(b: Seq<u8>, pos: int) -> SResult {
    let end = bare_end(b, pos);
    match decode_run(b, pos, end) {
        Some(t) => Ok((SNode::Atom(t), end)),
        None => Err((msg_invalid_utf8(), pos)),
    }
}

/// The rest of a quoted string that opened at `start`. `out` holds what has
/// been decoded so far, and the bytes `run..pos` are still to be decoded.
///
/// A backslash keeps the byte after it, taken as the character of that code,
/// and is otherwise dropped.
pub open spec fn quoted_from(b: Seq<u8>, start: int, run: int, pos: int, out: Seq<char>) -> SResult
    decreases b.len() + 1 - pos,
{
    if pos < 0 || pos >= b.len() {
        Err((msg_unterminated(), start))
    } else if b[pos] == 0x5C {
        match decode_run(b, run, pos) {
            None => Err((msg_invalid_utf8(), run)),
            Some(t) => {
                let escaped: Seq<char> = if pos + 1 < b.len() {
                    seq![b[pos + 1] as char]
                } else {
                    seq![]
                };
                quoted_from(b, start, pos + 2, pos + 2, out + t + escaped)
            },
        }
    } else if b[pos] == 0x22 {
        match decode_run(b, run, pos) {
            None => Err((msg_invalid_utf8(), run)),
            Some(t) => Ok((SNode::Atom(out + t), pos + 1)),
        }
    } else {
        quoted_from(b, start, run, pos + 1, out)
    }
}

/// A quoted string whose opening quote is at `pos`.
pub open spec fn quoted_at(b: Seq<u8>, pos: int) -> SResult {
    quoted_from(b, pos, pos + 1, pos + 1, seq![])
}

pub proof fn lemma_skip_space(b: Seq<u8>, pos: int)
    requires
        0 <= pos,
    ensures
        pos <= skip_space(b, pos),
        pos <= b.len() ==> skip_space(b, pos) <= b.len(),
        skip_space(b, pos) < b.len() ==> !is_space(b[skip_space(b, pos)]),
        forall|i: int| pos <= i < skip_space(b, pos) ==> is_space(#[trigger] b[i]),
    decreases b.len() - pos,
{
    if 0 <= pos < b.len() && is_space(b[pos]) {
        lemma_skip_space(b, pos + 1);
    }
}

pub proof fn lemma_bare_end(b: Seq<u8>, pos: int)
    requires
        0 <= pos,
    ensures
        pos <= bare_end(b, pos),
        pos <= b.len() ==> bare_end(b, pos) <= b.len(),
        bare_end(b, pos) < b.len() ==> ends_bare(b[bare_end(b, pos)]),
        forall|i: int| pos <= i < bare_end(b, pos) ==> !ends_bare(#[trigger] b[i]),
    decreases b.len() - pos,
{
    if 0 <= pos < b.len() && !ends_bare(b[pos]) {
        lemma_bare_end(b, pos + 1);
    }
}

pub proof fn lemma_quoted_from(b: Seq<u8>, start: int, run: int, pos: int, out: Seq<char>)
    requires
        0 <= run <= pos,
    ensures
        quoted_from(b, start, run, pos, out) matches Ok((_, q)) ==> pos < q <= b.len(),
    decreases b.len() + 1 - pos,
{
    if pos < 0 || pos >= b.len() {
    } else if b[pos] == 0x5C {
        if pos + 2 <= b.len() + 1 {
            lemma_quoted_from(b, start, pos + 2, pos + 2, out + decode_utf8(b.subrange(run, pos)) + (if pos + 1 < b.len() {
                seq![b[pos + 1] as char]
            } else {
                seq![]
            }));
        }
    } else if b[pos] == 0x22 {
    } else {
        lemma_quoted_from(b, start, run, pos + 1, out);
    }
}


/// One node, after any leading whitespace.
pub open spec fn node_at(b: Seq<u8>, pos: int) -> SResult
    decreases b.len() - pos, 0int,
{
    if pos < 0 || pos > b.len() {
        Err((msg_end_of_input(), pos))
    } else {
        let p = skip_space(b, pos);
        proof {
            lemma_skip_space(b, pos);
        }
        if p >= b.len() {
            Err((msg_end_of_input(), p))
        } else if b[p] == 0x28 {
            list_from(b, p + 1, seq![])
        } else if b[p] == 0x29 {
            Err((msg_unexpected_close(), p))
        } else if b[p] == 0x22 {
            quoted_at(b, p)
        } else {
            bare_at(b, p)
        }
    }
}

/// The rest of a list whose `(` has been read, with `acc` read already.
pub open spec fn list_from(b: Seq<u8>, pos: int, acc: Seq<SNode>) -> SResult
    decreases b.len() - pos, 1int,
{
    if pos < 0 || pos > b.len() {
        Err((msg_unclosed_list(), pos))
    } else {
        let p = skip_space(b, pos);
        proof {
            lemma_skip_space(b, pos);
        }
        if p >= b.len() {
            Err((msg_unclosed_list(), p))
        } else if b[p] == 0x29 {
            Ok((SNode::List(acc), p + 1))
        } else {
            match node_at(b, p) {
                Err(e) => Err(e),
                Ok((n, q)) => if p < q <= b.len() {
                    list_from(b, q, acc.push(n))
                } else {
                    Err((msg_unclosed_list(), p))
                },
            }
        }
    }
}

/// A whole document: one node, after any leading whitespace. Whatever
/// follows that node is not read.
pub open spec fn document(b: Seq<u8>) -> Result<SNode, (Seq<char>, int)> {
    match node_at(b, 0) {
        Ok((n, _)) => Ok(n),
        Err(e) => Err(e),
    }
}

pub proof fn lemma_node_at(b: Seq<u8>, pos: int)
    requires
        0 <= pos <= b.len(),
    ensures
        node_at(b, pos) matches Ok((_, q)) ==> skip_space(b, pos) < q <= b.len(),
    decreases b.len() - pos, 0int,
{
    lemma_skip_space(b, pos);
    let p = skip_space(b, pos);
    if p < b.len() {
        if b[p] == 0x28 {
            lemma_list_from(b, p + 1, seq![]);
        } else if b[p] == 0x22 {
            lemma_quoted_from(b, p, p + 1, p + 1, seq![]);
        } else if b[p] != 0x29 {
            lemma_bare_end(b, p);
        }
    }
}

pub proof fn lemma_list_from(b: Seq<u8>, pos: int, acc: Seq<SNode>)
    requires
        0 <= pos <= b.len(),
    ensures
        list_from(b, pos, acc) matches Ok((_, q)) ==> pos < q <= b.len(),
    decreases b.len() - pos, 1int,
{
    lemma_skip_space(b, pos);
    let p = skip_space(b, pos);
    if p < b.len() && b[p] != 0x29 {
        lemma_node_at(b, p);
        if let Ok((n, q)) = node_at(b, p) {
            if p < q <= b.len() {
                lemma_list_from(b, q, acc.push(n));
            }
        }
    }
}


pub proof fn lemma_skip_space_idempotent(b: Seq<u8>, pos: int)
    requires
        0 <= pos,
    ensures
        skip_space(b, skip_space(b, pos)) == skip_space(b, pos),
        node_at(b, skip_space(b, pos)) == node_at(b, pos),
    decreases b.len() - pos,
{
    lemma_skip_space(b, pos);
    if 0 <= pos < b.len() && is_space(b[pos]) {
        lemma_skip_space_idempotent(b, pos + 1);
    }
}


// ---------------------------------------------------------------------------
// The selective grammar.

pub open spec fn msg_expected_document() -> Seq<char> {
    "expected a document"@
}

pub open spec fn msg_unclosed_document() -> Seq<char> {
    "unclosed document"@
}

/// Inside a footprint, only these children carry anything KiCase uses.
pub open spec fn footprint_keep() -> Seq<Seq<char>> {
    seq!["at"@, "uuid"@, "property"@, "pad"@, "attr"@, "layer"@, "model"@]
}

/// The text of an atom value.
pub open spec fn atom_text(n: SNode) -> Seq<char> {
    match n {
        SNode::Atom(t) => t,
        SNode::List(_) => Seq::empty(),
    }
}

/// `layers` with the layer named by one list value added, when the value is
/// `(layer "name" ...)` and the name is new.
pub open spec fn note_layer(n: SNode, layers: Seq<Seq<char>>) -> Seq<Seq<char>> {
    if head_of(n) == Some("layer"@) {
        match string_of(n, 0) {
            Some(name) => if layers.contains(name) {
                layers
            } else {
                layers.push(name)
            },
            None => layers,
        }
    } else {
        layers
    }
}

/// `layers` with every layer named in `nodes` added, in order.
pub open spec fn note_layers(nodes: Seq<SNode>, layers: Seq<Seq<char>>) -> Seq<Seq<char>>
    decreases nodes.len(),
{
    if nodes.len() == 0 {
        layers
    } else {
        note_layer(nodes.last(), note_layers(nodes.drop_last(), layers))
    }
}

/// `layers` with every layer named anywhere inside `n` added.
pub open spec fn collect_layers_of(n: SNode, layers: Seq<Seq<char>>) -> Seq<Seq<char>> {
    note_layers(lists_preorder(n), layers)
}

/// The bytes `(layer ` start at `pos`.
pub open spec fn layer_opens_at(b: Seq<u8>, pos: int) -> bool {
    0 <= pos && pos + 7 <= b.len() && b.subrange(pos, pos + 7) == seq![
        0x28u8,
        0x6Cu8,
        0x61u8,
        0x79u8,
        0x65u8,
        0x72u8,
        0x20u8,
    ]
}

/// What a skipped list at `pos` adds to `layers`: the name of a
/// `(layer "name"` opening there, when the name is new.
pub open spec fn skipped_layer(b: Seq<u8>, pos: int, layers: Seq<Seq<char>>) -> Seq<Seq<char>> {
    if layer_opens_at(b, pos) {
        let at = skip_space(b, pos + 7);
        if 0 <= at < b.len() && b[at] == 0x22 {
            match quoted_at(b, at) {
                Ok((SNode::Atom(name), _)) => if layers.contains(name) {
                    layers
                } else {
                    layers.push(name)
                },
                _ => layers,
            }
        } else {
            layers
        }
    } else {
        layers
    }
}

/// Walks past the list that opened at `start`, at nesting `depth`, noting
/// layer names, without building anything. Quoted strings are skipped whole.
/// Gives where the list ends and the layers noted.
pub open spec fn skip_from(b: Seq<u8>, start: int, pos: int, depth: int, layers: Seq<Seq<char>>)
    -> Result<(int, Seq<Seq<char>>), (Seq<char>, int)>
    decreases b.len() + 1 - pos,
{
    if pos < 0 || pos >= b.len() {
        Err((msg_unclosed_list(), start))
    } else if b[pos] == 0x22 {
        match quoted_at(b, pos) {
            Err(e) => Err(e),
            Ok((_, q)) => if pos < q <= b.len() {
                skip_from(b, start, q, depth, layers)
            } else {
                Err((msg_unclosed_list(), start))
            },
        }
    } else if b[pos] == 0x28 {
        skip_from(b, start, pos + 1, depth + 1, skipped_layer(b, pos, layers))
    } else if b[pos] == 0x29 {
        if depth - 1 == 0 {
            Ok((pos + 1, layers))
        } else {
            skip_from(b, start, pos + 1, depth - 1, layers)
        }
    } else {
        skip_from(b, start, pos + 1, depth, layers)
    }
}

/// The rest of a list whose `(` and head have been read, with `acc` read
/// already. With `keep`, a child list is read only when its head is in it
/// (and then in full); any other child list is skipped.
pub open spec fn rest_from(b: Seq<u8>, pos: int, acc: Seq<SNode>, keep: Option<Seq<Seq<char>>>)
    -> SResult
    decreases b.len() - pos,
{
    if pos < 0 || pos > b.len() {
        Err((msg_unclosed_list(), pos))
    } else {
        let p = skip_space(b, pos);
        proof {
            lemma_skip_space(b, pos);
        }
        if p >= b.len() {
            Err((msg_unclosed_list(), p))
        } else if b[p] == 0x29 {
            Ok((SNode::List(acc), p + 1))
        } else if b[p] == 0x28 && keep is Some {
            let q = skip_space(b, p + 1);
            match bare_at(b, q) {
                Err(e) => Err(e),
                Ok((h, r)) => {
                    let t = atom_text(h);
                    if keep->0.contains(t) {
                        if p < r <= b.len() {
                            match rest_from(b, r, seq![SNode::Atom(t)], None) {
                                Err(e) => Err(e),
                                Ok((n, s)) => if p < s <= b.len() {
                                    rest_from(b, s, acc.push(n), keep)
                                } else {
                                    Err((msg_unclosed_list(), p))
                                },
                            }
                        } else {
                            Err((msg_unclosed_list(), p))
                        }
                    } else {
                        match skip_from(b, p, p, 0, seq![]) {
                            Err(e) => Err(e),
                            Ok((s, _)) => if p < s <= b.len() {
                                rest_from(b, s, acc, keep)
                            } else {
                                Err((msg_unclosed_list(), p))
                            },
                        }
                    }
                },
            }
        } else {
            match node_at(b, p) {
                Err(e) => Err(e),
                Ok((n, q)) => if p < q <= b.len() {
                    rest_from(b, q, acc.push(n), keep)
                } else {
                    Err((msg_unclosed_list(), p))
                },
            }
        }
    }
}

/// The layer names noted while reading the rest of a list whose `(` and
/// head have been read, keeping only children headed by one of `keep`: the
/// names in the children that are skipped, added to `layers` in order. What
/// the kept children name is collected with the list once it is read.
pub open spec fn skipped_child_layers(
    b: Seq<u8>,
    pos: int,
    keep: Seq<Seq<char>>,
    layers: Seq<Seq<char>>,
) -> Seq<Seq<char>>
    decreases b.len() - pos,
{
    if pos < 0 || pos > b.len() {
        layers
    } else {
        let p = skip_space(b, pos);
        proof {
            lemma_skip_space(b, pos);
        }
        if p >= b.len() || b[p] == 0x29 {
            layers
        } else if b[p] == 0x28 {
            let q = skip_space(b, p + 1);
            match bare_at(b, q) {
                Err(_) => layers,
                Ok((h, r)) => {
                    let t = atom_text(h);
                    if keep.contains(t) {
                        if p < r <= b.len() {
                            match rest_from(b, r, seq![SNode::Atom(t)], None) {
                                Ok((_, s)) => if p < s <= b.len() {
                                    skipped_child_layers(b, s, keep, layers)
                                } else {
                                    layers
                                },
                                Err(_) => layers,
                            }
                        } else {
                            layers
                        }
                    } else {
                        match skip_from(b, p, p, 0, layers) {
                            Ok((s, noted)) => if p < s <= b.len() {
                                skipped_child_layers(b, s, keep, noted)
                            } else {
                                layers
                            },
                            Err(_) => layers,
                        }
                    }
                },
            }
        } else {
            match node_at(b, p) {
                Ok((_, q)) => if p < q <= b.len() {
                    skipped_child_layers(b, q, keep, layers)
                } else {
                    layers
                },
                Err(_) => layers,
            }
        }
    }
}

/// The layer names noted while reading the rest of a list with an optional
/// list of children to keep: with none, the children are all read and
/// nothing is noted along the way.
pub open spec fn child_layers(
    b: Seq<u8>,
    pos: int,
    keep: Option<Seq<Seq<char>>>,
    layers: Seq<Seq<char>>,
) -> Seq<Seq<char>> {
    match keep {
        Some(k) => skipped_child_layers(b, pos, k, layers),
        None => layers,
    }
}

/// The document's remaining top-level items from `pos`, with `items` and
/// `layers` gathered already. A top-level list is read when its head is in
/// `keep` (a `footprint` with [`footprint_keep`] for its own children) and
/// skipped otherwise; a top-level value that is not a list is read as is.
pub open spec fn select_from(
    b: Seq<u8>,
    keep: Seq<Seq<char>>,
    pos: int,
    items: Seq<SNode>,
    layers: Seq<Seq<char>>,
) -> Result<(Seq<SNode>, Seq<Seq<char>>), (Seq<char>, int)>
    decreases b.len() - pos,
{
    if pos < 0 || pos > b.len() {
        Err((msg_unclosed_document(), pos))
    } else {
        let p = skip_space(b, pos);
        proof {
            lemma_skip_space(b, pos);
        }
        if p >= b.len() {
            Err((msg_unclosed_document(), p))
        } else if b[p] == 0x29 {
            Ok((items, layers))
        } else if b[p] == 0x28 {
            let q = skip_space(b, p + 1);
            match bare_at(b, q) {
                Err(e) => Err(e),
                Ok((h, r)) => {
                    let t = atom_text(h);
                    if keep.contains(t) {
                        let child_keep = if t == "footprint"@ {
                            Some(footprint_keep())
                        } else {
                            None
                        };
                        match rest_from(b, r, seq![SNode::Atom(t)], child_keep) {
                            Err(e) => Err(e),
                            Ok((n, s)) => if p < s <= b.len() {
                                select_from(
                                    b,
                                    keep,
                                    s,
                                    items.push(n),
                                    collect_layers_of(n, child_layers(b, r, child_keep, layers)),
                                )
                            } else {
                                Err((msg_unclosed_document(), p))
                            },
                        }
                    } else {
                        match skip_from(b, p, p, 0, layers) {
                            Err(e) => Err(e),
                            Ok((s, noted)) => if p < s <= b.len() {
                                select_from(b, keep, s, items, noted)
                            } else {
                                Err((msg_unclosed_document(), p))
                            },
                        }
                    }
                },
            }
        } else {
            match node_at(b, p) {
                Err(e) => Err(e),
                Ok((n, q)) => if p < q <= b.len() {
                    select_from(b, keep, q, items.push(n), layers)
                } else {
                    Err((msg_unclosed_document(), p))
                },
            }
        }
    }
}

/// A selective read of a document: its root head as the first item, then
/// its top-level items as [`select_from`] reads them, and every layer name
/// seen on the way.
pub open spec fn selection(b: Seq<u8>, keep: Seq<Seq<char>>) -> Result<
    (Seq<SNode>, Seq<Seq<char>>),
    (Seq<char>, int),
> {
    let p = skip_space(b, 0);
    if p >= b.len() || b[p] != 0x28 {
        Err((msg_expected_document(), p))
    } else {
        match bare_at(b, p + 1) {
            Err(e) => Err(e),
            Ok((h, q)) => select_from(b, keep, q, seq![SNode::Atom(atom_text(h))], seq![]),
        }
    }
}


pub proof fn lemma_skip_from(b: Seq<u8>, start: int, pos: int, depth: int, layers: Seq<Seq<char>>)
    requires
        0 <= pos,
    ensures
        skip_from(b, start, pos, depth, layers) matches Ok((s, _)) ==> pos < s <= b.len(),
    decreases b.len() + 1 - pos,
{
    if pos < 0 || pos >= b.len() {
    } else if b[pos] == 0x22 {
        if let Ok((_, q)) = quoted_at(b, pos) {
            if pos < q <= b.len() {
                lemma_skip_from(b, start, q, depth, layers);
            }
        }
    } else if b[pos] == 0x28 {
        lemma_skip_from(b, start, pos + 1, depth + 1, skipped_layer(b, pos, layers));
    } else if b[pos] == 0x29 {
        if depth - 1 != 0 {
            lemma_skip_from(b, start, pos + 1, depth - 1, layers);
        }
    } else {
        lemma_skip_from(b, start, pos + 1, depth, layers);
    }
}

pub proof fn lemma_rest_from(b: Seq<u8>, pos: int, acc: Seq<SNode>, keep: Option<Seq<Seq<char>>>)
    requires
        0 <= pos <= b.len(),
    ensures
        rest_from(b, pos, acc, keep) matches Ok((_, s)) ==> pos < s <= b.len(),
    decreases b.len() - pos,
{
    lemma_skip_space(b, pos);
    let p = skip_space(b, pos);
    if p >= b.len() {
    } else if b[p] == 0x29 {
    } else if b[p] == 0x28 && keep is Some {
        let q = skip_space(b, p + 1);
        if let Ok((h, r)) = bare_at(b, q) {
            let t = atom_text(h);
            if keep->0.contains(t) {
                if p < r <= b.len() {
                    lemma_rest_from(b, r, seq![SNode::Atom(t)], None);
                    if let Ok((n, s)) = rest_from(b, r, seq![SNode::Atom(t)], None) {
                        if p < s <= b.len() {
                            lemma_rest_from(b, s, acc.push(n), keep);
                        }
                    }
                }
            } else {
                if let Ok((s, _)) = skip_from(b, p, p, 0, seq![]) {
                    if p < s <= b.len() {
                        lemma_rest_from(b, s, acc, keep);
                    }
                }
            }
        }
    } else {
        if let Ok((n, q)) = node_at(b, p) {
            if p < q <= b.len() {
                lemma_rest_from(b, q, acc.push(n), keep);
            }
        }
    }
}

/// The characters of each string in an optional list.
pub open spec fn keep_view(keep: Option<&[&str]>) -> Option<Seq<Seq<char>>> {
    match keep {
        Some(list) => Some(str_views(list@)),
        None => None,
    }
}


// ---------------------------------------------------------------------------
// What a selective read guarantees.

/// A top-level item of a selection other than the root head: a value that
/// is not a list, or a list whose head is one of `keep`.
pub open spec fn selected_item(n: SNode, keep: Seq<Seq<char>>) -> bool {
    match n {
        SNode::Atom(_) => true,
        SNode::List(_) => head_of(n) matches Some(h) && keep.contains(h),
    }
}

pub proof fn lemma_quoted_atom(b: Seq<u8>, start: int, run: int, pos: int, out: Seq<char>)
    ensures
        quoted_from(b, start, run, pos, out) matches Ok((n, _)) ==> n is Atom,
    decreases b.len() + 1 - pos,
{
    if pos < 0 || pos >= b.len() {
    } else if b[pos] == 0x5C {
        if let Some(t) = decode_run(b, run, pos) {
            let escaped: Seq<char> = if pos + 1 < b.len() {
                seq![b[pos + 1] as char]
            } else {
                seq![]
            };
            lemma_quoted_atom(b, start, pos + 2, pos + 2, out + t + escaped);
        }
    } else if b[pos] == 0x22 {
    } else {
        lemma_quoted_atom(b, start, run, pos + 1, out);
    }
}

pub proof fn lemma_note_layers_distinct(nodes: Seq<SNode>, layers: Seq<Seq<char>>)
    requires
        layers.no_duplicates(),
    ensures
        note_layers(nodes, layers).no_duplicates(),
    decreases nodes.len(),
{
    if nodes.len() > 0 {
        lemma_note_layers_distinct(nodes.drop_last(), layers);
    }
}

pub proof fn lemma_skip_from_distinct(
    b: Seq<u8>,
    start: int,
    pos: int,
    depth: int,
    layers: Seq<Seq<char>>,
)
    requires
        layers.no_duplicates(),
    ensures
        skip_from(b, start, pos, depth, layers) matches Ok((_, l)) ==> l.no_duplicates(),
    decreases b.len() + 1 - pos,
{
    if pos < 0 || pos >= b.len() {
    } else if b[pos] == 0x22 {
        if let Ok((_, q)) = quoted_at(b, pos) {
            if pos < q <= b.len() {
                lemma_skip_from_distinct(b, start, q, depth, layers);
            }
        }
    } else if b[pos] == 0x28 {
        lemma_skip_from_distinct(b, start, pos + 1, depth + 1, skipped_layer(b, pos, layers));
    } else if b[pos] == 0x29 {
        if depth - 1 != 0 {
            lemma_skip_from_distinct(b, start, pos + 1, depth - 1, layers);
        }
    } else {
        lemma_skip_from_distinct(b, start, pos + 1, depth, layers);
    }
}

/// A list read by [`rest_from`] starts with what was read before it.
pub proof fn lemma_rest_from_prefix(
    b: Seq<u8>,
    pos: int,
    acc: Seq<SNode>,
    keep: Option<Seq<Seq<char>>>,
)
    ensures
        rest_from(b, pos, acc, keep) matches Ok((n, _)) ==> (n matches SNode::List(x) && x.len()
            >= acc.len() && x.take(acc.len() as int) == acc),
    decreases b.len() - pos,
{
    if pos < 0 || pos > b.len() {
    } else {
        lemma_skip_space(b, pos);
        let p = skip_space(b, pos);
        if p >= b.len() {
        } else if b[p] == 0x29 {
            assert(acc.take(acc.len() as int) =~= acc);
        } else if b[p] == 0x28 && keep is Some {
            let q = skip_space(b, p + 1);
            if let Ok((h, r)) = bare_at(b, q) {
                let t = atom_text(h);
                if keep->0.contains(t) {
                    if p < r <= b.len() {
                        if let Ok((n, s)) = rest_from(b, r, seq![SNode::Atom(t)], None) {
                            if p < s <= b.len() {
                                lemma_rest_from_prefix(b, s, acc.push(n), keep);
                                if let Ok((m, _)) = rest_from(b, s, acc.push(n), keep) {
                                    if let SNode::List(x) = m {
                                        assert(x.take(acc.len() as int) =~= x.take(
                                            acc.len() + 1 as int,
                                        ).take(acc.len() as int));
                                        assert(acc.push(n).take(acc.len() as int) =~= acc);
                                    }
                                }
                            }
                        }
                    }
                } else {
                    if let Ok((s, _)) = skip_from(b, p, p, 0, seq![]) {
                        if p < s <= b.len() {
                            lemma_rest_from_prefix(b, s, acc, keep);
                        }
                    }
                }
            }
        } else {
            if let Ok((n, q)) = node_at(b, p) {
                if p < q <= b.len() {
                    lemma_rest_from_prefix(b, q, acc.push(n), keep);
                    if let Ok((m, _)) = rest_from(b, q, acc.push(n), keep) {
                        if let SNode::List(x) = m {
                            assert(x.take(acc.len() as int) =~= x.take(acc.len() + 1 as int).take(
                                acc.len() as int,
                            ));
                            assert(acc.push(n).take(acc.len() as int) =~= acc);
                        }
                    }
                }
            }
        }
    }
}

pub proof fn lemma_skipped_child_layers_distinct(
    b: Seq<u8>,
    pos: int,
    keep: Seq<Seq<char>>,
    layers: Seq<Seq<char>>,
)
    requires
        layers.no_duplicates(),
    ensures
        skipped_child_layers(b, pos, keep, layers).no_duplicates(),
    decreases b.len() - pos,
{
    if 0 <= pos <= b.len() {
        lemma_skip_space(b, pos);
        let p = skip_space(b, pos);
        if p < b.len() && b[p] != 0x29 {
            if b[p] == 0x28 {
                let q = skip_space(b, p + 1);
                if let Ok((h, r)) = bare_at(b, q) {
                    let t = atom_text(h);
                    if keep.contains(t) {
                        if p < r <= b.len() {
                            if let Ok((_, s)) = rest_from(b, r, seq![SNode::Atom(t)], None) {
                                if p < s <= b.len() {
                                    lemma_skipped_child_layers_distinct(b, s, keep, layers);
                                }
                            }
                        }
                    } else {
                        lemma_skip_from_distinct(b, p, p, 0, layers);
                        if let Ok((s, noted)) = skip_from(b, p, p, 0, layers) {
                            if p < s <= b.len() {
                                lemma_skipped_child_layers_distinct(b, s, keep, noted);
                            }
                        }
                    }
                }
            } else {
                if let Ok((_, q)) = node_at(b, p) {
                    if p < q <= b.len() {
                        lemma_skipped_child_layers_distinct(b, q, keep, layers);
                    }
                }
            }
        }
    }
}

pub proof fn lemma_select_from(
    b: Seq<u8>,
    keep: Seq<Seq<char>>,
    pos: int,
    items: Seq<SNode>,
    layers: Seq<Seq<char>>,
)
    requires
        layers.no_duplicates(),
        items.len() >= 1,
        forall|i: int| 1 <= i < items.len() ==> selected_item(#[trigger] items[i], keep),
    ensures
        select_from(b, keep, pos, items, layers) matches Ok((all, noted)) ==> {
            &&& noted.no_duplicates()
            &&& all.len() >= 1
            &&& all[0] == items[0]
            &&& forall|i: int| 1 <= i < all.len() ==> selected_item(#[trigger] all[i], keep)
        },
    decreases b.len() - pos,
{
    if pos < 0 || pos > b.len() {
    } else {
        lemma_skip_space(b, pos);
        let p = skip_space(b, pos);
        if p >= b.len() {
        } else if b[p] == 0x29 {
        } else if b[p] == 0x28 {
            let q = skip_space(b, p + 1);
            if let Ok((h, r)) = bare_at(b, q) {
                let t = atom_text(h);
                if keep.contains(t) {
                    let child_keep = if t == "footprint"@ {
                        Some(footprint_keep())
                    } else {
                        None
                    };
                    lemma_rest_from_prefix(b, r, seq![SNode::Atom(t)], child_keep);
                    if let Ok((n, s)) = rest_from(b, r, seq![SNode::Atom(t)], child_keep) {
                        if p < s <= b.len() {
                            if let SNode::List(x) = n {
                                assert(x.take(1)[0] == x[0]);
                            }
                            assert(selected_item(n, keep));
                            let noted = child_layers(b, r, child_keep, layers);
                            if t == "footprint"@ {
                                lemma_skipped_child_layers_distinct(b, r, footprint_keep(), layers);
                            }
                            lemma_note_layers_distinct(lists_preorder(n), noted);
                            let more = items.push(n);
                            assert forall|i: int| 1 <= i < more.len() implies selected_item(
                                #[trigger] more[i],
                                keep,
                            ) by {
                                if i < items.len() {
                                    assert(more[i] == items[i]);
                                }
                            }
                            lemma_select_from(b, keep, s, more, collect_layers_of(n, noted));
                        }
                    }
                } else {
                    lemma_skip_from_distinct(b, p, p, 0, layers);
                    if let Ok((s, noted)) = skip_from(b, p, p, 0, layers) {
                        if p < s <= b.len() {
                            lemma_select_from(b, keep, s, items, noted);
                        }
                    }
                }
            }
        } else {
            if let Ok((n, q)) = node_at(b, p) {
                if p < q <= b.len() {
                    assert(n is Atom) by {
                        assert(skip_space(b, p) == p);
                        if b[p] == 0x22 {
                            lemma_quoted_atom(b, p, p + 1, p + 1, seq![]);
                        }
                    }
                    let more = items.push(n);
                    assert forall|i: int| 1 <= i < more.len() implies selected_item(
                        #[trigger] more[i],
                        keep,
                    ) by {
                        if i < items.len() {
                            assert(more[i] == items[i]);
                        }
                    }
                    lemma_select_from(b, keep, q, more, layers);
                }
            }
        }
    }
}

/// Without a list of children to keep, the selective reader reads the rest
/// of a list exactly as the full reader does.
pub proof fn lemma_rest_from_in_full(b: Seq<u8>, pos: int, acc: Seq<SNode>)
    ensures
        rest_from(b, pos, acc, None) == list_from(b, pos, acc),
    decreases b.len() - pos,
{
    if 0 <= pos <= b.len() {
        lemma_skip_space(b, pos);
        let p = skip_space(b, pos);
        if p < b.len() && b[p] != 0x29 {
            if let Ok((n, q)) = node_at(b, p) {
                if p < q <= b.len() {
                    lemma_rest_from_in_full(b, q, acc.push(n));
                }
            }
        }
    }
}

/// A top-level list the selective reader keeps, other than a footprint, is
/// the very value the full reader reads for it, as long as its head is a
/// bare token: both read from the opening `(` at `p` to the same end.
pub proof fn lemma_kept_item_read_in_full(b: Seq<u8>, p: int)
    requires
        0 <= p < b.len(),
        b[p] == 0x28,
        skip_space(b, p + 1) < b.len(),
        b[skip_space(b, p + 1)] != 0x28,
        b[skip_space(b, p + 1)] != 0x29,
        b[skip_space(b, p + 1)] != 0x22,
    ensures
        bare_at(b, skip_space(b, p + 1)) matches Ok((h, r)) ==> rest_from(
            b,
            r,
            seq![SNode::Atom(atom_text(h))],
            None,
        ) == node_at(b, p),
{
    let q = skip_space(b, p + 1);
    lemma_skip_space(b, p);
    lemma_skip_space(b, p + 1);
    lemma_skip_space_idempotent(b, p + 1);
    if let Ok((h, r)) = bare_at(b, q) {
        lemma_bare_end(b, q);
        assert(skip_space(b, p) == p);
        assert(skip_space(b, q) == q);
        assert(node_at(b, q) == bare_at(b, q));
        assert(h == SNode::Atom(atom_text(h)));
        lemma_rest_from_in_full(b, r, seq![SNode::Atom(atom_text(h))]);
        assert(list_from(b, p + 1, seq![]) == list_from(b, r, seq![h]));
    }
}

/// What any successful selective read holds: the first item is the root
/// head, every other item is a value that is not a list or a list headed by
/// one of `keep`, and no layer name is noted twice.
pub proof fn lemma_selection(b: Seq<u8>, keep: Seq<Seq<char>>)
    ensures
        selection(b, keep) matches Ok((items, layers)) ==> {
            &&& layers.no_duplicates()
            &&& items.len() >= 1
            &&& items[0] is Atom
            &&& forall|i: int| 1 <= i < items.len() ==> selected_item(#[trigger] items[i], keep)
        },
{
    let p = skip_space(b, 0);
    if p >= b.len() || b[p] != 0x28 {
    } else {
        if let Ok((h, q)) = bare_at(b, p + 1) {
            let first = seq![SNode::Atom(atom_text(h))];
            assert(Seq::<Seq<char>>::empty().no_duplicates());
            lemma_select_from(b, keep, q, first, seq![]);
        }
    }
}

// ---------------------------------------------------------------------------
// The reader.

fn is_ascii_whitespace(b: u8) -> (r: bool)
    ensures
        r == is_space(b),
{
    b == 0x20 || b == 0x09 || b == 0x0A || b == 0x0C || b == 0x0D
}

fn skip_whitespace(bytes: &[u8], pos: &mut usize)
    ensures
        *final(pos) == skip_space(bytes@, *old(pos) as int),
{
    proof {
        lemma_skip_space(bytes@, *pos as int);
    }
    let ghost start = *pos as int;
    while *pos < bytes.len() && is_ascii_whitespace(bytes[*pos])
        invariant
            start <= *pos,
            skip_space(bytes@, start) == skip_space(bytes@, *pos as int),
        decreases bytes.len() - *pos,
    {
        *pos = *pos + 1;
    }
}

/// Validates one run of string bytes, and only that run.
fn run_as_str(bytes: &[u8], from: usize, to: usize) -> (r: Result<&str, ParseError>)
    requires
        from <= to <= bytes@.len(),
    ensures
        match decode_run(bytes@, from as int, to as int) {
            Some(t) => r matches Ok(s) && s@ == t,
            None => r matches Err(e) && error_is(e, (msg_invalid_utf8(), from as int)),
        },
{
    let run = &bytes[from..to];
    match utf8_str(run) {
        Some(s) => {
            proof {
                lemma_str_from_bytes(s, run@);
            }
            Ok(s)
        },
        None => Err(ParseError { message: "invalid UTF-8".to_owned(), offset: from }),
    }
}

fn parse_bare(bytes: &[u8], pos: &mut usize) -> (r: Result<Node, ParseError>)
    requires
        *old(pos) <= bytes@.len(),
    ensures
        node_result(r, bare_at(bytes@, *old(pos) as int), *final(pos) as int),
{
    let start = *pos;
    proof {
        lemma_bare_end(bytes@, start as int);
    }
    while *pos < bytes.len() && !(is_ascii_whitespace(bytes[*pos]) || bytes[*pos] == 0x28 || bytes[*pos] == 0x29)
        invariant
            start <= *pos <= bytes@.len(),
            bare_end(bytes@, start as int) == bare_end(bytes@, *pos as int),
        decreases bytes.len() - *pos,
    {
        *pos = *pos + 1;
    }
    let text = run_as_str(bytes, start, *pos)?;
    Ok(Node::Atom(text.to_owned()))
}

fn parse_quoted(bytes: &[u8], pos: &mut usize) -> (r: Result<Node, ParseError>)
    requires
        *old(pos) < bytes@.len(),
        bytes@.len() < usize::MAX,
    ensures
        node_result(r, quoted_at(bytes@, *old(pos) as int), *final(pos) as int),
{
    let start = *pos;
    *pos = *pos + 1;
    let mut out = String::new();
    let mut run = *pos;
    loop
        invariant
            run <= *pos,
            start == *old(pos),
            bytes@.len() < usize::MAX,
            *pos <= bytes@.len() + 1,
            start < bytes@.len(),
            quoted_at(bytes@, start as int) == quoted_from(bytes@, start as int, run as int, *pos as int, out@),
        decreases bytes@.len() + 1 - *pos,
    {
        if *pos >= bytes.len() {
            return Err(ParseError { message: "unterminated string".to_owned(), offset: start });
        }
        let byte = bytes[*pos];
        if byte == 0x5C {
            let ghost before = out@;
            let piece = run_as_str(bytes, run, *pos)?;
            out.append(piece);
            let ghost escaped_chars: Seq<char> = if *pos + 1 < bytes@.len() {
                seq![bytes@[*pos + 1] as char]
            } else {
                seq![]
            };
            if *pos + 1 < bytes.len() {
                let escaped = bytes[*pos + 1];
                push_char(&mut out, escaped as char);
            }
            assert(out@ =~= before + piece@ + escaped_chars);
            *pos = *pos + 2;
            run = *pos;
        } else if byte == 0x22 {
            let piece = run_as_str(bytes, run, *pos)?;
            out.append(piece);
            *pos = *pos + 1;
            return Ok(Node::Atom(out));
        } else {
            *pos = *pos + 1;
        }
    }
}

fn parse_node(bytes: &[u8], pos: &mut usize) -> (r: Result<Node, ParseError>)
    requires
        *old(pos) <= bytes@.len(),
        bytes@.len() < usize::MAX,
    ensures
        node_result(r, node_at(bytes@, *old(pos) as int), *final(pos) as int),
    decreases bytes@.len() - *old(pos), 0int,
{
    skip_whitespace(bytes, pos);
    proof {
        lemma_skip_space(bytes@, *old(pos) as int);
    }
    if *pos >= bytes.len() {
        return Err(ParseError { message: "unexpected end of input".to_owned(), offset: *pos });
    }
    let byte = bytes[*pos];
    if byte == 0x28 {
        *pos = *pos + 1;
        parse_items(bytes, pos)
    } else if byte == 0x29 {
        Err(ParseError { message: "unexpected ')'".to_owned(), offset: *pos })
    } else if byte == 0x22 {
        parse_quoted(bytes, pos)
    } else {
        parse_bare(bytes, pos)
    }
}

/// The items of a list whose `(` has been read, up to and including its `)`.
fn parse_items(bytes: &[u8], pos: &mut usize) -> (r: Result<Node, ParseError>)
    requires
        *old(pos) <= bytes@.len(),
        bytes@.len() < usize::MAX,
    ensures
        node_result(r, list_from(bytes@, *old(pos) as int, seq![]), *final(pos) as int),
    decreases bytes@.len() - *old(pos), 1int,
{
    let ghost start = *pos as int;
    let mut items: Vec<Node> = Vec::new();
    assert(deep_seq(items@) =~= seq![]);
    loop
        invariant
            start == *old(pos) as int,
            start <= *pos <= bytes@.len(),
            bytes@.len() < usize::MAX,
            list_from(bytes@, start, seq![]) == list_from(bytes@, *pos as int, deep_seq(items@)),
        decreases bytes@.len() - *pos,
    {
        proof {
            lemma_skip_space(bytes@, *pos as int);
        }
        skip_whitespace(bytes, pos);
        if *pos >= bytes.len() {
            return Err(ParseError { message: "unclosed list".to_owned(), offset: *pos });
        }
        if bytes[*pos] == 0x29 {
            *pos = *pos + 1;
            proof {
                lemma_list_deep(items);
            }
            return Ok(Node::List(items));
        }
        let ghost p = *pos as int;
        proof {
            lemma_node_at(bytes@, p);
        }
        let node = parse_node(bytes, pos)?;
        let ghost before = items@;
        items.push(node);
        assert(deep_seq(items@) =~= deep_seq(before).push(node.deep()));
    }
}

/// Parses a complete s-expression document.
///
/// Only the first node is read; whatever follows it is ignored.
pub fn parse(text: &str) -> (r: Result<Node, ParseError>)
    requires
        text.spec_bytes().len() < usize::MAX,
    ensures
        match document(text.spec_bytes()) {
            Ok(n) => r matches Ok(node) && node.deep() == n,
            Err(e) => r matches Err(err) && error_is(err, e),
        },
{
    let bytes = text.as_bytes();
    let mut pos = 0usize;
    skip_whitespace(bytes, &mut pos);
    proof {
        lemma_skip_space(bytes@, 0);
        lemma_skip_space_idempotent(bytes@, 0);
    }
    let node = parse_node(bytes, &mut pos)?;
    skip_whitespace(bytes, &mut pos);
    Ok(node)
}

impl Node {
    pub fn as_atom(&self) -> (r: Option<&str>)
        ensures
            match self.deep() {
                SNode::Atom(t) => r matches Some(s) && s@ == t,
                SNode::List(_) => r is None,
            },
    {
        match self {
            Node::Atom(text) => Some(text.as_str()),
            Node::List(_) => None,
        }
    }

    pub fn as_list(&self) -> (r: Option<&[Node]>)
        ensures
            match self {
                Node::List(items) => r matches Some(s) && s@ == items@,
                Node::Atom(_) => r is None,
            },
    {
        match self {
            Node::List(items) => Some(items.as_slice()),
            Node::Atom(_) => None,
        }
    }

    /// The head symbol of a list, e.g. `gr_line` for `(gr_line ...)`.
    pub fn head(&self) -> (r: Option<&str>)
        ensures
            match head_of(self.deep()) {
                Some(t) => r matches Some(s) && s@ == t,
                None => r is None,
            },
    {
        match self {
            Node::List(items) => {
                proof {
                    lemma_list_deep(*items);
                }
                if items.len() == 0 {
                    None
                } else {
                    items[0].as_atom()
                }
            },
            Node::Atom(_) => None,
        }
    }

    /// Direct children that are lists headed by `name`, in order.
    pub fn children(&self, name: &str) -> (r: Vec<&Node>)
        ensures
            deep_refs(r@) == children_of(self.deep(), name@),
    {
        let mut found: Vec<&Node> = Vec::new();
        match self {
            Node::List(items) => {
                proof {
                    lemma_list_deep(*items);
                }
                let ghost all = deep_seq(items@);
                let ghost pred = |c: SNode| head_of(c) == Some(name@);
                let mut i: usize = 0;
                assert(deep_refs(found@) =~= all.take(0).filter(pred)) by {
                    reveal_with_fuel(Seq::<_>::filter, 1);
                }
                while i < items.len()
                    invariant
                        i <= items@.len(),
                        all == deep_seq(items@),
                        pred == (|c: SNode| head_of(c) == Some(name@)),
                        deep_refs(found@) =~= all.take(i as int).filter(pred),
                    decreases items.len() - i,
                {
                    reveal_with_fuel(Seq::<_>::filter, 1);
                    assert(all.take(i + 1).drop_last() =~= all.take(i as int));
                    let ghost before = found@;
                    let item = &items[i];
                    let matched = match item.head() {
                        Some(h) => str_eq(h, name),
                        None => false,
                    };
                    if matched {
                        found.push(item);
                        assert(deep_refs(found@) =~= deep_refs(before).push(item.deep()));
                    }
                    i = i + 1;
                }
                assert(all.take(items@.len() as int) =~= all);
            },
            Node::Atom(_) => {
                assert(deep_refs(found@) =~= Seq::empty());
            },
        }
        found
    }

    /// The first direct child list headed by `name`.
    pub fn child(&self, name: &str) -> (r: Option<&Node>)
        ensures
            children_of(self.deep(), name@).len() > 0 ==> (r matches Some(c) && c.deep()
                == children_of(self.deep(), name@)[0]),
            children_of(self.deep(), name@).len() == 0 ==> r is None,
    {
        let found = self.children(name);
        if found.len() == 0 {
            None
        } else {
            assert(deep_refs(found@)[0] == found@[0].deep());
            Some(found[0])
        }
    }

    /// Arguments of a list, i.e. everything after the head symbol.
    pub fn args(&self) -> (r: &[Node])
        ensures
            deep_seq(r@) == args_of(self.deep()),
    {
        match self {
            Node::List(items) => {
                proof {
                    lemma_list_deep(*items);
                }
                if items.len() > 0 {
                    let rest = &items.as_slice()[1..items.len()];
                    assert(deep_seq(rest@) =~= deep_seq(items@).subrange(1, items@.len() as int));
                    rest
                } else {
                    let none: &[Node] = &[];
                    assert(deep_seq(none@) =~= Seq::empty());
                    none
                }
            },
            Node::Atom(_) => {
                let none: &[Node] = &[];
                assert(deep_seq(none@) =~= Seq::empty());
                none
            },
        }
    }

    /// `index`-th argument as a string.
    pub fn string(&self, index: usize) -> (r: Option<&str>)
        ensures
            match string_of(self.deep(), index as int) {
                Some(t) => r matches Some(s) && s@ == t,
                None => r is None,
            },
    {
        let args = self.args();
        if index < args.len() {
            assert(deep_seq(args@)[index as int] == args@[index as int].deep());
            args[index].as_atom()
        } else {
            None
        }
    }

    /// Value of a single-argument child, e.g. `(layer "Edge.Cuts")`.
    pub fn child_string(&self, name: &str) -> (r: Option<&str>)
        ensures
            match child_string_of(self.deep(), name@) {
                Some(t) => r matches Some(s) && s@ == t,
                None => r is None,
            },
    {
        match self.child(name) {
            Some(c) => c.string(0),
            None => None,
        }
    }

    /// Every list node, depth first, each before its own children.
    pub fn walk(&self) -> (r: Vec<&Node>)
        ensures
            deep_refs(r@) == lists_preorder(self.deep()),
        decreases self,
    {
        let mut out: Vec<&Node> = Vec::new();
        match self {
            Node::List(items) => {
                proof {
                    lemma_list_deep(*items);
                }
                let ghost all = deep_seq(items@);
                out.push(self);
                let mut i: usize = 0;
                assert(all.take(0) =~= Seq::<SNode>::empty());
                assert(deep_refs(out@) =~= seq![self.deep()] + lists_preorder_seq(all.take(0)));
                while i < items.len()
                    invariant
                        i <= items@.len(),
                        all == deep_seq(items@),
                        deep_refs(out@) =~= seq![self.deep()] + lists_preorder_seq(all.take(i as int)),
                        self is List,
                        self->List_0 == *items,
                    decreases items.len() - i,
                {
                    let ghost before = out@;
                    proof {
                        assert(decreases_to!(self => self->List_0));
                        assert(decreases_to!(self->List_0 => self->List_0@));
                        assert(decreases_to!(self->List_0@ => self->List_0@[i as int]));
                        assert(decreases_to!(self => items@[i as int]));
                    }
                    let mut sub = items[i].walk();
                    let ghost sub_view = sub@;
                    out.append(&mut sub);
                    assert(all.take(i + 1).drop_last() =~= all.take(i as int));
                    assert(all.take(i + 1).last() == items@[i as int].deep());
                    assert(deep_refs(out@) =~= deep_refs(before) + deep_refs(sub_view));
                    i = i + 1;
                }
                assert(all.take(items@.len() as int) =~= all);
            },
            Node::Atom(_) => {
                assert(deep_refs(out@) =~= Seq::empty());
            },
        }
        out
    }
}

/// What a selective parse found.
pub struct Selection {
    /// The top-level items worth keeping, in file order.
    pub items: Vec<Node>,
    /// Every layer name referenced anywhere in the document, including inside
    /// the parts that were skipped.
    pub layers_seen: Vec<String>,
}

fn layer_opens(bytes: &[u8], pos: usize) -> (r: bool)
    ensures
        r == layer_opens_at(bytes@, pos as int),
{
    if pos > bytes.len() || bytes.len() - pos < 7 {
        return false;
    }
    let found = bytes[pos] == 0x28 && bytes[pos + 1] == 0x6C && bytes[pos + 2] == 0x61 && bytes[pos
        + 3] == 0x79 && bytes[pos + 4] == 0x65 && bytes[pos + 5] == 0x72 && bytes[pos + 6] == 0x20;
    let ghost opening = seq![0x28u8, 0x6Cu8, 0x61u8, 0x79u8, 0x65u8, 0x72u8, 0x20u8];
    if found {
        assert(bytes@.subrange(pos as int, pos + 7) =~= opening);
    } else {
        assert(bytes@.subrange(pos as int, pos + 7) != opening) by {
            if bytes@.subrange(pos as int, pos + 7) == opening {
                assert(bytes@.subrange(pos as int, pos + 7)[0] == opening[0]);
                assert(bytes@.subrange(pos as int, pos + 7)[1] == opening[1]);
                assert(bytes@.subrange(pos as int, pos + 7)[2] == opening[2]);
                assert(bytes@.subrange(pos as int, pos + 7)[3] == opening[3]);
                assert(bytes@.subrange(pos as int, pos + 7)[4] == opening[4]);
                assert(bytes@.subrange(pos as int, pos + 7)[5] == opening[5]);
                assert(bytes@.subrange(pos as int, pos + 7)[6] == opening[6]);
            }
        }
    }
    found
}

/// Adds `name` to `layers` unless it is there already.
fn note_name(layers: &mut Vec<String>, name: &str)
    ensures
        string_views(final(layers)@) == if string_views(old(layers)@).contains(name@) {
            string_views(old(layers)@)
        } else {
            string_views(old(layers)@).push(name@)
        },
{
    if !contains_string(layers, name) {
        let ghost before = layers@;
        layers.push(name.to_owned());
        assert(string_views(layers@) =~= string_views(before).push(name@));
    }
}

/// Walks past a whole list without building anything, noting layer names.
fn skip_list(bytes: &[u8], pos: &mut usize, layers_seen: &mut Vec<String>) -> (r: Result<(), ParseError>)
    requires
        *old(pos) < bytes@.len(),
        bytes@[*old(pos) as int] == 0x28,
        bytes@.len() < usize::MAX,
    ensures
        match skip_from(bytes@, *old(pos) as int, *old(pos) as int, 0, string_views(old(layers_seen)@)) {
            Ok((s, noted)) => r is Ok && *final(pos) == s && string_views(final(layers_seen)@) == noted,
            Err(e) => r matches Err(err) && error_is(err, e),
        },
{
    let start = *pos;
    let mut depth: usize = 0;
    loop
        invariant
            start == *old(pos),
            start <= *pos <= bytes@.len(),
            bytes@.len() < usize::MAX,
            bytes@[start as int] == 0x28,
            depth <= *pos - start,
            *pos == start ==> depth == 0,
            *pos > start ==> depth >= 1,
            skip_from(bytes@, start as int, start as int, 0, string_views(old(layers_seen)@))
                == skip_from(bytes@, start as int, *pos as int, depth as int, string_views(layers_seen@)),
        decreases bytes@.len() + 1 - *pos,
    {
        if *pos >= bytes.len() {
            return Err(ParseError { message: "unclosed list".to_owned(), offset: start });
        }
        let byte = bytes[*pos];
        if byte == 0x22 {
            // Skip the string whole: parentheses inside it mean nothing.
            let mut discard = *pos;
            proof {
                lemma_quoted_from(bytes@, *pos as int, *pos + 1, *pos + 1, seq![]);
            }
            parse_quoted(bytes, &mut discard)?;
            *pos = discard;
        } else if byte == 0x28 {
            // Cheap enough to notice `(layer "X")` on the way past.
            if layer_opens(bytes, *pos) {
                let mut at = *pos + 7;
                skip_whitespace(bytes, &mut at);
                if at < bytes.len() && bytes[at] == 0x22 {
                    match parse_quoted(bytes, &mut at) {
                        Ok(Node::Atom(name)) => {
                            note_name(layers_seen, name.as_str());
                        },
                        _ => {},
                    }
                }
            }
            depth = depth + 1;
            *pos = *pos + 1;
        } else if byte == 0x29 {
            depth = depth - 1;
            *pos = *pos + 1;
            if depth == 0 {
                return Ok(());
            }
        } else {
            *pos = *pos + 1;
        }
    }
}

/// Records every layer name inside a node that was kept.
fn collect_layers(node: &Node, layers_seen: &mut Vec<String>)
    ensures
        string_views(final(layers_seen)@) == collect_layers_of(node.deep(), string_views(old(layers_seen)@)),
{
    let lists = node.walk();
    let ghost all = deep_refs(lists@);
    let ghost start = string_views(layers_seen@);
    let mut i: usize = 0;
    assert(all.take(0) =~= Seq::<SNode>::empty());
    while i < lists.len()
        invariant
            i <= lists@.len(),
            all == deep_refs(lists@),
            string_views(layers_seen@) == note_layers(all.take(i as int), start),
        decreases lists.len() - i,
    {
        let child = lists[i];
        assert(all.take(i + 1).drop_last() =~= all.take(i as int));
        assert(all.take(i + 1).last() == child.deep());
        let is_layer = match child.head() {
            Some(h) => str_eq(h, "layer"),
            None => false,
        };
        if is_layer {
            if let Some(name) = child.string(0) {
                note_name(layers_seen, name);
            }
        }
        i = i + 1;
    }
    assert(all.take(lists@.len() as int) =~= all);
}

/// The text of an atom, or nothing for a list.
fn into_text(node: Node) -> (r: String)
    ensures
        r@ == atom_text(node.deep()),
{
    match node {
        Node::Atom(text) => text,
        Node::List(_) => String::new(),
    }
}

/// Parses the remainder of a list whose `(` and head have been consumed.
///
/// When `keep` is given, children whose head is not in it are skipped.
fn parse_rest_of_list(
    bytes: &[u8],
    pos: &mut usize,
    head: String,
    keep: Option<&[&str]>,
    layers_seen: &mut Vec<String>,
) -> (r: Result<Node, ParseError>)
    requires
        *old(pos) <= bytes@.len(),
        bytes@.len() < usize::MAX,
    ensures
        node_result(
            r,
            rest_from(bytes@, *old(pos) as int, seq![SNode::Atom(head@)], keep_view(keep)),
            *final(pos) as int,
        ),
        r is Ok ==> string_views(final(layers_seen)@) == child_layers(
            bytes@,
            *old(pos) as int,
            keep_view(keep),
            string_views(old(layers_seen)@),
        ),
    decreases bytes@.len() - *old(pos),
{
    let ghost start = *pos as int;
    let ghost first = seq![SNode::Atom(head@)];
    let mut items: Vec<Node> = Vec::new();
    items.push(Node::Atom(head));
    assert(deep_seq(items@) =~= first);
    loop
        invariant
            start == *old(pos) as int,
            first == seq![SNode::Atom(head@)],
            start <= *pos <= bytes@.len(),
            bytes@.len() < usize::MAX,
            rest_from(bytes@, start, first, keep_view(keep)) == rest_from(
                bytes@,
                *pos as int,
                deep_seq(items@),
                keep_view(keep),
            ),
            child_layers(bytes@, start, keep_view(keep), string_views(old(layers_seen)@))
                == child_layers(bytes@, *pos as int, keep_view(keep), string_views(layers_seen@)),
        decreases bytes@.len() - *pos,
    {
        proof {
            lemma_skip_space(bytes@, *pos as int);
        }
        skip_whitespace(bytes, pos);
        if *pos >= bytes.len() {
            return Err(ParseError { message: "unclosed list".to_owned(), offset: *pos });
        }
        let byte = bytes[*pos];
        if byte == 0x29 {
            *pos = *pos + 1;
            proof {
                lemma_list_deep(items);
            }
            return Ok(Node::List(items));
        }
        let ghost p = *pos as int;
        if byte == 0x28 && keep.is_some() {
            let open = *pos;
            *pos = *pos + 1;
            proof {
                lemma_skip_space(bytes@, p + 1);
            }
            skip_whitespace(bytes, pos);
            proof {
                lemma_bare_end(bytes@, *pos as int);
            }
            let child = parse_bare(bytes, pos)?;
            let child_head = into_text(child);
            let wanted = match keep {
                Some(list) => contains_str(list, child_head.as_str()),
                None => false,
            };
            if wanted {
                let ghost t = child_head@;
                proof {
                    lemma_rest_from(bytes@, *pos as int, seq![SNode::Atom(t)], None);
                }
                let node = parse_rest_of_list(bytes, pos, child_head, None, layers_seen)?;
                let ghost before = items@;
                items.push(node);
                assert(deep_seq(items@) =~= deep_seq(before).push(node.deep()));
            } else {
                *pos = open;
                proof {
                    lemma_skip_from(bytes@, p, p, 0, seq![]);
                    lemma_skip_from(bytes@, p, p, 0, string_views(layers_seen@));
                    crate::selective::lemma_skip_end(bytes@, p, p, 0, seq![]);
                    crate::selective::lemma_skip_end(bytes@, p, p, 0, string_views(layers_seen@));
                }
                skip_list(bytes, pos, layers_seen)?;
            }
        } else {
            proof {
                lemma_node_at(bytes@, p);
            }
            let node = parse_node(bytes, pos)?;
            let ghost before = items@;
            items.push(node);
            assert(deep_seq(items@) =~= deep_seq(before).push(node.deep()));
        }
    }
}

/// Inside a footprint, only these carry anything KiCase uses.
///
/// `layer` is the only thing in the file that says which side a footprint is
/// on, and `model` is the reference to its 3D shape. Every entry here has a
/// price on a board with thousands of footprints, so the list stays short.
fn footprint_keep_list() -> (r: Vec<&'static str>)
    ensures
        str_views(r@) == footprint_keep(),
{
    let list = vec!["at", "uuid", "property", "pad", "attr", "layer", "model"];
    assert(str_views(list@) =~= footprint_keep());
    list
}

/// Parses only the parts of a board that matter, skipping the rest.
///
/// A board is mostly tracks, vias and filled zones, and an enclosure needs none
/// of it. `keep` lists the top-level heads to parse. Footprints are parsed with
/// a reduced set of their own children ([`footprint_keep`]), since their
/// silkscreen and courtyard graphics are just as irrelevant as a track. Every
/// layer name referenced anywhere is still noted, including inside the parts
/// that were skipped.
#[verifier::rlimit(60)]
pub fn parse_selected(text: &str, keep: &[&str]) -> (r: Result<Selection, ParseError>)
    requires
        text.spec_bytes().len() < usize::MAX,
    ensures
        match selection(text.spec_bytes(), str_views(keep@)) {
            Ok((items, layers)) => r matches Ok(sel) && deep_seq(sel.items@) == items && string_views(
                sel.layers_seen@,
            ) == layers,
            Err(e) => r matches Err(err) && error_is(err, e),
        },
        r matches Ok(sel) ==> {
            &&& string_views(sel.layers_seen@).no_duplicates()
            &&& sel.items@.len() >= 1
            &&& sel.items@[0] is Atom
            &&& forall|i: int|
                1 <= i < sel.items@.len() ==> selected_item(
                    #[trigger] sel.items@[i].deep(),
                    str_views(keep@),
                )
        },
{
    let footprint_children = footprint_keep_list();
    let bytes = text.as_bytes();
    let ghost b = bytes@;
    let ghost kv = str_views(keep@);
    let mut pos = 0usize;
    let mut items: Vec<Node> = Vec::new();
    let mut layers_seen: Vec<String> = Vec::new();

    proof {
        lemma_skip_space(b, 0);
    }
    skip_whitespace(bytes, &mut pos);
    if pos >= bytes.len() || bytes[pos] != 0x28 {
        return Err(ParseError { message: "expected a document".to_owned(), offset: pos });
    }
    pos = pos + 1;
    // The document's own head, e.g. `kicad_pcb`.
    proof {
        lemma_bare_end(b, pos as int);
    }
    let root = parse_bare(bytes, &mut pos)?;
    let root_head = into_text(root);
    items.push(Node::Atom(root_head));
    assert(deep_seq(items@) =~= seq![SNode::Atom(root_head@)]);
    assert(string_views(layers_seen@) =~= Seq::<Seq<char>>::empty());

    loop
        invariant
            b == bytes@,
            b == text.spec_bytes(),
            kv == str_views(keep@),
            str_views(footprint_children@) == footprint_keep(),
            pos <= b.len(),
            b.len() < usize::MAX,
            selection(b, kv) == select_from(b, kv, pos as int, deep_seq(items@), string_views(layers_seen@)),
        decreases b.len() - pos,
    {
        proof {
            lemma_skip_space(b, pos as int);
        }
        skip_whitespace(bytes, &mut pos);
        if pos >= bytes.len() {
            return Err(ParseError { message: "unclosed document".to_owned(), offset: pos });
        }
        let byte = bytes[pos];
        let ghost p = pos as int;
        if byte == 0x29 {
            proof {
                lemma_selection(b, kv);
                let all = deep_seq(items@);
                assert(all[0] == items@[0].deep());
                assert forall|i: int| 0 <= i < items@.len() implies #[trigger] items@[i].deep()
                    == all[i] by {}
            }
            return Ok(Selection { items, layers_seen });
        } else if byte == 0x28 {
            let open = pos;
            pos = pos + 1;
            proof {
                lemma_skip_space(b, p + 1);
            }
            skip_whitespace(bytes, &mut pos);
            proof {
                lemma_bare_end(b, pos as int);
            }
            let head = parse_bare(bytes, &mut pos)?;
            let head = into_text(head);
            if contains_str(keep, head.as_str()) {
                let child_keep = if str_eq(head.as_str(), "footprint") {
                    Some(footprint_children.as_slice())
                } else {
                    None
                };
                proof {
                    lemma_rest_from(b, pos as int, seq![SNode::Atom(head@)], keep_view(child_keep));
                }
                let node = parse_rest_of_list(bytes, &mut pos, head, child_keep, &mut layers_seen)?;
                collect_layers(&node, &mut layers_seen);
                let ghost before = items@;
                items.push(node);
                assert(deep_seq(items@) =~= deep_seq(before).push(node.deep()));
            } else {
                pos = open;
                proof {
                    lemma_skip_from(b, p, p, 0, string_views(layers_seen@));
                }
                skip_list(bytes, &mut pos, &mut layers_seen)?;
            }
        } else {
            // A bare value at document level: keep it, it is cheap.
            proof {
                lemma_node_at(b, p);
            }
            let node = parse_node(bytes, &mut pos)?;
            let ghost before = items@;
            items.push(node);
            assert(deep_seq(items@) =~= deep_seq(before).push(node.deep()));
        }
    }
}

} // verus!
