//! Why skipping is safe.
//!
//! The selective reader walks past the lists it does not want by scanning
//! their bytes, and reads the ones it wants. On a document written the way
//! KiCad writes boards, where every list starts with a bare head and no bare
//! token holds a quote, that comes to exactly what a full read gives: the
//! wanted top-level items, in order, and nothing else. When nothing is
//! skipped, the same holds of any document whose top-level lists start with
//! a bare head, and the layer names noted are those the full read names.

use crate::sexpr::{
    atom_text, bare_at, bare_end, collect_layers_of, document, ends_bare, footprint_keep, head_of,
    is_space, lemma_bare_end, lemma_kept_item_read_in_full, lemma_node_at, lemma_quoted_atom,
    lemma_quoted_from, lemma_rest_from_in_full, lemma_skip_space, lemma_skip_space_idempotent,
    list_from, lists_preorder, lists_preorder_seq, msg_unclosed_list, node_at, note_layers,
    quoted_at, rest_from, select_from, selected_item, selection, skip_from, skip_space,
    skipped_child_layers, skipped_layer, SNode,
};
use vstd::prelude::*;

verus! {

/// Where a skipped list that opened at `start` ends, scanning from `pos` at
/// nesting `depth`: [`skip_from`] without the layer names it notes.
pub open spec fn skip_end(b: Seq<u8>, start: int, pos: int, depth: int) -> Result<
    int,
    (Seq<char>, int),
>
    decreases b.len() + 1 - pos,
{
    if pos < 0 || pos >= b.len() {
        Err((msg_unclosed_list(), start))
    } else if b[pos] == 0x22 {
        match quoted_at(b, pos) {
            Err(e) => Err(e),
            Ok((_, q)) => if pos < q <= b.len() {
                skip_end(b, start, q, depth)
            } else {
                Err((msg_unclosed_list(), start))
            },
        }
    } else if b[pos] == 0x28 {
        skip_end(b, start, pos + 1, depth + 1)
    } else if b[pos] == 0x29 {
        if depth - 1 == 0 {
            Ok(pos + 1)
        } else {
            skip_end(b, start, pos + 1, depth - 1)
        }
    } else {
        skip_end(b, start, pos + 1, depth)
    }
}

/// Noting layer names never changes where a skip ends, or whether it fails.
pub proof fn lemma_skip_end(b: Seq<u8>, start: int, pos: int, depth: int, layers: Seq<Seq<char>>)
    ensures
        match skip_end(b, start, pos, depth) {
            Ok(s) => skip_from(b, start, pos, depth, layers) matches Ok((t, _)) && t == s,
            Err(e) => skip_from(b, start, pos, depth, layers) == Err::<(int, Seq<Seq<char>>), _>(e),
        },
    decreases b.len() + 1 - pos,
{
    if pos < 0 || pos >= b.len() {
    } else if b[pos] == 0x22 {
        if let Ok((_, q)) = quoted_at(b, pos) {
            if pos < q <= b.len() {
                lemma_skip_end(b, start, q, depth, layers);
            }
        }
    } else if b[pos] == 0x28 {
        lemma_skip_end(b, start, pos + 1, depth + 1, skipped_layer(b, pos, layers));
    } else if b[pos] == 0x29 {
        if depth - 1 != 0 {
            lemma_skip_end(b, start, pos + 1, depth - 1, layers);
        }
    } else {
        lemma_skip_end(b, start, pos + 1, depth, layers);
    }
}

/// Whitespace is walked past.
proof fn lemma_skip_end_space(b: Seq<u8>, start: int, pos: int, depth: int)
    requires
        0 <= pos,
    ensures
        skip_end(b, start, pos, depth) == skip_end(b, start, skip_space(b, pos), depth),
    decreases b.len() - pos,
{
    if 0 <= pos < b.len() && is_space(b[pos]) {
        lemma_skip_end_space(b, start, pos + 1, depth);
    }
}

/// No byte of the bare token at `pos` is a quote.
pub open spec fn quote_free_bare(b: Seq<u8>, pos: int) -> bool {
    forall|i: int| pos <= i < bare_end(b, pos) ==> b[i] != 0x22
}

/// A bare token with no quote in it is walked past.
proof fn lemma_skip_end_bare(b: Seq<u8>, start: int, pos: int, depth: int, from: int)
    requires
        0 <= from <= pos,
        bare_end(b, from) == bare_end(b, pos),
        quote_free_bare(b, from),
    ensures
        skip_end(b, start, pos, depth) == skip_end(b, start, bare_end(b, pos), depth),
    decreases b.len() - pos,
{
    lemma_bare_end(b, from);
    lemma_bare_end(b, pos);
    if 0 <= pos < b.len() && !ends_bare(b[pos]) {
        assert(b[pos] != 0x22);
        lemma_skip_end_bare(b, start, pos + 1, depth, from);
    }
}

/// The value starting at `p` is plain: a quoted string, a bare token with no
/// quote in it, or a plain list.
pub open spec fn plain_node(b: Seq<u8>, p: int) -> bool
    decreases b.len() - p, 0int,
{
    if p < 0 || p >= b.len() || is_space(b[p]) {
        false
    } else if b[p] == 0x28 {
        plain_list(b, p + 1)
    } else if b[p] == 0x29 {
        false
    } else if b[p] == 0x22 {
        true
    } else {
        quote_free_bare(b, p)
    }
}

/// The rest of a list after its `(` is plain: a bare head with no quote in
/// it, then plain values up to the closing `)`.
pub open spec fn plain_list(b: Seq<u8>, pos: int) -> bool
    decreases b.len() - pos, 1int,
{
    if pos < 0 || pos > b.len() {
        false
    } else {
        let q = skip_space(b, pos);
        proof {
            lemma_skip_space(b, pos);
        }
        if q < b.len() && !ends_bare(b[q]) && b[q] != 0x22 && quote_free_bare(b, q) {
            proof {
                lemma_bare_end(b, q);
            }
            plain_items(b, bare_end(b, q))
        } else {
            false
        }
    }
}

/// The items of a list from `pos` on are plain values up to the closing `)`.
pub open spec fn plain_items(b: Seq<u8>, pos: int) -> bool
    decreases b.len() - pos, 2int,
{
    if pos < 0 || pos > b.len() {
        false
    } else {
        let p = skip_space(b, pos);
        proof {
            lemma_skip_space(b, pos);
        }
        if p >= b.len() {
            false
        } else if b[p] == 0x29 {
            true
        } else {
            plain_node(b, p) && match node_at(b, p) {
                Ok((_, q)) => p < q <= b.len() && plain_items(b, q),
                Err(_) => false,
            }
        }
    }
}

/// Skipping a plain value that reads as `n` ends where reading it ends: a
/// list skipped on its own ends there, and anything else leaves the skip
/// going at the same nesting.
pub proof fn lemma_skip_node(b: Seq<u8>, start: int, p: int, depth: int)
    requires
        0 <= depth,
        plain_node(b, p),
        node_at(b, p) is Ok,
    ensures
        node_at(b, p) matches Ok((n, q)) && skip_end(b, start, p, depth) == (if n is List && depth
            == 0 {
            Ok::<int, (Seq<char>, int)>(q)
        } else {
            skip_end(b, start, q, depth)
        }),
    decreases b.len() - p, 0int,
{
    lemma_skip_space(b, p);
    assert(skip_space(b, p) == p);
    if b[p] == 0x28 {
        let q0 = skip_space(b, p + 1);
        lemma_skip_space(b, p + 1);
        lemma_skip_space_idempotent(b, p + 1);
        lemma_bare_end(b, q0);
        let r = bare_end(b, q0);
        assert(skip_space(b, q0) == q0);
        assert(node_at(b, q0) == bare_at(b, q0));
        lemma_skip_end_space(b, start, p + 1, depth + 1);
        lemma_skip_end_bare(b, start, q0, depth + 1, q0);
        if let Ok((h, r2)) = bare_at(b, q0) {
            assert(r2 == r);
            assert(seq![].push(h) =~= seq![h]);
            assert(node_at(b, p) == list_from(b, p + 1, seq![]));
            assert(list_from(b, p + 1, seq![]) == list_from(b, r, seq![h]));
            assert(skip_end(b, start, p, depth) == skip_end(b, start, p + 1, depth + 1));
            lemma_skip_items(b, start, r, seq![h], depth + 1);
        }
        assert(bare_at(b, q0) is Ok);
    } else if b[p] == 0x22 {
        lemma_quoted_from(b, p, p + 1, p + 1, seq![]);
        lemma_quoted_atom(b, p, p + 1, p + 1, seq![]);
    } else {
        lemma_skip_end_bare(b, start, p, depth, p);
        assert(node_at(b, p) == bare_at(b, p));
    }
}

/// Skipping the plain items of a list, at a nesting of at least one, ends
/// where reading them ends: on the closing `)`, which ends the skip when it
/// brings the nesting to zero.
pub proof fn lemma_skip_items(b: Seq<u8>, start: int, pos: int, acc: Seq<SNode>, depth: int)
    requires
        1 <= depth,
        plain_items(b, pos),
    ensures
        list_from(b, pos, acc) matches Ok((n, q)) && n is List && skip_end(b, start, pos, depth) == (
        if depth - 1 == 0 {
            Ok::<int, (Seq<char>, int)>(q)
        } else {
            skip_end(b, start, q, depth - 1)
        }),
    decreases b.len() - pos, 1int,
{
    lemma_skip_space(b, pos);
    let p = skip_space(b, pos);
    lemma_skip_end_space(b, start, pos, depth);
    if b[p] != 0x29 {
        lemma_skip_space_idempotent(b, p);
        lemma_skip_node(b, start, p, depth);
        if let Ok((n, q1)) = node_at(b, p) {
            lemma_skip_items(b, start, q1, acc.push(n), depth);
        }
    }
}

/// A list read by [`list_from`] starts with what was read before it.
pub proof fn lemma_list_from_prefix(b: Seq<u8>, pos: int, acc: Seq<SNode>)
    ensures
        list_from(b, pos, acc) matches Ok((n, _)) ==> (n matches SNode::List(x) && x.len()
            >= acc.len() && x.take(acc.len() as int) == acc),
    decreases b.len() - pos,
{
    if 0 <= pos <= b.len() {
        lemma_skip_space(b, pos);
        let p = skip_space(b, pos);
        if p < b.len() && b[p] == 0x29 {
            assert(acc.take(acc.len() as int) =~= acc);
        } else if p < b.len() {
            if let Ok((n, q)) = node_at(b, p) {
                if p < q <= b.len() {
                    lemma_list_from_prefix(b, q, acc.push(n));
                    if let Ok((m, _)) = list_from(b, q, acc.push(n)) {
                        if let SNode::List(x) = m {
                            assert(x.take(acc.len() as int) =~= x.take(acc.len() + 1 as int).take(
                                acc.len() as int,
                            ));
                            assert(acc.push(n).take(acc.len() as int) =~= acc);
                        }
                    }
                }
            }
        }
    }
}

/// Whether a child of a list is kept when only the children headed by one
/// of `keep` are read: a value that is not a list always is.
pub open spec fn child_kept(c: SNode, keep: Seq<Seq<char>>) -> bool {
    match c {
        SNode::Atom(_) => true,
        SNode::List(_) => head_of(c) matches Some(h) && keep.contains(h),
    }
}

/// The children among `s` that are kept, in order.
pub open spec fn kept_children(s: Seq<SNode>, keep: Seq<Seq<char>>) -> Seq<SNode>
    decreases s.len(),
{
    if s.len() == 0 {
        Seq::empty()
    } else {
        (if child_kept(s[0], keep) {
            seq![s[0]]
        } else {
            Seq::empty()
        }) + kept_children(s.drop_first(), keep)
    }
}

proof fn lemma_kept_children_cons(m: SNode, rest: Seq<SNode>, keep: Seq<Seq<char>>)
    ensures
        kept_children(seq![m] + rest, keep) == (if child_kept(m, keep) {
            seq![m]
        } else {
            Seq::empty()
        }) + kept_children(rest, keep),
{
    assert((seq![m] + rest)[0] == m);
    assert((seq![m] + rest).drop_first() =~= rest);
}

/// The plain list at `p` reads, fully, as a list whose head is its bare head.
proof fn lemma_plain_list_read(b: Seq<u8>, p: int)
    requires
        0 <= p < b.len(),
        b[p] == 0x28,
        plain_node(b, p),
        node_at(b, p) is Ok,
    ensures
        bare_at(b, skip_space(b, p + 1)) matches Ok((h, r)) && {
            &&& h == SNode::Atom(atom_text(h))
            &&& p < r <= b.len()
            &&& plain_items(b, r)
            &&& node_at(b, p) == list_from(b, r, seq![h])
            &&& rest_from(b, r, seq![h], None) == node_at(b, p)
            &&& (node_at(b, p) matches Ok((m, q)) && p < q <= b.len() && head_of(m) == Some(
                atom_text(h),
            ))
        },
{
    let q0 = skip_space(b, p + 1);
    lemma_skip_space(b, p);
    lemma_skip_space(b, p + 1);
    lemma_skip_space_idempotent(b, p + 1);
    lemma_bare_end(b, q0);
    lemma_kept_item_read_in_full(b, p);
    lemma_node_at(b, p);
    assert(skip_space(b, q0) == q0);
    assert(node_at(b, q0) == bare_at(b, q0));
    if let Ok((h, r)) = bare_at(b, q0) {
        assert(seq![].push(h) =~= seq![h]);
        assert(node_at(b, p) == list_from(b, p + 1, seq![]));
        lemma_rest_from_in_full(b, r, seq![h]);
        lemma_list_from_prefix(b, r, seq![h]);
        if let Ok((SNode::List(x), q)) = list_from(b, r, seq![h]) {
            assert(x.take(1)[0] == x[0]);
        }
    }
}

/// Reading the rest of a plain list keeping only some children gives the
/// full reading of it with the other child lists left out, and ends in the
/// same place.
pub proof fn lemma_rest_from_keeping(
    b: Seq<u8>,
    pos: int,
    sel: Seq<SNode>,
    acc: Seq<SNode>,
    keep: Seq<Seq<char>>,
)
    requires
        plain_items(b, pos),
    ensures
        list_from(b, pos, acc) matches Ok((SNode::List(all), q)) && all.len() >= acc.len()
            && rest_from(b, pos, sel, Some(keep)) == Ok::<(SNode, int), (Seq<char>, int)>(
            (SNode::List(sel + kept_children(all.skip(acc.len() as int), keep)), q),
        ),
    decreases b.len() - pos,
{
    lemma_skip_space(b, pos);
    let p = skip_space(b, pos);
    lemma_list_from_prefix(b, pos, acc);
    if b[p] == 0x29 {
        assert(sel + Seq::<SNode>::empty() =~= sel);
        assert(acc.skip(acc.len() as int) =~= Seq::<SNode>::empty());
    } else {
        lemma_skip_space_idempotent(b, p);
        lemma_node_at(b, p);
        let (m, q1) = match node_at(b, p) {
            Ok((m, q1)) => (m, q1),
            Err(_) => (SNode::Atom(Seq::empty()), 0),
        };
        lemma_list_from_prefix(b, q1, acc.push(m));
        if b[p] == 0x28 {
            lemma_plain_list_read(b, p);
            let t = match bare_at(b, skip_space(b, p + 1)) {
                Ok((h, _)) => atom_text(h),
                Err(_) => Seq::empty(),
            };
            if keep.contains(t) {
                lemma_rest_from_keeping(b, q1, sel.push(m), acc.push(m), keep);
            } else {
                lemma_skip_end(b, p, p, 0, Seq::empty());
                lemma_skip_node(b, p, p, 0);
                lemma_rest_from_keeping(b, q1, sel, acc.push(m), keep);
            }
        } else {
            lemma_rest_from_keeping(b, q1, sel.push(m), acc.push(m), keep);
            assert(m is Atom) by {
                if b[p] == 0x22 {
                    lemma_quoted_atom(b, p, p + 1, p + 1, seq![]);
                }
            }
        }
        let all = match list_from(b, q1, acc.push(m)) {
            Ok((SNode::List(x), _)) => x,
            _ => Seq::empty(),
        };
        assert(all.take(acc.len() + 1 as int) == acc.push(m));
        assert(all[acc.len() as int] == all.take(acc.len() + 1 as int)[acc.len() as int]);
        assert(all.skip(acc.len() as int) =~= seq![m] + all.skip(acc.len() + 1 as int));
        lemma_kept_children_cons(m, all.skip(acc.len() + 1 as int), keep);
        assert(sel.push(m) + kept_children(all.skip(acc.len() + 1 as int), keep) =~= sel + (seq![m]
            + kept_children(all.skip(acc.len() + 1 as int), keep)));
        assert(sel + (Seq::<SNode>::empty() + kept_children(all.skip(acc.len() + 1 as int), keep)) =~= sel
            + kept_children(all.skip(acc.len() + 1 as int), keep));
    }
}

/// A footprint as the selective reader keeps it: its head, then only the
/// children it reads ([`footprint_keep`]).
pub open spec fn footprint_view(n: SNode) -> SNode {
    match n {
        SNode::List(x) => if x.len() > 0 {
            SNode::List(seq![x[0]] + kept_children(x.skip(1), footprint_keep()))
        } else {
            n
        },
        SNode::Atom(_) => n,
    }
}

/// The top-level items among `s` that a selective read keeps, as it keeps
/// them: values that are not lists, and lists headed by one of `keep`, a
/// footprint with only the children it reads.
pub open spec fn selected_items(s: Seq<SNode>, keep: Seq<Seq<char>>) -> Seq<SNode>
    decreases s.len(),
{
    if s.len() == 0 {
        Seq::empty()
    } else {
        let n = s[0];
        let rest = selected_items(s.drop_first(), keep);
        match n {
            SNode::Atom(_) => seq![n] + rest,
            SNode::List(_) => match head_of(n) {
                Some(h) => if keep.contains(h) {
                    if h == "footprint"@ {
                        seq![footprint_view(n)] + rest
                    } else {
                        seq![n] + rest
                    }
                } else {
                    rest
                },
                None => rest,
            },
        }
    }
}

proof fn lemma_selected_items_cons(m: SNode, rest: Seq<SNode>, keep: Seq<Seq<char>>)
    ensures
        selected_items(seq![m] + rest, keep) == selected_items(seq![m], keep) + selected_items(
            rest,
            keep,
        ),
{
    assert((seq![m] + rest)[0] == m);
    assert((seq![m] + rest).drop_first() =~= rest);
    assert(seq![m][0] == m);
    assert(seq![m].drop_first() =~= Seq::<SNode>::empty());
    assert(selected_items(Seq::<SNode>::empty(), keep) == Seq::<SNode>::empty());
    assert(seq![m] + Seq::<SNode>::empty() =~= seq![m]);
    assert(Seq::<SNode>::empty() + selected_items(rest, keep) =~= selected_items(rest, keep));
}

/// The selective reading of the remaining top-level items of a plain
/// document keeps, in order, exactly the items [`selected_items`] picks
/// from the full reading of them.
pub proof fn lemma_select_from_agrees(
    b: Seq<u8>,
    keep: Seq<Seq<char>>,
    pos: int,
    sel: Seq<SNode>,
    acc: Seq<SNode>,
    layers: Seq<Seq<char>>,
)
    requires
        plain_items(b, pos),
    ensures
        list_from(b, pos, acc) matches Ok((SNode::List(all), _)) && all.len() >= acc.len() && (
        select_from(b, keep, pos, sel, layers) matches Ok((items, _)) && items == sel
            + selected_items(all.skip(acc.len() as int), keep)),
    decreases b.len() - pos,
{
    lemma_skip_space(b, pos);
    let p = skip_space(b, pos);
    lemma_list_from_prefix(b, pos, acc);
    if b[p] == 0x29 {
        assert(sel + Seq::<SNode>::empty() =~= sel);
        assert(acc.skip(acc.len() as int) =~= Seq::<SNode>::empty());
    } else {
        lemma_skip_space_idempotent(b, p);
        lemma_node_at(b, p);
        let (m, q1) = match node_at(b, p) {
            Ok((m, q1)) => (m, q1),
            Err(_) => (SNode::Atom(Seq::empty()), 0),
        };
        lemma_list_from_prefix(b, q1, acc.push(m));
        let mut picked: Seq<SNode> = seq![m];
        if b[p] == 0x28 {
            lemma_plain_list_read(b, p);
            let (h, r) = match bare_at(b, skip_space(b, p + 1)) {
                Ok((h, r)) => (h, r),
                Err(_) => (SNode::Atom(Seq::empty()), 0),
            };
            let t = atom_text(h);
            if keep.contains(t) {
                if t == "footprint"@ {
                    lemma_rest_from_keeping(b, r, seq![SNode::Atom(t)], seq![h], footprint_keep());
                    lemma_list_from_prefix(b, r, seq![h]);
                    let x = match m {
                        SNode::List(x) => x,
                        _ => Seq::empty(),
                    };
                    assert(x.take(1)[0] == x[0]);
                    assert(seq![SNode::Atom(t)] == seq![x[0]]);
                    picked = seq![footprint_view(m)];
                    lemma_select_from_agrees(
                        b,
                        keep,
                        q1,
                        sel.push(footprint_view(m)),
                        acc.push(m),
                        collect_layers_of(
                            footprint_view(m),
                            skipped_child_layers(b, r, footprint_keep(), layers),
                        ),
                    );
                } else {
                    lemma_select_from_agrees(
                        b,
                        keep,
                        q1,
                        sel.push(m),
                        acc.push(m),
                        collect_layers_of(m, layers),
                    );
                }
            } else {
                lemma_skip_end(b, p, p, 0, layers);
                lemma_skip_node(b, p, p, 0);
                picked = Seq::empty();
                let noted = match skip_from(b, p, p, 0, layers) {
                    Ok((_, noted)) => noted,
                    Err(_) => layers,
                };
                lemma_select_from_agrees(b, keep, q1, sel, acc.push(m), noted);
            }
            assert(selected_items(seq![m], keep) == picked) by {
                assert(seq![m][0] == m);
                assert(seq![m].drop_first() =~= Seq::<SNode>::empty());
                assert(selected_items(Seq::<SNode>::empty(), keep) == Seq::<SNode>::empty());
                assert(picked + Seq::<SNode>::empty() =~= picked);
            }
        } else {
            assert(m is Atom) by {
                if b[p] == 0x22 {
                    lemma_quoted_atom(b, p, p + 1, p + 1, seq![]);
                }
            }
            lemma_select_from_agrees(b, keep, q1, sel.push(m), acc.push(m), layers);
            assert(selected_items(seq![m], keep) == picked) by {
                assert(seq![m][0] == m);
                assert(seq![m].drop_first() =~= Seq::<SNode>::empty());
                assert(selected_items(Seq::<SNode>::empty(), keep) == Seq::<SNode>::empty());
                assert(seq![m] + Seq::<SNode>::empty() =~= seq![m]);
            }
        }
        let all = match list_from(b, q1, acc.push(m)) {
            Ok((SNode::List(x), _)) => x,
            _ => Seq::empty(),
        };
        assert(all.take(acc.len() + 1 as int) == acc.push(m));
        assert(all[acc.len() as int] == all.take(acc.len() + 1 as int)[acc.len() as int]);
        assert(all.skip(acc.len() as int) =~= seq![m] + all.skip(acc.len() + 1 as int));
        lemma_selected_items_cons(m, all.skip(acc.len() + 1 as int), keep);
        assert(sel + picked + selected_items(all.skip(acc.len() + 1 as int), keep) =~= sel + (picked
            + selected_items(all.skip(acc.len() + 1 as int), keep)));
    }
}

/// A document written the way KiCad writes boards: a list right after any
/// leading whitespace, with its head straight after the `(`, and plain
/// throughout, so every list starts with a bare head and no bare token holds
/// a quote.
pub open spec fn plain_document(b: Seq<u8>) -> bool {
    let p = skip_space(b, 0);
    &&& p + 1 < b.len()
    &&& b[p] == 0x28
    &&& !is_space(b[p + 1])
    &&& plain_node(b, p)
}

/// Skipping is safe: on a plain document that reads in full, the selective
/// reader succeeds and keeps the document's head, then exactly the top-level
/// items the full reading has that are not lists or are lists headed by one of
/// `keep`, in order, each as the full reading has it (a footprint with only the
/// children it reads). Everything it skips, it skips cleanly.
pub proof fn lemma_selection_agrees_with_full_read(b: Seq<u8>, keep: Seq<Seq<char>>)
    requires
        plain_document(b),
        document(b) is Ok,
    ensures
        document(b) matches Ok(SNode::List(all)) && all.len() >= 1 && (selection(b, keep) matches Ok(
            (items, _),
        ) && items == seq![all[0]] + selected_items(all.skip(1), keep)),
{
    let p = skip_space(b, 0);
    lemma_skip_space(b, 0);
    lemma_skip_space_idempotent(b, 0);
    assert(document(b) == match node_at(b, p) {
        Ok((n, _)) => Ok::<SNode, (Seq<char>, int)>(n),
        Err(e) => Err(e),
    });
    assert(node_at(b, p) is Ok);
    lemma_plain_list_read(b, p);
    assert(skip_space(b, p + 1) == p + 1);
    let (h, r) = match bare_at(b, p + 1) {
        Ok((h, r)) => (h, r),
        Err(_) => (SNode::Atom(Seq::empty()), 0),
    };
    lemma_select_from_agrees(b, keep, r, seq![SNode::Atom(atom_text(h))], seq![h], Seq::empty());
    lemma_list_from_prefix(b, r, seq![h]);
    let all = match list_from(b, r, seq![h]) {
        Ok((SNode::List(x), _)) => x,
        _ => Seq::empty(),
    };
    assert(all.take(1)[0] == all[0]);
}

/// The lists of two runs of values, one after the other.
proof fn lemma_preorder_seq_append(a: Seq<SNode>, c: Seq<SNode>)
    ensures
        lists_preorder_seq(a + c) == lists_preorder_seq(a) + lists_preorder_seq(c),
    decreases c.len(),
{
    if c.len() == 0 {
        assert(a + c =~= a);
        assert(lists_preorder_seq(a) + Seq::<SNode>::empty() =~= lists_preorder_seq(a));
    } else {
        lemma_preorder_seq_append(a, c.drop_last());
        assert((a + c).drop_last() =~= a + c.drop_last());
        assert((a + c).last() == c.last());
        assert(lists_preorder_seq(a) + lists_preorder_seq(c.drop_last()) + lists_preorder(c.last())
            =~= lists_preorder_seq(a) + (lists_preorder_seq(c.drop_last()) + lists_preorder(
            c.last(),
        )));
    }
}

/// Noting the layers of two runs of lists is noting those of the first, then
/// those of the second.
proof fn lemma_note_layers_append(x: Seq<SNode>, y: Seq<SNode>, layers: Seq<Seq<char>>)
    ensures
        note_layers(x + y, layers) == note_layers(y, note_layers(x, layers)),
    decreases y.len(),
{
    if y.len() == 0 {
        assert(x + y =~= x);
    } else {
        lemma_note_layers_append(x, y.drop_last(), layers);
        assert((x + y).drop_last() =~= x + y.drop_last());
        assert((x + y).last() == y.last());
    }
}

/// The list at `p` starts with a bare head: the first thing after its `(`
/// is neither a parenthesis nor a quote.
pub open spec fn bare_head_at(b: Seq<u8>, p: int) -> bool {
    let q = skip_space(b, p + 1);
    q < b.len() && b[q] != 0x28 && b[q] != 0x29 && b[q] != 0x22
}

/// The items of a list from `pos` on read in full up to its closing `)`, and
/// each of them that is a list starts with a bare head. What is inside them
/// may be written any way at all.
pub open spec fn bare_headed_items(b: Seq<u8>, pos: int) -> bool
    decreases b.len() - pos,
{
    if pos < 0 || pos > b.len() {
        false
    } else {
        let p = skip_space(b, pos);
        proof {
            lemma_skip_space(b, pos);
        }
        if p >= b.len() {
            false
        } else if b[p] == 0x29 {
            true
        } else {
            (b[p] == 0x28 ==> bare_head_at(b, p)) && match node_at(b, p) {
                Ok((_, q)) => p < q <= b.len() && bare_headed_items(b, q),
                Err(_) => false,
            }
        }
    }
}

/// When a selective read of the remaining items of a document skips nothing
/// (`footprint` is not asked for, and each item is a value or a list headed
/// by one of `keep`), it keeps the items the full reading has, and the layer
/// names it adds are those the full reading of the items names in
/// `(layer ...)` lists, in order, each once.
pub proof fn lemma_select_from_unskipped(
    b: Seq<u8>,
    keep: Seq<Seq<char>>,
    pos: int,
    sel: Seq<SNode>,
    acc: Seq<SNode>,
    layers: Seq<Seq<char>>,
)
    requires
        bare_headed_items(b, pos),
        !keep.contains("footprint"@),
        list_from(b, pos, acc) matches Ok((SNode::List(all), _)) && forall|i: int|
            acc.len() <= i < all.len() ==> #[trigger] selected_item(all[i], keep),
    ensures
        list_from(b, pos, acc) matches Ok((SNode::List(all), _)) && all.len() >= acc.len() && (
        select_from(b, keep, pos, sel, layers) matches Ok((items, l)) && items == sel + all.skip(
            acc.len() as int,
        ) && l == note_layers(lists_preorder_seq(all.skip(acc.len() as int)), layers)),
    decreases b.len() - pos,
{
    lemma_skip_space(b, pos);
    let p = skip_space(b, pos);
    lemma_list_from_prefix(b, pos, acc);
    if b[p] == 0x29 {
        assert(acc.skip(acc.len() as int) =~= Seq::<SNode>::empty());
        assert(sel + Seq::<SNode>::empty() =~= sel);
    } else {
        lemma_skip_space_idempotent(b, p);
        lemma_node_at(b, p);
        let (m, q1) = match node_at(b, p) {
            Ok((m, q1)) => (m, q1),
            Err(_) => (SNode::Atom(Seq::empty()), 0),
        };
        lemma_list_from_prefix(b, q1, acc.push(m));
        let all = match list_from(b, q1, acc.push(m)) {
            Ok((SNode::List(x), _)) => x,
            _ => Seq::empty(),
        };
        assert(all.take(acc.len() + 1 as int) == acc.push(m));
        assert(all[acc.len() as int] == all.take(acc.len() + 1 as int)[acc.len() as int]);
        assert(selected_item(all[acc.len() as int], keep));
        if b[p] == 0x28 {
            let q = skip_space(b, p + 1);
            lemma_skip_space(b, p + 1);
            lemma_skip_space_idempotent(b, p + 1);
            lemma_kept_item_read_in_full(b, p);
            assert(skip_space(b, q) == q);
            assert(node_at(b, q) == bare_at(b, q));
            let (h, r) = match bare_at(b, q) {
                Ok((h, r)) => (h, r),
                Err(_) => (SNode::Atom(Seq::empty()), 0),
            };
            let t = atom_text(h);
            assert(h == SNode::Atom(t));
            lemma_bare_end(b, q);
            lemma_rest_from_in_full(b, r, seq![h]);
            assert(node_at(b, p) == list_from(b, p + 1, seq![]));
            assert(list_from(b, p + 1, seq![]) == list_from(b, r, seq![h]));
            lemma_list_from_prefix(b, r, seq![h]);
            if let SNode::List(x) = m {
                assert(x.take(1)[0] == x[0]);
            }
            assert(head_of(m) == Some(t));
            assert(keep.contains(t));
            assert(t != "footprint"@);
            lemma_select_from_unskipped(
                b,
                keep,
                q1,
                sel.push(m),
                acc.push(m),
                collect_layers_of(m, layers),
            );
        } else {
            assert(m is Atom) by {
                if b[p] == 0x22 {
                    lemma_quoted_atom(b, p, p + 1, p + 1, seq![]);
                }
            }
            lemma_select_from_unskipped(b, keep, q1, sel.push(m), acc.push(m), layers);
            assert(collect_layers_of(m, layers) == layers) by {
                assert(lists_preorder(m) == Seq::<SNode>::empty());
            }
        }
        assert(all.skip(acc.len() as int) =~= seq![m] + all.skip(acc.len() + 1 as int));
        assert(sel.push(m) + all.skip(acc.len() + 1 as int) =~= sel + all.skip(acc.len() as int));
        lemma_preorder_seq_append(seq![m], all.skip(acc.len() + 1 as int));
        assert(lists_preorder_seq(seq![m]) =~= lists_preorder(m)) by {
            assert(seq![m].drop_last() =~= Seq::<SNode>::empty());
            assert(seq![m].last() == m);
            assert(lists_preorder_seq(Seq::<SNode>::empty()) == Seq::<SNode>::empty());
            assert(Seq::<SNode>::empty() + lists_preorder(m) =~= lists_preorder(m));
        }
        lemma_note_layers_append(
            lists_preorder(m),
            lists_preorder_seq(all.skip(acc.len() + 1 as int)),
            layers,
        );
    }
}

/// Nothing skipped, nothing lost: when a document opens with `(` and its bare
/// head, reads in full, and every top-level list in it starts with a bare
/// head, and when `footprint` is not asked for and every top-level item is a
/// value or a list headed by one of `keep`, the selective reader gives the
/// full reading's items, and notes the name of every `(layer ...)` list in
/// them, once each, in the order the full reading meets them.
pub proof fn lemma_selection_when_nothing_is_skipped(b: Seq<u8>, keep: Seq<Seq<char>>)
    requires
        skip_space(b, 0) + 1 < b.len(),
        b[skip_space(b, 0)] == 0x28,
        !ends_bare(b[skip_space(b, 0) + 1]),
        b[skip_space(b, 0) + 1] != 0x22,
        bare_headed_items(b, bare_end(b, skip_space(b, 0) + 1)),
        !keep.contains("footprint"@),
        document(b) matches Ok(SNode::List(all)) && forall|i: int|
            1 <= i < all.len() ==> #[trigger] selected_item(all[i], keep),
    ensures
        document(b) matches Ok(SNode::List(all)) && (selection(b, keep) matches Ok((items, layers))
            && items == all && layers == note_layers(lists_preorder_seq(all.skip(1)), seq![])),
{
    let p = skip_space(b, 0);
    lemma_skip_space(b, 0);
    lemma_skip_space_idempotent(b, 0);
    assert(document(b) == match node_at(b, p) {
        Ok((n, _)) => Ok::<SNode, (Seq<char>, int)>(n),
        Err(e) => Err(e),
    });
    lemma_skip_space(b, p + 1);
    assert(skip_space(b, p + 1) == p + 1);
    lemma_skip_space_idempotent(b, p + 1);
    assert(node_at(b, p + 1) == bare_at(b, p + 1));
    let (h, r) = match bare_at(b, p + 1) {
        Ok((h, r)) => (h, r),
        Err(_) => (SNode::Atom(Seq::empty()), 0),
    };
    lemma_bare_end(b, p + 1);
    assert(node_at(b, p) == list_from(b, p + 1, seq![]));
    assert(list_from(b, p + 1, seq![]) == list_from(b, r, seq![h]));
    lemma_list_from_prefix(b, r, seq![h]);
    let all = match document(b) {
        Ok(SNode::List(x)) => x,
        _ => Seq::empty(),
    };
    assert(all.take(1)[0] == all[0]);
    assert(h == SNode::Atom(atom_text(h)));
    lemma_select_from_unskipped(b, keep, r, seq![SNode::Atom(atom_text(h))], seq![h], Seq::empty());
    assert(seq![all[0]] + all.skip(1) =~= all);
}

} // verus!
