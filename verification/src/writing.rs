//! Writing a value out as text, and reading it back.
//!
//! A value whose atoms are plain words (no whitespace, parenthesis or quote in
//! them), written out with one space between the items of each list, reads
//! back as itself. [`crate::sexpr::parse`] reads its text by [`document`], so
//! this is what a parse of such text gives.

use crate::sexpr::{
    bare_end, document, ends_bare, is_space, list_from, node_at, skip_space, SNode,
};
use vstd::prelude::*;
use vstd::utf8::*;

verus! {

broadcast use vstd::utf8::group_utf8_lib;

/// A character that cannot stand in a bare word: ASCII whitespace, a
/// parenthesis or a quote.
pub open spec fn breaks_word(c: char) -> bool {
    c == ' ' || c == '\t' || c == '\n' || c == '\x0C' || c == '\r' || c == '(' || c == ')' || c
        == '"'
}

/// A word that can be written bare: not empty, and nothing in it breaks a
/// word.
pub open spec fn plain_word(t: Seq<char>) -> bool {
    t.len() > 0 && forall|i: int| 0 <= i < t.len() ==> !breaks_word(#[trigger] t[i])
}

/// A value every atom of which is a plain word.
pub open spec fn writable(n: SNode) -> bool
    decreases n,
{
    match n {
        SNode::Atom(t) => plain_word(t),
        SNode::List(items) => writable_items(items),
    }
}

/// Values every atom of which is a plain word.
pub open spec fn writable_items(items: Seq<SNode>) -> bool
    decreases items,
{
    if items.len() == 0 {
        true
    } else {
        writable(items[0]) && writable_items(items.subrange(1, items.len() as int))
    }
}

/// A value written out as UTF-8 text: an atom as its word, a list as `(`, its
/// items with one space between each two, and `)`.
pub open spec fn written(n: SNode) -> Seq<u8>
    decreases n,
{
    match n {
        SNode::Atom(t) => encode_utf8(t),
        SNode::List(items) => seq![0x28u8] + written_items(items) + seq![0x29u8],
    }
}

/// Values written out one after the other, with one space between each two.
pub open spec fn written_items(items: Seq<SNode>) -> Seq<u8>
    decreases items,
{
    if items.len() == 0 {
        seq![]
    } else if items.len() == 1 {
        written(items[0])
    } else {
        written(items[0]) + seq![0x20u8] + written_items(items.subrange(1, items.len() as int))
    }
}

/// No byte of the encoding of a character that does not break a word ends a
/// bare token or is a quote.
proof fn lemma_scalar_bytes(c: char)
    requires
        !breaks_word(c),
    ensures
        encode_scalar(c as u32).len() >= 1,
        forall|i: int|
            0 <= i < encode_scalar(c as u32).len() ==> !ends_bare(
                #[trigger] encode_scalar(c as u32)[i],
            ) && encode_scalar(c as u32)[i] != 0x22,
{
    let v = c as u32;
    let e = encode_scalar(v);
    if has_width_1_encoding(v) {
        assert(leading_byte_width_1(v) == v) by (bit_vector)
            requires
                v <= 0x7F,
        ;
        assert(e[0] == v);
    } else if has_width_2_encoding(v) {
        assert(leading_byte_width_2(v) >= 0x80 && last_continuation_byte(v) >= 0x80)
            by (bit_vector);
    } else if has_width_3_encoding(v) {
        assert(leading_byte_width_3(v) >= 0x80 && second_last_continuation_byte(v) >= 0x80
            && last_continuation_byte(v) >= 0x80) by (bit_vector);
    } else {
        assert(leading_byte_width_4(v) >= 0x80 && third_last_continuation_byte(v) >= 0x80
            && second_last_continuation_byte(v) >= 0x80 && last_continuation_byte(v) >= 0x80)
            by (bit_vector);
    }
}

/// No byte of the encoding of a word with nothing in it that breaks a word
/// ends a bare token or is a quote.
proof fn lemma_word_bytes(t: Seq<char>)
    requires
        forall|i: int| 0 <= i < t.len() ==> !breaks_word(#[trigger] t[i]),
    ensures
        t.len() > 0 ==> encode_utf8(t).len() > 0,
        forall|i: int|
            0 <= i < encode_utf8(t).len() ==> !ends_bare(#[trigger] encode_utf8(t)[i])
                && encode_utf8(t)[i] != 0x22,
    decreases t.len(),
{
    if t.len() > 0 {
        assert(!breaks_word(t[0]));
        lemma_scalar_bytes(t[0]);
        let rest = t.drop_first();
        assert forall|i: int| 0 <= i < rest.len() implies !breaks_word(#[trigger] rest[i]) by {
            assert(rest[i] == t[i + 1]);
        }
        lemma_word_bytes(rest);
        let a = encode_scalar(t[0] as u32);
        let r = encode_utf8(rest);
        let e = encode_utf8(t);
        assert(e == a + r);
        assert forall|i: int| 0 <= i < e.len() implies !ends_bare(#[trigger] e[i]) && e[i]
            != 0x22 by {
            if i < a.len() {
                assert(e[i] == a[i]);
            } else {
                assert(e[i] == r[i - a.len()]);
            }
        }
    }
}

/// A written value is not empty, and does not start with whitespace.
proof fn lemma_written_starts(n: SNode)
    requires
        writable(n),
    ensures
        written(n).len() > 0,
        !is_space(written(n)[0]),
        written(n)[0] != 0x29,
{
    match n {
        SNode::Atom(t) => {
            lemma_word_bytes(t);
        },
        SNode::List(items) => {},
    }
}

/// Two runs of bytes that stand one after the other in `b` stand there each.
proof fn lemma_split(b: Seq<u8>, pos: int, x: Seq<u8>, y: Seq<u8>)
    requires
        0 <= pos,
        pos + x.len() + y.len() <= b.len(),
        b.subrange(pos, pos + x.len() + y.len()) == x + y,
    ensures
        b.subrange(pos, pos + x.len()) == x,
        b.subrange(pos + x.len(), pos + x.len() + y.len()) == y,
{
    let all = b.subrange(pos, pos + x.len() + y.len());
    assert forall|i: int| 0 <= i < x.len() implies #[trigger] b.subrange(pos, pos + x.len())[i]
        == x[i] by {
        assert(all[i] == (x + y)[i]);
    }
    assert(b.subrange(pos, pos + x.len()) =~= x);
    assert forall|i: int| 0 <= i < y.len() implies #[trigger] b.subrange(
        pos + x.len(),
        pos + x.len() + y.len(),
    )[i] == y[i] by {
        assert(all[x.len() + i] == (x + y)[x.len() + i]);
    }
    assert(b.subrange(pos + x.len(), pos + x.len() + y.len()) =~= y);
}

/// A bare token of bytes that do not end one runs to the first byte that
/// does, or to the end.
proof fn lemma_bare_end_at(b: Seq<u8>, pos: int, end: int)
    requires
        0 <= pos <= end <= b.len(),
        forall|i: int| pos <= i < end ==> !ends_bare(#[trigger] b[i]),
        end < b.len() ==> ends_bare(b[end]),
    ensures
        bare_end(b, pos) == end,
    decreases end - pos,
{
    if pos < end {
        lemma_bare_end_at(b, pos + 1, end);
    }
}

/// A writable value written at `p` in `b`, and followed by the end or by a
/// byte that ends a bare token, reads as itself and ends where it was
/// written.
proof fn lemma_read_node(n: SNode, b: Seq<u8>, p: int)
    requires
        writable(n),
        0 <= p,
        p + written(n).len() <= b.len(),
        b.subrange(p, p + written(n).len()) == written(n),
        p + written(n).len() < b.len() ==> ends_bare(b[p + written(n).len()]),
    ensures
        node_at(b, p) == Ok::<(SNode, int), (Seq<char>, int)>((n, p + written(n).len())),
    decreases n,
{
    let w = written(n);
    lemma_written_starts(n);
    assert(b[p] == b.subrange(p, p + w.len())[0]);
    assert(skip_space(b, p) == p);
    match n {
        SNode::Atom(t) => {
            lemma_word_bytes(t);
            assert forall|i: int| p <= i < p + w.len() implies !ends_bare(#[trigger] b[i]) by {
                assert(b[i] == b.subrange(p, p + w.len())[i - p]);
            }
            lemma_bare_end_at(b, p, p + w.len());
        },
        SNode::List(items) => {
            let inner = written_items(items);
            assert(w == seq![0x28u8] + (inner + seq![0x29u8]));
            lemma_split(b, p, seq![0x28u8], inner + seq![0x29u8]);
            lemma_split(b, p + 1, inner, seq![0x29u8]);
            assert(b[p + 1 + inner.len()] == b.subrange(
                p + 1 + inner.len(),
                p + 1 + inner.len() + 1,
            )[0]);
            lemma_read_items(items, b, p + 1, seq![]);
            assert(Seq::<SNode>::empty() + items =~= items);
        },
    }
}

/// Writable values written from `pos` in `b` and closed by `)` read, after
/// the values `acc` read already, as the list of them all, ending after the
/// `)`.
proof fn lemma_read_items(items: Seq<SNode>, b: Seq<u8>, pos: int, acc: Seq<SNode>)
    requires
        writable_items(items),
        0 <= pos,
        pos + written_items(items).len() < b.len(),
        b.subrange(pos, pos + written_items(items).len()) == written_items(items),
        b[pos + written_items(items).len()] == 0x29,
    ensures
        list_from(b, pos, acc) == Ok::<(SNode, int), (Seq<char>, int)>(
            (SNode::List(acc + items), pos + written_items(items).len() + 1),
        ),
    decreases items,
{
    let wi = written_items(items);
    if items.len() == 0 {
        assert(skip_space(b, pos) == pos);
        assert(acc + items =~= acc);
    } else {
        let first = items[0];
        let w0 = written(first);
        lemma_written_starts(first);
        let q = pos + w0.len();
        if items.len() == 1 {
            assert(wi == w0);
            assert(b[pos] == b.subrange(pos, pos + wi.len())[0]);
            assert(skip_space(b, pos) == pos);
            lemma_read_node(first, b, pos);
            assert(b[q] == 0x29);
            assert(skip_space(b, q) == q);
            assert(list_from(b, q, acc.push(first)) == Ok::<(SNode, int), (Seq<char>, int)>(
                (SNode::List(acc.push(first)), q + 1),
            ));
            assert(list_from(b, pos, acc) == list_from(b, q, acc.push(first)));
            assert(acc.push(first) =~= acc + items);
        } else {
            let rest = items.subrange(1, items.len() as int);
            let wr = written_items(rest);
            assert(wi == w0 + (seq![0x20u8] + wr));
            lemma_split(b, pos, w0, seq![0x20u8] + wr);
            lemma_split(b, q, seq![0x20u8], wr);
            assert(b[pos] == b.subrange(pos, pos + w0.len())[0]);
            assert(skip_space(b, pos) == pos);
            assert(b[q] == b.subrange(q, q + 1)[0]);
            lemma_read_node(first, b, pos);
            assert(rest[0] == items[1]);
            assert(writable_items(rest));
            assert(writable(rest[0]));
            lemma_written_starts(rest[0]);
            assert(wr.len() > 0 && wr[0] == written(rest[0])[0]) by {
                if rest.len() == 1 {
                } else {
                    assert(wr == written(rest[0]) + (seq![0x20u8] + written_items(
                        rest.subrange(1, rest.len() as int),
                    )));
                }
            }
            assert(b[q + 1] == b.subrange(q + 1, q + 1 + wr.len())[0]);
            assert(skip_space(b, q + 1) == q + 1);
            assert(skip_space(b, q) == q + 1);
            lemma_read_items(rest, b, q + 1, acc.push(first));
            assert(list_from(b, q, acc.push(first)) == list_from(b, q + 1, acc.push(first)));
            assert(list_from(b, pos, acc) == list_from(b, q, acc.push(first)));
            assert(acc.push(first) + rest =~= acc + items);
        }
    }
}

/// What is written out reads back as itself: a value whose atoms are all
/// plain words, written out with one space between the items of each list,
/// is read back as that value.
pub proof fn lemma_written_reads_back(n: SNode)
    requires
        writable(n),
    ensures
        document(written(n)) == Ok::<SNode, (Seq<char>, int)>(n),
{
    let b = written(n);
    assert(b.subrange(0, b.len() as int) =~= b);
    lemma_read_node(n, b, 0);
}

} // verus!
