//! Naming the enclosure layers on the board itself.
//!
//! KiCad's IPC API cannot rename a layer; KiCad's own Python module can, so a
//! small fixed script is run through the interpreter KiCad ships. This module
//! holds what that run is given and what its failure is reported as.

use crate::text::chars_of;
use vstd::prelude::*;
use vstd::string::{StrSliceExecFns, StringExecFns};

verus! {

/// Why naming the layers failed.
#[derive(Debug, Clone, PartialEq, Eq)]
pub enum RenameError {
    /// The Python that KiCad ships, the only thing that can name a layer, was
    /// not found.
    NoPython,
    /// The script ran and failed, for the reason given.
    Failed(String),
    /// The interpreter could not be run: which one, and the error.
    Io(String, String),
}

/// The argument that asks the script to give layer `canonical` the display
/// name `wanted`.
pub open spec fn pair_argument(canonical: Seq<char>, wanted: Seq<char>) -> Seq<char> {
    canonical + seq!['='] + wanted
}

/// The script's arguments: one `canonical=wanted` per layer, in order.
pub fn layer_arguments(layers: &[(String, String)]) -> (r: Vec<String>)
    ensures
        r@.len() == layers@.len(),
        forall|i: int|
            0 <= i < layers@.len() ==> #[trigger] r@[i]@ == pair_argument(
                layers@[i].0@,
                layers@[i].1@,
            ),
{
    let mut out: Vec<String> = Vec::new();
    let mut i: usize = 0;
    while i < layers.len()
        invariant
            i <= layers@.len(),
            out@.len() == i,
            forall|j: int|
                0 <= j < i ==> #[trigger] out@[j]@ == pair_argument(
                    layers@[j].0@,
                    layers@[j].1@,
                ),
        decreases layers.len() - i,
    {
        let mut argument = layers[i].0.clone();
        argument.append("=");
        proof {
            reveal_strlit("=");
        }
        argument.append(layers[i].1.as_str());
        out.push(argument);
        i = i + 1;
    }
    out
}

/// The position of the first `\n` in `s` at or after `from`, or the length
/// of `s` when there is none.
pub open spec fn line_end(s: Seq<char>, from: int) -> int
    decreases s.len() - from,
{
    if from >= s.len() {
        s.len() as int
    } else if s[from] == '\n' {
        from
    } else {
        line_end(s, from + 1)
    }
}

pub proof fn lemma_line_end(s: Seq<char>, from: int)
    requires
        0 <= from,
    ensures
        from <= line_end(s, from) <= s.len() || (from > s.len() && line_end(s, from) == s.len()),
        from <= s.len() ==> from <= line_end(s, from) <= s.len(),
        line_end(s, from) < s.len() ==> s[line_end(s, from)] == '\n',
        forall|k: int| from <= k < line_end(s, from) ==> s[k] != '\n',
    decreases s.len() - from,
{
    if from < s.len() && s[from] != '\n' {
        lemma_line_end(s, from + 1);
    }
}

/// A line with the `\r` of a `\r\n` ending removed.
pub open spec fn without_return(line: Seq<char>) -> Seq<char> {
    if line.len() > 0 && line.last() == '\r' {
        line.drop_last()
    } else {
        line
    }
}

/// The lines of `s` from position `from` on, as `str::lines` yields them:
/// split after each `\n`, the `\n` and a `\r` before it dropped, and no empty
/// line after a final `\n`.
pub open spec fn lines_from(s: Seq<char>, from: int) -> Seq<Seq<char>>
    decreases s.len() - from,
{
    if from < 0 || from >= s.len() {
        Seq::empty()
    } else {
        let end = line_end(s, from);
        proof {
            lemma_line_end(s, from);
        }
        if end < s.len() {
            seq![without_return(s.subrange(from, end))] + lines_from(s, end + 1)
        } else {
            seq![s.subrange(from, s.len() as int)]
        }
    }
}

/// Whether `pattern` occurs in `line`.
pub open spec fn occurs(line: Seq<char>, pattern: Seq<char>) -> bool {
    exists|i: int|
        0 <= i && i + pattern.len() <= line.len() && #[trigger] line.subrange(
            i,
            i + pattern.len(),
        ) == pattern
}

/// Whether a line of the interpreter's error output says something about the
/// outcome: KiCad's Python prints an assertion warning on import that does not.
pub open spec fn telling(line: Seq<char>) -> bool {
    !occurs(line, "property.h"@) && !occurs(line, "assert"@)
}

/// The last telling line among the first `n` of `lines`.
pub open spec fn last_telling(lines: Seq<Seq<char>>, n: int) -> Option<Seq<char>>
    decreases n,
{
    if n <= 0 {
        None
    } else if telling(lines[n - 1]) {
        Some(lines[n - 1])
    } else {
        last_telling(lines, n - 1)
    }
}

/// The reason a failed run is reported with: the last telling line of its
/// error output, or `no reason given`.
pub open spec fn failure_reason_of(stderr: Seq<char>) -> Seq<char> {
    let lines = lines_from(stderr, 0);
    match last_telling(lines, lines.len() as int) {
        Some(line) => line,
        None => "no reason given"@,
    }
}

/// Whether `pattern` occurs in `line[from..to]` at a position `i` with
/// `from <= i`.
fn occurs_in(line: &Vec<char>, from: usize, to: usize, pattern: &Vec<char>) -> (r: bool)
    requires
        from <= to <= line@.len(),
    ensures
        r == occurs(line@.subrange(from as int, to as int), pattern@),
{
    let ghost l = line@.subrange(from as int, to as int);
    let n = pattern.len();
    if n > to - from {
        assert(!occurs(l, pattern@));
        return false;
    }
    let mut i: usize = 0;
    while i <= to - from - n
        invariant
            from <= to <= line@.len(),
            n == pattern@.len(),
            n <= to - from,
            i <= to - from - n + 1,
            l == line@.subrange(from as int, to as int),
            forall|k: int| 0 <= k < i ==> #[trigger] l.subrange(k, k + n) != pattern@,
        decreases to - from - i,
    {
        let mut j: usize = 0;
        let mut same = true;
        while j < n
            invariant
                from <= to <= line@.len(),
                n == pattern@.len(),
                i + n <= to - from,
                j <= n,
                same == (forall|m: int| 0 <= m < j ==> line@[from + i + m] == pattern@[m]),
            decreases n - j,
        {
            if line[from + i + j] != pattern[j] {
                same = false;
            }
            j = j + 1;
        }
        if same {
            assert(l.subrange(i as int, i + n) =~= pattern@);
            return true;
        }
        assert(l.subrange(i as int, i + n) != pattern@) by {
            let m = choose|m: int| 0 <= m < n && line@[from + i + m] != pattern@[m];
            assert(l.subrange(i as int, i + n)[m] == line@[from + i + m]);
        }
        i = i + 1;
    }
    assert(!occurs(l, pattern@)) by {
        if occurs(l, pattern@) {
            let k = choose|k: int|
                0 <= k && k + n <= l.len() && #[trigger] l.subrange(k, k + n) == pattern@;
            assert(k < i);
        }
    }
    false
}

/// The text of each `(start, stop)` span of `s`.
pub open spec fn span_texts(s: Seq<char>, spans: Seq<(usize, usize)>) -> Seq<Seq<char>> {
    spans.map_values(|p: (usize, usize)| s.subrange(p.0 as int, p.1 as int))
}

/// The reason a failed run of the naming script is reported with: the last
/// line of its error output that says something, since KiCad's Python prints
/// an assertion warning on import that says nothing about the outcome.
pub fn failure_reason(stderr: &str) -> (r: String)
    ensures
        r@ == failure_reason_of(stderr@),
{
    let text = chars_of(stderr);
    let ghost s = stderr@;
    let property = chars_of("property.h");
    let warning = chars_of("assert");
    let mut spans: Vec<(usize, usize)> = Vec::new();
    let mut pos: usize = 0;
    assert(span_texts(s, spans@) + lines_from(s, 0) =~= lines_from(s, 0));
    while pos < text.len()
        invariant
            pos <= text@.len(),
            text@ == s,
            span_texts(s, spans@) + lines_from(s, pos as int) == lines_from(s, 0),
            forall|i: int|
                0 <= i < spans@.len() ==> #[trigger] spans@[i].0 <= spans@[i].1 <= s.len(),
        decreases text.len() - pos,
    {
        let mut end = pos;
        while end < text.len() && text[end] != '\n'
            invariant
                pos <= end <= text@.len(),
                text@ == s,
                line_end(s, pos as int) == line_end(s, end as int),
            decreases text.len() - end,
        {
            end = end + 1;
        }
        proof {
            lemma_line_end(s, pos as int);
        }
        assert(line_end(s, pos as int) == end);
        let ghost before = spans@;
        if end < text.len() {
            let stop = if end > pos && text[end - 1] == '\r' {
                end - 1
            } else {
                end
            };
            assert(without_return(s.subrange(pos as int, end as int)) =~= s.subrange(
                pos as int,
                stop as int,
            ));
            spans.push((pos, stop));
            assert(span_texts(s, spans@) =~= span_texts(s, before).push(
                s.subrange(pos as int, stop as int),
            ));
            assert(lines_from(s, pos as int) == seq![s.subrange(pos as int, stop as int)]
                + lines_from(s, end + 1));
            assert(span_texts(s, spans@) + lines_from(s, end + 1) =~= span_texts(s, before)
                + lines_from(s, pos as int));
            pos = end + 1;
        } else {
            spans.push((pos, end));
            assert(span_texts(s, spans@) =~= span_texts(s, before).push(
                s.subrange(pos as int, end as int),
            ));
            assert(span_texts(s, spans@) + lines_from(s, end as int) =~= span_texts(s, before)
                + lines_from(s, pos as int));
            pos = end;
        }
    }
    assert(span_texts(s, spans@) =~= lines_from(s, 0));
    let ghost lines = lines_from(s, 0);
    let mut k: usize = spans.len();
    while k > 0
        invariant
            k <= spans@.len(),
            text@ == s,
            s == stderr@,
            lines == lines_from(s, 0),
            lines == span_texts(s, spans@),
            property@ == "property.h"@,
            warning@ == "assert"@,
            forall|i: int|
                0 <= i < spans@.len() ==> #[trigger] spans@[i].0 <= spans@[i].1 <= s.len(),
            last_telling(lines, lines.len() as int) == last_telling(lines, k as int),
        decreases k,
    {
        let (start, stop) = spans[k - 1];
        assert(spans@[k - 1].0 <= spans@[k - 1].1 <= s.len());
        assert(lines[k - 1] == s.subrange(start as int, stop as int));
        if !occurs_in(&text, start, stop, &property) && !occurs_in(&text, start, stop, &warning) {
            return stderr.substring_char(start, stop).to_owned();
        }
        k = k - 1;
    }
    "no reason given".to_owned()
}

} // verus!
