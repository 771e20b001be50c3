//! Expanding the path variables in a footprint's `(model ...)` reference.
//!
//! A board writes model paths with KiCad's own variables: `${KIPRJMOD}` for
//! the project directory, and `${KICAD9_3DMODEL_DIR}` and friends for the
//! library of stock models. The values come from outside, handed in.

use crate::text::{chars_of, str_eq};
use vstd::prelude::*;
use vstd::string::{StrSliceExecFns, StringExecFns};

verus! {

/// The first `${` in `s` at or after `from`.
pub open spec fn opening_from(s: Seq<char>, from: int) -> Option<int>
    decreases s.len() - from,
{
    if from < 0 || from + 1 >= s.len() {
        None
    } else if s[from] == '$' && s[from + 1] == '{' {
        Some(from)
    } else {
        opening_from(s, from + 1)
    }
}

/// The first `}` in `s` at or after `from`.
pub open spec fn closing_from(s: Seq<char>, from: int) -> Option<int>
    decreases s.len() - from,
{
    if from < 0 || from >= s.len() {
        None
    } else if s[from] == '}' {
        Some(from)
    } else {
        closing_from(s, from + 1)
    }
}

/// The value of the first of the first `n` entries of `environment` named
/// `name`.
pub open spec fn lookup(environment: Seq<(String, String)>, name: Seq<char>, n: int) -> Option<
    Seq<char>,
>
    decreases n,
{
    if n <= 0 {
        None
    } else {
        match lookup(environment, name, n - 1) {
            Some(v) => Some(v),
            None => if environment[n - 1].0@ == name {
                Some(environment[n - 1].1@)
            } else {
                None
            },
        }
    }
}

/// Whether a variable names the stock model library: any `..3DMODEL_DIR`, or
/// the old `KISYS3DMOD`.
pub open spec fn names_model_library(name: Seq<char>) -> bool {
    let suffix = "3DMODEL_DIR"@;
    ||| (name.len() >= suffix.len() && name.subrange(name.len() - suffix.len(), name.len() as int)
        == suffix)
    ||| name == "KISYS3DMOD"@
}

/// What `${name}` (written out as `written`) stands for: the project
/// directory, the model library from the environment or else `default_dir`,
/// or, for a variable only KiCad knows, itself.
pub open spec fn variable_value(
    name: Seq<char>,
    written: Seq<char>,
    project_dir: Seq<char>,
    environment: Seq<(String, String)>,
    default_dir: Seq<char>,
) -> Seq<char> {
    if name == "KIPRJMOD"@ {
        project_dir
    } else if names_model_library(name) {
        match lookup(environment, name, environment.len() as int) {
            Some(v) => v,
            None => default_dir,
        }
    } else {
        written
    }
}

/// `s` from position `pos` on with its variables expanded. An opening `${`
/// that is never closed ends the expansion: the text before it is written,
/// then everything from `pos` on as it stands.
pub open spec fn expanded_from(
    s: Seq<char>,
    pos: int,
    project_dir: Seq<char>,
    environment: Seq<(String, String)>,
    default_dir: Seq<char>,
) -> Seq<char>
    decreases s.len() - pos,
{
    if pos < 0 || pos > s.len() {
        Seq::empty()
    } else {
        match opening_from(s, pos) {
            None => s.subrange(pos, s.len() as int),
            Some(start) => {
                proof {
                    lemma_opening_from(s, pos);
                }
                match closing_from(s, start) {
                    None => s.subrange(pos, start) + s.subrange(pos, s.len() as int),
                    Some(end) => {
                        proof {
                            lemma_closing_from(s, start);
                        }
                        s.subrange(pos, start) + variable_value(
                            s.subrange(start + 2, end),
                            s.subrange(start, end + 1),
                            project_dir,
                            environment,
                            default_dir,
                        ) + expanded_from(s, end + 1, project_dir, environment, default_dir)
                    },
                }
            },
        }
    }
}

pub proof fn lemma_opening_from(s: Seq<char>, from: int)
    requires
        0 <= from,
    ensures
        opening_from(s, from) matches Some(i) ==> from <= i && i + 1 < s.len() && s[i] == '$'
            && s[i + 1] == '{',
        forall|k: int|
            from <= k && k + 1 < s.len() && (opening_from(s, from) matches Some(i) ==> k < i) ==> !(
            #[trigger] s[k] == '$' && s[k + 1] == '{'),
    decreases s.len() - from,
{
    if from >= 0 && from + 1 < s.len() && !(s[from] == '$' && s[from + 1] == '{') {
        lemma_opening_from(s, from + 1);
    }
}

pub proof fn lemma_closing_from(s: Seq<char>, from: int)
    requires
        0 <= from,
    ensures
        closing_from(s, from) matches Some(i) ==> from <= i < s.len() && s[i] == '}',
        forall|k: int|
            from <= k < s.len() && (closing_from(s, from) matches Some(i) ==> k < i) ==> #[trigger] s[k]
                != '}',
    decreases s.len() - from,
{
    if from >= 0 && from < s.len() && s[from] != '}' {
        lemma_closing_from(s, from + 1);
    }
}

/// Whether a variable names the stock model library.
fn is_model_library(name: &str) -> (r: bool)
    ensures
        r == names_model_library(name@),
{
    let len = name.unicode_len();
    let suffix = "3DMODEL_DIR";
    proof {
        reveal_strlit("3DMODEL_DIR");
    }
    if len >= 11 && str_eq(name.substring_char(len - 11, len), suffix) {
        return true;
    }
    str_eq(name, "KISYS3DMOD")
}

/// The value of the first entry of `environment` named `name`.
fn lookup_value<'a>(environment: &'a [(String, String)], name: &str) -> (r: Option<&'a str>)
    ensures
        match lookup(environment@, name@, environment@.len() as int) {
            Some(v) => r matches Some(s) && s@ == v,
            None => r is None,
        },
{
    let mut i: usize = 0;
    while i < environment.len()
        invariant
            i <= environment@.len(),
            lookup(environment@, name@, i as int) is None,
        decreases environment.len() - i,
    {
        if str_eq(environment[i].0.as_str(), name) {
            proof {
                lemma_lookup_stable(environment@, name@, i + 1, environment@.len() as int);
            }
            return Some(environment[i].1.as_str());
        }
        i = i + 1;
    }
    None
}

proof fn lemma_lookup_stable(environment: Seq<(String, String)>, name: Seq<char>, m: int, n: int)
    requires
        0 <= m <= n,
        lookup(environment, name, m) is Some,
    ensures
        lookup(environment, name, n) == lookup(environment, name, m),
    decreases n - m,
{
    if m < n {
        lemma_lookup_stable(environment, name, m, n - 1);
    }
}

/// Substitutes the KiCad path variables a model reference may use.
///
/// `${KIPRJMOD}` becomes `project_dir`; a model-library variable takes its
/// value from `environment`, or `default_dir` when it is not set there; any
/// other variable is left as written, so a "not found" message shows what the
/// board actually said.
pub fn expand(
    raw: &str,
    project_dir: &str,
    environment: &[(String, String)],
    default_dir: &str,
) -> (r: String)
    ensures
        r@ == expanded_from(raw@, 0, project_dir@, environment@, default_dir@),
{
    let ghost s = raw@;
    let ghost whole = expanded_from(s, 0, project_dir@, environment@, default_dir@);
    let chars = chars_of(raw);
    let len = chars.len();
    let mut out = String::new();
    let mut pos: usize = 0;
    assert(out@ + expanded_from(s, 0, project_dir@, environment@, default_dir@) =~= whole);
    loop
        invariant
            pos <= len,
            len == s.len(),
            chars@ == s,
            s == raw@,
            whole == expanded_from(s, 0, project_dir@, environment@, default_dir@),
            out@ + expanded_from(s, pos as int, project_dir@, environment@, default_dir@) == whole,
        decreases len - pos,
    {
        // The next `${`.
        let mut start = pos;
        while start < len && start + 1 < len && !(chars[start] == '$' && chars[start + 1] == '{')
            invariant
                pos <= start <= len,
                len == s.len(),
                chars@ == s,
                opening_from(s, pos as int) == opening_from(s, start as int),
            decreases len - start,
        {
            start = start + 1;
        }
        proof {
            lemma_opening_from(s, pos as int);
        }
        if start >= len || start + 1 >= len {
            assert(opening_from(s, pos as int) is None);
            let rest = raw.substring_char(pos, len);
            out.append(rest);
            assert(out@ =~= whole);
            return out;
        }
        assert(opening_from(s, pos as int) == Some(start as int));
        // The `}` that closes it.
        let mut end = start;
        while end < len && chars[end] != '}'
            invariant
                start <= end <= len,
                len == s.len(),
                chars@ == s,
                closing_from(s, start as int) == closing_from(s, end as int),
            decreases len - end,
        {
            end = end + 1;
        }
        proof {
            lemma_closing_from(s, start as int);
        }
        let before = raw.substring_char(pos, start);
        if end >= len {
            assert(closing_from(s, start as int) is None);
            out.append(before);
            let rest = raw.substring_char(pos, len);
            out.append(rest);
            assert(out@ =~= whole);
            return out;
        }
        assert(closing_from(s, start as int) == Some(end as int));
        out.append(before);
        let name = raw.substring_char(start + 2, end);
        if str_eq(name, "KIPRJMOD") {
            out.append(project_dir);
        } else if is_model_library(name) {
            match lookup_value(environment, name) {
                Some(value) => out.append(value),
                None => out.append(default_dir),
            }
        } else {
            let written = raw.substring_char(start, end + 1);
            out.append(written);
        }
        assert(out@ + expanded_from(s, end + 1, project_dir@, environment@, default_dir@)
            =~= whole);
        pos = end + 1;
    }
}

/// The entry at `k` of the environment is the first named `name`.
pub open spec fn first_named_entry(environment: Seq<(String, String)>, name: Seq<char>, k: int) -> bool {
    &&& 0 <= k < environment.len()
    &&& environment[k].0@ == name
    &&& forall|j: int| 0 <= j < k ==> #[trigger] environment[j].0@ != name
}

proof fn lemma_lookup_at(environment: Seq<(String, String)>, name: Seq<char>, k: int, n: int)
    requires
        first_named_entry(environment, name, k),
        k < n <= environment.len(),
    ensures
        lookup(environment, name, n) == Some(environment[k].1@),
    decreases n,
{
    if n - 1 > k {
        lemma_lookup_at(environment, name, k, n - 1);
    } else {
        lemma_lookup_none(environment, name, k);
    }
}

proof fn lemma_lookup_none(environment: Seq<(String, String)>, name: Seq<char>, n: int)
    requires
        0 <= n <= environment.len(),
        forall|j: int| 0 <= j < n ==> #[trigger] environment[j].0@ != name,
    ensures
        lookup(environment, name, n) is None,
    decreases n,
{
    if n > 0 {
        lemma_lookup_none(environment, name, n - 1);
    }
}

/// The first `}` at or after `from` is at `at`.
proof fn lemma_closing_at(s: Seq<char>, from: int, at: int)
    requires
        0 <= from <= at < s.len(),
        s[at] == '}',
        forall|k: int| from <= k < at ==> #[trigger] s[k] != '}',
    ensures
        closing_from(s, from) == Some(at),
    decreases at - from,
{
    if from < at {
        lemma_closing_at(s, from + 1, at);
    }
}

/// A model-library variable that the environment sets takes the value of
/// the environment's first entry of that name, wherever that entry stands;
/// one that the environment does not set takes the default directory.
/// `${name}` alone expands to exactly that value.
pub proof fn lemma_model_library_variable_comes_from_the_environment(
    name: Seq<char>,
    project_dir: Seq<char>,
    environment: Seq<(String, String)>,
    default_dir: Seq<char>,
)
    requires
        names_model_library(name),
        forall|i: int| 0 <= i < name.len() ==> #[trigger] name[i] != '}',
    ensures
        forall|k: int|
            #[trigger] first_named_entry(environment, name, k) ==> expanded_from(
                "${"@ + name + "}"@,
                0,
                project_dir,
                environment,
                default_dir,
            ) == environment[k].1@,
        (forall|j: int| 0 <= j < environment.len() ==> #[trigger] environment[j].0@ != name)
            ==> expanded_from("${"@ + name + "}"@, 0, project_dir, environment, default_dir)
            == default_dir,
{
    reveal_strlit("${");
    reveal_strlit("}");
    reveal_strlit("KIPRJMOD");
    reveal_strlit("KISYS3DMOD");
    reveal_strlit("3DMODEL_DIR");
    let s = "${"@ + name + "}"@;
    let end: int = name.len() as int + 2;
    assert(s[0] == '$' && s[1] == '{');
    assert(opening_from(s, 0) == Some(0int));
    assert(s[end] == '}');
    assert forall|k: int| 0 <= k < end implies #[trigger] s[k] != '}' by {
        if k >= 2 {
            assert(s[k] == name[k - 2]);
        }
    }
    lemma_closing_at(s, 0, end);
    assert(s.subrange(2, end) =~= name);
    assert(s.subrange(0, 0) =~= Seq::<char>::empty());
    assert(name != "KIPRJMOD"@) by {
        if name == "KIPRJMOD"@ {
            assert(name.len() == 8);
            assert(name[2] == 'P');
        }
    }
    assert(opening_from(s, end + 1) is None);
    assert(s.subrange(end + 1, s.len() as int) =~= Seq::<char>::empty());
    assert(expanded_from(s, end + 1, project_dir, environment, default_dir) =~= Seq::<char>::empty());
    assert forall|k: int| #[trigger] first_named_entry(environment, name, k) implies expanded_from(
        s,
        0,
        project_dir,
        environment,
        default_dir,
    ) == environment[k].1@ by {
        lemma_lookup_at(environment, name, k, environment.len() as int);
        assert(Seq::<char>::empty() + environment[k].1@ + Seq::<char>::empty() =~= environment[k].1@);
    }
    if forall|j: int| 0 <= j < environment.len() ==> #[trigger] environment[j].0@ != name {
        lemma_lookup_none(environment, name, environment.len() as int);
        assert(Seq::<char>::empty() + default_dir + Seq::<char>::empty() =~= default_dir);
    }
}

} // verus!
