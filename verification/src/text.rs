//! Text helpers shared by the reader and the planners.

use vstd::prelude::*;
use vstd::string::StringSliceAdditionalSpecFns;
use vstd::utf8::*;

verus! {

broadcast use vstd::utf8::group_utf8_lib;

/// The characters of each string in a list.
pub open spec fn str_views(list: Seq<&str>) -> Seq<Seq<char>> {
    list.map_values(|s: &str| s@)
}

/// The characters of each owned string in a list.
pub open spec fn string_views(list: Seq<String>) -> Seq<Seq<char>> {
    list.map_values(|s: String| s@)
}

/// Decodes a run of bytes as UTF-8, through `std::str::from_utf8`.
///
/// Trusted: the standard library documents that `from_utf8` succeeds exactly
/// when the bytes are valid UTF-8 and that the string it returns is made of
/// those very bytes.
#[verifier::external_body]
pub(crate) fn utf8_str(bytes: &[u8]) -> (r: Option<&str>)
    ensures
        r is Some <==> valid_utf8(bytes@),
        r matches Some(s) ==> s.spec_bytes() == bytes@,
{
    std::str::from_utf8(bytes).ok()
}

/// Appends one character, through `String::push`.
///
/// Trusted: the standard library documents that `push` appends the character
/// to the end of the string.
#[verifier::external_body]
pub(crate) fn push_char(s: &mut String, c: char)
    ensures
        final(s)@ == old(s)@.push(c),
{
    s.push(c);
}

/// A string's characters are fixed by its UTF-8 bytes.
pub proof fn lemma_str_from_bytes(s: &str, bytes: Seq<u8>)
    requires
        s.spec_bytes() == bytes,
    ensures
        valid_utf8(bytes),
        s@ == decode_utf8(bytes),
{
}

/// Equality of two string slices, compared byte by byte.
pub fn str_eq(a: &str, b: &str) -> (r: bool)
    ensures
        r == (a@ == b@),
{
    let x = a.as_bytes();
    let y = b.as_bytes();
    proof {
        lemma_str_from_bytes(a, x@);
        lemma_str_from_bytes(b, y@);
    }
    if x.len() != y.len() {
        return false;
    }
    let mut i: usize = 0;
    while i < x.len()
        invariant
            x.len() == y.len(),
            x@ == a.spec_bytes(),
            y@ == b.spec_bytes(),
            i <= x.len(),
            forall|j: int| 0 <= j < i ==> x@[j] == y@[j],
        decreases x.len() - i,
    {
        if x[i] != y[i] {
            assert(x@[i as int] != y@[i as int]);
            assert(a@ != b@) by {
                if a@ == b@ {
                    assert(x@ == y@);
                }
            }
            return false;
        }
        i = i + 1;
    }
    assert(x@ =~= y@);
    true
}

/// True when `s` is one of `list`.
pub fn contains_str(list: &[&str], s: &str) -> (r: bool)
    ensures
        r == str_views(list@).contains(s@),
{
    let mut i: usize = 0;
    while i < list.len()
        invariant
            i <= list.len(),
            forall|j: int| 0 <= j < i ==> list@[j]@ != s@,
        decreases list.len() - i,
    {
        if str_eq(list[i], s) {
            assert(str_views(list@)[i as int] == s@);
            return true;
        }
        i = i + 1;
    }
    assert forall|j: int| 0 <= j < str_views(list@).len() implies str_views(list@)[j] != s@ by {
        assert(str_views(list@)[j] == list@[j]@);
    }
    false
}

/// True when `s` is one of `list`.
pub fn contains_string(list: &Vec<String>, s: &str) -> (r: bool)
    ensures
        r == string_views(list@).contains(s@),
{
    let mut i: usize = 0;
    while i < list.len()
        invariant
            i <= list.len(),
            forall|j: int| 0 <= j < i ==> list@[j]@ != s@,
        decreases list.len() - i,
    {
        if str_eq(list[i].as_str(), s) {
            assert(string_views(list@)[i as int] == s@);
            return true;
        }
        i = i + 1;
    }
    assert forall|j: int| 0 <= j < string_views(list@).len() implies string_views(list@)[j] != s@ by {
        assert(string_views(list@)[j] == list@[j]@);
    }
    false
}

/// The character of a decimal digit.
pub open spec fn digit_char(d: int) -> char {
    (d + 48) as char
}

/// A decimal digit character.
pub open spec fn is_digit(c: char) -> bool {
    48 <= c as u32 <= 57
}

/// The decimal digits of `n`, most significant first, without leading zeros.
pub open spec fn decimal(n: nat) -> Seq<char>
    decreases n,
{
    if n < 10 {
        seq![digit_char(n as int)]
    } else {
        decimal(n / 10).push(digit_char((n % 10) as int))
    }
}

/// The number a run of decimal digits spells.
pub open spec fn digits_value(s: Seq<char>) -> int
    decreases s.len(),
{
    if s.len() == 0 {
        0
    } else {
        digits_value(s.drop_last()) * 10 + (s.last() as u32 - 48)
    }
}

/// Every character is a decimal digit.
pub open spec fn all_digits(s: Seq<char>) -> bool {
    forall|i: int| 0 <= i < s.len() ==> is_digit(#[trigger] s[i])
}

/// What `str::parse::<i32>` gives for these characters: an optional `+` or
/// `-`, then at least one decimal digit and nothing else, with a value that
/// fits in an `i32`.
pub open spec fn parse_i32(s: Seq<char>) -> Option<i32> {
    let negative = s.len() > 0 && s[0] == '-';
    let signed = s.len() > 0 && (s[0] == '-' || s[0] == '+');
    let body = if signed {
        s.skip(1)
    } else {
        s
    };
    if body.len() == 0 || !all_digits(body) {
        None
    } else {
        let value = if negative {
            -digits_value(body)
        } else {
            digits_value(body)
        };
        if i32::MIN <= value <= i32::MAX {
            Some(value as i32)
        } else {
            None
        }
    }
}

pub proof fn lemma_decimal(n: nat)
    ensures
        decimal(n).len() >= 1,
        all_digits(decimal(n)),
        digits_value(decimal(n)) == n,
        decimal(n)[0] != '-' && decimal(n)[0] != '+',
    decreases n,
{
    assert(digit_char(n as int % 10) as u32 == n % 10 + 48);
    if n >= 10 {
        lemma_decimal(n / 10);
        let d = decimal(n);
        assert(d.drop_last() =~= decimal(n / 10));
        assert(digit_char((n % 10) as int) as u32 == (n % 10) + 48);
        assert(d.last() == digit_char((n % 10) as int));
        assert(digits_value(d) == digits_value(d.drop_last()) * 10 + (n % 10));
        assert((n / 10) * 10 + n % 10 == n) by (nonlinear_arith);
        assert(digits_value(d.drop_last()) == n / 10);
        assert(digits_value(d) == n);
        assert forall|i: int| 0 <= i < d.len() implies is_digit(#[trigger] d[i]) by {
            if i < d.len() - 1 {
                assert(d[i] == decimal(n / 10)[i]);
            }
        }
    } else {
        let d = decimal(n);
        assert(d.drop_last() =~= Seq::<char>::empty());
        assert(d.last() == digit_char(n as int));
        assert(n % 10 == n);
        assert(digits_value(d.drop_last()) == 0);
        assert(digits_value(d) == n);
    }
}

/// Decimal digits never spell less than any run of digits they start with.
pub proof fn lemma_digits_prefix(s: Seq<char>, i: int)
    requires
        0 <= i <= s.len(),
        all_digits(s),
    ensures
        digits_value(s) >= digits_value(s.take(i)) >= 0,
    decreases s.len(),
{
    if s.len() > 0 {
        assert(all_digits(s.drop_last()));
        if i == s.len() {
            assert(s.take(i) =~= s);
            lemma_digits_prefix(s.drop_last(), 0);
            assert(s.drop_last().take(0) =~= s.take(0));
        } else {
            lemma_digits_prefix(s.drop_last(), i);
            assert(s.drop_last().take(i) =~= s.take(i));
        }
    } else {
        assert(s.take(i) =~= s);
    }
}

/// Appends the decimal digits of `n`.
pub fn push_decimal(s: &mut String, n: u32)
    ensures
        final(s)@ == old(s)@ + decimal(n as nat),
    decreases n,
{
    if n >= 10 {
        push_decimal(s, n / 10);
    }
    let d = (n % 10) as u8;
    push_char(s, (0x30u8 + d) as char);
    if n >= 10 {
        assert(decimal(n as nat) == decimal((n / 10) as nat).push(digit_char((n % 10) as int)));
    }
}

/// Parses the characters of `text` from `from` on, as `str::parse::<i32>`
/// would parse them.
pub fn parse_i32_from(text: &str, from: usize) -> (r: Option<i32>)
    requires
        from <= text@.len(),
    ensures
        r == parse_i32(text@.skip(from as int)),
{
    let ghost s = text@.skip(from as int);
    let len = text.unicode_len();
    let mut i = from;
    let mut negative = false;
    if i < len {
        let c = text.get_char(i);
        if c == '-' {
            negative = true;
            i = i + 1;
        } else if c == '+' {
            i = i + 1;
        }
    }
    let ghost body = text@.skip(i as int);
    assert(body =~= (if s.len() > 0 && (s[0] == '-' || s[0] == '+') {
        s.skip(1)
    } else {
        s
    }));
    if i >= len {
        return None;
    }
    let start = i;
    let mut value: i64 = 0;
    assert(body.take(0) =~= Seq::<char>::empty());
    while i < len
        invariant
            from <= start <= i <= len,
            len == text@.len(),
            body == text@.skip(start as int),
            s == text@.skip(from as int),
            body =~= (if s.len() > 0 && (s[0] == '-' || s[0] == '+') {
                s.skip(1)
            } else {
                s
            }),
            negative == (s.len() > 0 && s[0] == '-'),
            all_digits(body.take(i - start)),
            value == digits_value(body.take(i - start)),
            0 <= value <= 2147483648,
        decreases len - i,
    {
        let c = text.get_char(i);
        assert(body[i - start] == c);
        if !(c >= '0' && c <= '9') {
            assert(!is_digit(c));
            assert(!all_digits(body));
            return None;
        }
        let ghost next = body.take(i - start + 1);
        assert(next.drop_last() =~= body.take(i - start));
        assert(all_digits(next));
        let d = (c as u32 - 48) as i64;
        value = value * 10 + d;
        i = i + 1;
        if value > 2147483648 {
            proof {
                if all_digits(body) {
                    lemma_digits_prefix(body, i - start);
                }
            }
            return None;
        }
    }
    assert(body.take(i - start) =~= body);
    if negative {
        Some((0 - value) as i32)
    } else if value > 2147483647 {
        None
    } else {
        Some(value as i32)
    }
}


/// The characters of a string slice, in order.
pub fn chars_of(s: &str) -> (r: Vec<char>)
    ensures
        r@ == s@,
{
    broadcast use vstd::string::axiom_spec_iter;
    let mut out: Vec<char> = Vec::new();
    for c in it: s.chars()
        invariant
            out@ == it.seq().take(it.index() as int),
            it.seq() == s@,
    {
        out.push(c);
    }
    out
}

} // verus!
