//! Operations on text: comparison, splitting on a separator, and decimal
//! numbers.

use vstd::prelude::*;
use vstd::string::StringSliceAdditionalSpecFns;

verus! {

broadcast use vstd::utf8::encode_utf8_decode_utf8;

/// Relies on `String::push`: appends one character.
#[verifier::external_body]
pub(crate) fn push_char(s: &mut String, c: char)
    ensures
        final(s)@ == old(s)@.push(c),
{
    s.push(c);
}

/// Whether two texts are equal.
pub fn text_eq(a: &str, b: &str) -> (r: bool)
    ensures
        r == (a@ == b@),
{
    let x = a.as_bytes();
    let y = b.as_bytes();
    if x.len() != y.len() {
        proof {
            if a@ == b@ {
                assert(x@ == y@);
            }
        }
        return false;
    }
    let mut i: usize = 0;
    while i < x.len()
        invariant
            x@ == a.spec_bytes(),
            y@ == b.spec_bytes(),
            x.len() == y.len(),
            i <= x.len(),
            forall|j: int| 0 <= j < i ==> x@[j] == y@[j],
        decreases x.len() - i,
    {
        if x[i] != y[i] {
            return false;
        }
        i = i + 1;
    }
    proof {
        assert(x@ =~= y@);
        assert(vstd::utf8::decode_utf8(a.spec_bytes()) == a@);
        assert(vstd::utf8::decode_utf8(b.spec_bytes()) == b@);
    }
    true
}

/// The parts of `s` between the occurrences of `sep`: one more part than
/// there are separators.
pub open spec fn split_on(s: Seq<char>, sep: char) -> Seq<Seq<char>>
    decreases s.len(),
{
    if s.len() == 0 {
        seq![Seq::empty()]
    } else {
        let init = split_on(s.drop_last(), sep);
        if s.last() == sep {
            init.push(Seq::empty())
        } else {
            init.update(init.len() - 1, init.last().push(s.last()))
        }
    }
}

proof fn lemma_split_nonempty(s: Seq<char>, sep: char)
    ensures
        split_on(s, sep).len() >= 1,
    decreases s.len(),
{
    if s.len() > 0 {
        lemma_split_nonempty(s.drop_last(), sep);
    }
}

/// The views of a list of strings.
pub open spec fn views(v: Seq<String>) -> Seq<Seq<char>> {
    v.map_values(|s: String| s@)
}

/// Splits `s` at every `|`.
pub fn split_pipe(s: &str) -> (r: Vec<String>)
    ensures
        views(r@) == split_on(s@, '|'),
{
    let mut parts: Vec<String> = Vec::new();
    let mut cur = String::new();
    let ghost mut seen: Seq<char> = Seq::empty();
    for c in it: s.chars()
        invariant
            it.seq() == s@,
            seen == s@.take(it.index() as int),
            views(parts@).push(cur@) == split_on(seen, '|'),
    {
        proof {
            lemma_split_nonempty(seen, '|');
        }
        let ghost prev = seen;
        proof {
            seen = seen.push(c);
            assert(seen.drop_last() == prev);
        }
        if c == '|' {
            let mut done = String::new();
            std::mem::swap(&mut cur, &mut done);
            parts.push(done);
            assert(views(parts@).push(cur@) =~= split_on(seen, '|'));
        } else {
            push_char(&mut cur, c);
            assert(views(parts@).push(cur@) =~= split_on(seen, '|'));
        }
    }
    assert(seen =~= s@);
    parts.push(cur);
    assert(views(parts@) =~= split_on(s@, '|'));
    parts
}

pub open spec fn is_digit(c: char) -> bool {
    '0' <= c && c <= '9'
}

pub open spec fn digit_value(c: char) -> int {
    c as int - '0' as int
}

pub open spec fn all_digits(s: Seq<char>) -> bool {
    forall|i: int| 0 <= i < s.len() ==> is_digit(#[trigger] s[i])
}

/// The number that a sequence of decimal digits writes.
pub open spec fn digits_value(s: Seq<char>) -> int
    decreases s.len(),
{
    if s.len() == 0 {
        0
    } else {
        digits_value(s.drop_last()) * 10 + digit_value(s.last())
    }
}

/// The digits of a decimal: what follows a leading `+`, if there is one.
pub open spec fn digits_part(s: Seq<char>) -> Seq<char> {
    if s.len() > 0 && s[0] == '+' {
        s.skip(1)
    } else {
        s
    }
}

/// What `u64::from_str` accepts: an optional `+` and then one or more
/// decimal digits, whose value fits in 64 bits.
pub open spec fn decimal_u64(s: Seq<char>) -> Option<u64> {
    let d = digits_part(s);
    if d.len() > 0 && all_digits(d) && digits_value(d) <= u64::MAX {
        Some(digits_value(d) as u64)
    } else {
        None
    }
}

proof fn lemma_digits_prefix(s: Seq<char>, k: int)
    requires
        all_digits(s),
        0 <= k <= s.len(),
    ensures
        0 <= digits_value(s.take(k)) <= digits_value(s),
    decreases s.len(),
{
    if s.len() > 0 {
        assert(all_digits(s.drop_last()));
        if k < s.len() {
            assert(s.drop_last().take(k) =~= s.take(k));
            lemma_digits_prefix(s.drop_last(), k);
        } else {
            assert(s.take(k) =~= s);
            lemma_digits_prefix(s.drop_last(), k - 1);
        }
        assert(is_digit(s[s.len() - 1]));
    }
}

/// Reads a decimal number as `u64::from_str` does.
pub fn parse_u64(s: &str) -> (r: Option<u64>)
    ensures
        r == decimal_u64(s@),
{
    let ghost off: int = if s@.len() > 0 && s@[0] == '+' {
        1
    } else {
        0
    };
    let mut value: u64 = 0;
    let mut first = true;
    let mut any = false;
    for c in it: s.chars()
        invariant
            it.seq() == s@,
            off == (if s@.len() > 0 && s@[0] == '+' {
                1int
            } else {
                0int
            }),
            first == (it.index() == 0),
            first ==> value == 0,
            any == (it.index() > off),
            it.index() > 0 ==> {
                let d = s@.subrange(off, it.index() as int);
                &&& it.index() >= off
                &&& all_digits(d)
                &&& value == digits_value(d)
            },
    {
        let ghost k = it.index() as int;
        if first && c == '+' {
            proof {
                assert(s@.subrange(off, k + 1) =~= Seq::<char>::empty());
            }
        } else {
            let ghost prev = s@.subrange(off, k);
            let ghost next = s@.subrange(off, k + 1);
            proof {
                if k == 0 {
                    assert(prev =~= Seq::<char>::empty());
                }
                assert(c == s@[k]);
                assert(next.drop_last() =~= prev);
                assert(next.last() == c);
                assert(digits_value(next) == digits_value(prev) * 10 + digit_value(c));
                assert(digits_part(s@) =~= s@.skip(off));
                assert(digits_part(s@).take(k + 1 - off) =~= next);
            }
            if c < '0' || c > '9' {
                proof {
                    assert(digits_part(s@)[k - off] == c);
                }
                return None;
            }
            let d = (c as u32 - '0' as u32) as u64;
            assert(d == digit_value(c));
            assert(all_digits(next)) by {
                assert forall|i: int| 0 <= i < next.len() implies is_digit(#[trigger] next[i]) by {
                    if i < prev.len() {
                        assert(next[i] == prev[i]);
                    }
                }
            }
            let scaled = value.checked_mul(10);
            let sum = match scaled {
                Some(t) => t.checked_add(d),
                None => None,
            };
            match sum {
                Some(v) => {
                    assert(v == value * 10 + d);
                    value = v;
                    any = true;
                },
                None => {
                    assert(value * 10 + d > u64::MAX);
                    proof {
                        if all_digits(digits_part(s@)) {
                            lemma_digits_prefix(digits_part(s@), k + 1 - off);
                        }
                    }
                    return None;
                },
            }
        }
        first = false;
    }
    proof {
        assert(digits_part(s@) =~= s@.subrange(off, s@.len() as int));
    }
    if any {
        Some(value)
    } else {
        None
    }
}

/// The characters with Unicode's `White_Space` property.
pub open spec fn white_space(c: char) -> bool {
    ('\u{9}' <= c && c <= '\u{d}') || c == ' ' || c == '\u{85}' || c == '\u{a0}' || c == '\u{1680}'
        || ('\u{2000}' <= c && c <= '\u{200a}') || c == '\u{2028}' || c == '\u{2029}' || c
        == '\u{202f}' || c == '\u{205f}' || c == '\u{3000}'
}

pub open spec fn trim_start(s: Seq<char>) -> Seq<char>
    decreases s.len(),
{
    if s.len() > 0 && white_space(s[0]) {
        trim_start(s.skip(1))
    } else {
        s
    }
}

pub open spec fn trim_end(s: Seq<char>) -> Seq<char>
    decreases s.len(),
{
    if s.len() > 0 && white_space(s.last()) {
        trim_end(s.drop_last())
    } else {
        s
    }
}

/// `s` without its leading and trailing white space.
pub open spec fn trimmed(s: Seq<char>) -> Seq<char> {
    trim_end(trim_start(s))
}

/// Relies on `str::trim`: it removes the leading and trailing characters
/// with the `White_Space` property.
#[verifier::external_body]
pub(crate) fn trim(s: &str) -> (r: &str)
    ensures
        r@ == trimmed(s@),
{
    s.trim()
}

} // verus!
