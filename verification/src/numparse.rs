//! The text grammars of `str::parse` for `u64`, `i64` and `f64`, as
//! documented for std's `FromStr` impls, with checkers proved against them.

use vstd::prelude::*;
use crate::text::{ascii_lower, ascii_lower_of, chars_eq_str, slice_chars};

verus! {

pub open spec fn is_digit(c: char) -> bool {
    '0' <= c && c <= '9'
}

pub open spec fn all_digits(s: Seq<char>) -> bool {
    forall|i: int| 0 <= i < s.len() ==> #[trigger] is_digit(s[i])
}

pub open spec fn digit_val(c: char) -> nat {
    ((c as int) - ('0' as int)) as nat
}

/// Value of a run of decimal digits.
pub open spec fn digits_value(s: Seq<char>) -> nat
    decreases s.len(),
{
    if s.len() == 0 {
        0
    } else {
        digits_value(s.drop_last()) * 10 + digit_val(s.last())
    }
}

/// `s` without one leading `+` or `-`.
pub open spec fn sign_stripped(s: Seq<char>) -> Seq<char> {
    if s.len() > 0 && (s[0] == '+' || s[0] == '-') {
        s.drop_first()
    } else {
        s
    }
}

/// `s.parse::<u64>()`: an optional `+`, then one or more digits whose value
/// fits in 64 bits.
pub open spec fn u64_text(s: Seq<char>) -> Option<u64> {
    let d = if s.len() > 0 && s[0] == '+' { s.drop_first() } else { s };
    if d.len() > 0 && all_digits(d) && digits_value(d) <= u64::MAX {
        Some(digits_value(d) as u64)
    } else {
        None
    }
}

/// `s.parse::<i64>().is_ok()`: an optional sign, then one or more digits whose
/// signed value lies in the `i64` range.
pub open spec fn i64_text_ok(s: Seq<char>) -> bool {
    let d = sign_stripped(s);
    let neg = s.len() > 0 && s[0] == '-';
    d.len() > 0 && all_digits(d) && (if neg {
        digits_value(d) <= 0x8000_0000_0000_0000
    } else {
        digits_value(d) <= 0x7fff_ffff_ffff_ffff
    })
}

/// Index of the first `c` in `s`, or `s.len()`.
pub open spec fn index_of(s: Seq<char>, c: char) -> int
    decreases s.len(),
{
    if s.len() == 0 {
        0
    } else if s[0] == c {
        0
    } else {
        1 + index_of(s.drop_first(), c)
    }
}

/// `Digit+ | Digit+ '.' Digit* | Digit* '.' Digit+`
pub open spec fn mantissa_ok(m: Seq<char>) -> bool {
    let p = index_of(m, '.');
    let a = m.subrange(0, p);
    let b = if p < m.len() { m.subrange(p + 1, m.len() as int) } else { Seq::<char>::empty() };
    all_digits(a) && all_digits(b) && a.len() + b.len() > 0
}

/// `('e' Sign? Digit+)?`
pub open spec fn exponent_ok(x: Seq<char>) -> bool {
    x.len() == 0 || (x[0] == 'e' && sign_stripped(x.drop_first()).len() > 0 && all_digits(
        sign_stripped(x.drop_first()),
    ))
}

/// `Number ::= Mantissa Exp?` on a lower-cased string.
pub open spec fn number_ok(t: Seq<char>) -> bool {
    let i = index_of(t, 'e');
    mantissa_ok(t.subrange(0, i)) && exponent_ok(t.subrange(i, t.len() as int))
}

/// `s.parse::<f64>().is_ok()`: the lower-cased text matches
/// `Sign? ('inf' | 'infinity' | 'nan' | Number)`.
pub open spec fn f64_text_ok(s: Seq<char>) -> bool {
    let t = ascii_lower(sign_stripped(s));
    t == "inf"@ || t == "infinity"@ || t == "nan"@ || number_ok(t)
}

proof fn lemma_digits_value_step(s: Seq<char>, i: int)
    requires
        0 <= i < s.len(),
    ensures
        digits_value(s.subrange(0, i + 1)) == digits_value(s.subrange(0, i)) * 10 + digit_val(s[i]),
{
    assert(s.subrange(0, i + 1).drop_last() =~= s.subrange(0, i));
}

proof fn lemma_digits_value_prefix(s: Seq<char>, i: int)
    requires
        0 <= i <= s.len(),
    ensures
        digits_value(s.subrange(0, i)) <= digits_value(s),
    decreases s.len() - i,
{
    if i < s.len() {
        lemma_digits_value_step(s, i);
        lemma_digits_value_prefix(s, i + 1);
    } else {
        assert(s.subrange(0, i) =~= s);
    }
}

pub(crate) proof fn lemma_index_of(s: Seq<char>, c: char, i: int)
    requires
        0 <= i <= s.len(),
        forall|j: int| 0 <= j < i ==> s[j] != c,
        i == s.len() || s[i] == c,
    ensures
        index_of(s, c) == i,
    decreases i,
{
    if i > 0 {
        lemma_index_of(s.drop_first(), c, i - 1);
    }
}

/// Position of the first `c` in `s` (or its length).
pub fn index_of_exec(s: &[char], c: char) -> (r: usize)
    ensures
        r as int == index_of(s@, c),
        r <= s.len(),
{
    let mut i: usize = 0;
    while i < s.len() && s[i] != c
        invariant
            i <= s.len(),
            forall|j: int| 0 <= j < i ==> s@[j] != c,
        decreases s.len() - i,
    {
        i += 1;
    }
    proof {
        lemma_index_of(s@, c, i as int);
    }
    i
}

pub fn all_digits_exec(s: &[char]) -> (r: bool)
    ensures
        r == all_digits(s@),
{
    let mut i: usize = 0;
    while i < s.len()
        invariant
            i <= s.len(),
            forall|j: int| 0 <= j < i ==> #[trigger] is_digit(s@[j]),
        decreases s.len() - i,
    {
        if !('0' <= s[i] && s[i] <= '9') {
            assert(!is_digit(s@[i as int]));
            return false;
        }
        i += 1;
    }
    true
}

/// Value of the digits in `s[from..]`, when they are all digits, there is at
/// least one, and the value is at most `limit`.
fn digits_at_most(s: &[char], from: usize, limit: u64) -> (r: Option<u64>)
    requires
        from <= s.len(),
    ensures
        ({
            let d = s@.subrange(from as int, s@.len() as int);
            match r {
                Some(v) => d.len() > 0 && all_digits(d) && digits_value(d) <= limit && v
                    == digits_value(d),
                None => !(d.len() > 0 && all_digits(d) && digits_value(d) <= limit),
            }
        }),
{
    let ghost d = s@.subrange(from as int, s@.len() as int);
    if from == s.len() {
        return None;
    }
    let mut acc: u64 = 0;
    let mut i: usize = from;
    while i < s.len()
        invariant
            from <= i <= s.len(),
            d == s@.subrange(from as int, s@.len() as int),
            all_digits(d.subrange(0, i - from)),
            acc == digits_value(d.subrange(0, i - from)),
            acc <= limit,
        decreases s.len() - i,
    {
        let c = s[i];
        assert(d[i - from] == c);
        if !('0' <= c && c <= '9') {
            assert(!is_digit(d[i - from]));
            return None;
        }
        let dv: u64 = (c as u32 - '0' as u32) as u64;
        assert(dv == digit_val(c));
        proof {
            lemma_digits_value_step(d, i - from);
        }
        if dv > limit || acc > (limit - dv) / 10 {
            proof {
                assert(acc * 10 + dv > limit) by (nonlinear_arith)
                    requires
                        dv > limit || acc > (limit - dv) / 10,
                        dv <= 9,
                ;
                if all_digits(d) {
                    lemma_digits_value_prefix(d, i - from + 1);
                }
            }
            return None;
        }
        assert(acc * 10 + dv <= limit) by (nonlinear_arith)
            requires
                dv <= limit,
                acc <= (limit - dv) / 10,
        ;
        acc = acc * 10 + dv;
        i += 1;
        assert(all_digits(d.subrange(0, i - from))) by {
            assert forall|j: int| 0 <= j < i - from implies #[trigger] is_digit(
                d.subrange(0, i - from)[j],
            ) by {
                if j < i - from - 1 {
                    assert(d.subrange(0, i - from)[j] == d.subrange(0, i - from - 1)[j]);
                }
            }
        }
    }
    assert(d.subrange(0, s@.len() - from) =~= d);
    Some(acc)
}

/// `s.parse::<u64>().ok()`
pub fn parse_u64(s: &[char]) -> (r: Option<u64>)
    ensures
        r == u64_text(s@),
{
    let from: usize = if s.len() > 0 && s[0] == '+' { 1 } else { 0 };
    assert(s@.subrange(from as int, s@.len() as int) =~= (if s@.len() > 0 && s@[0] == '+' {
        s@.drop_first()
    } else {
        s@
    }));
    digits_at_most(s, from, u64::MAX)
}

/// `s.parse::<u32>()`: an optional `+`, then one or more digits whose value
/// fits in 32 bits.
pub open spec fn u32_text(s: Seq<char>) -> Option<u32> {
    let d = if s.len() > 0 && s[0] == '+' { s.drop_first() } else { s };
    if d.len() > 0 && all_digits(d) && digits_value(d) <= u32::MAX {
        Some(digits_value(d) as u32)
    } else {
        None
    }
}

/// `s.parse::<u32>().ok()`
pub fn parse_u32(s: &[char]) -> (r: Option<u32>)
    ensures
        r == u32_text(s@),
{
    let from: usize = if s.len() > 0 && s[0] == '+' { 1 } else { 0 };
    assert(s@.subrange(from as int, s@.len() as int) =~= (if s@.len() > 0 && s@[0] == '+' {
        s@.drop_first()
    } else {
        s@
    }));
    match digits_at_most(s, from, 0xffff_ffff) {
        Some(v) => Some(v as u32),
        None => None,
    }
}

/// `s.parse::<i64>().is_ok()`
pub fn i64_ok(s: &[char]) -> (r: bool)
    ensures
        r == i64_text_ok(s@),
{
    let signed = s.len() > 0 && (s[0] == '+' || s[0] == '-');
    let neg = s.len() > 0 && s[0] == '-';
    let from: usize = if signed { 1 } else { 0 };
    assert(s@.subrange(from as int, s@.len() as int) =~= sign_stripped(s@));
    let limit: u64 = if neg { 0x8000_0000_0000_0000 } else { 0x7fff_ffff_ffff_ffff };
    digits_at_most(s, from, limit).is_some()
}

fn exponent_ok_exec(x: &[char]) -> (r: bool)
    ensures
        r == exponent_ok(x@),
{
    if x.len() == 0 {
        return true;
    }
    if x[0] != 'e' {
        return false;
    }
    let rest = slice_chars(x, 1, x.len());
    assert(rest@ =~= x@.drop_first());
    let from: usize = if rest.len() > 0 && (rest[0] == '+' || rest[0] == '-') { 1 } else { 0 };
    let r = slice_chars(rest.as_slice(), from, rest.len());
    assert(r@ =~= sign_stripped(rest@));
    r.len() > 0 && all_digits_exec(r.as_slice())
}

fn mantissa_ok_exec(m: &[char]) -> (r: bool)
    ensures
        r == mantissa_ok(m@),
{
    let p = index_of_exec(m, '.');
    let a = slice_chars(m, 0, p);
    let b = if p < m.len() { slice_chars(m, p + 1, m.len()) } else { Vec::new() };
    assert(b@ =~= (if (p as int) < m@.len() {
        m@.subrange(p + 1, m@.len() as int)
    } else {
        Seq::<char>::empty()
    }));
    all_digits_exec(a.as_slice()) && all_digits_exec(b.as_slice()) && a.len() + b.len() > 0
}

/// `s.parse::<f64>().is_ok()`
pub fn f64_ok(s: &[char]) -> (r: bool)
    ensures
        r == f64_text_ok(s@),
{
    let from: usize = if s.len() > 0 && (s[0] == '+' || s[0] == '-') { 1 } else { 0 };
    let body = slice_chars(s, from, s.len());
    assert(body@ =~= sign_stripped(s@));
    let t = ascii_lower_of(body.as_slice());
    if chars_eq_str(t.as_slice(), "inf") || chars_eq_str(t.as_slice(), "infinity")
        || chars_eq_str(t.as_slice(), "nan") {
        return true;
    }
    let i = index_of_exec(t.as_slice(), 'e');
    let m = slice_chars(t.as_slice(), 0, i);
    let x = slice_chars(t.as_slice(), i, t.len());
    mantissa_ok_exec(m.as_slice()) && exponent_ok_exec(x.as_slice())
}

} // verus!
