//! Character-level helpers shared by the parser and the serializers.

use vstd::prelude::*;

verus! {

/// Relies on `String::push`: appends one character.
#[verifier::external_body]
pub(crate) fn push_char(s: &mut String, c: char)
    ensures
        final(s)@ == old(s)@.push(c),
{
    s.push(c);
}

/// The characters of a string.
pub fn chars_of(s: &str) -> (r: Vec<char>)
    ensures
        r@ == s@,
{
    let n = s.unicode_len();
    let mut r: Vec<char> = Vec::new();
    let mut i: usize = 0;
    while i < n
        invariant
            n == s@.len(),
            i <= n,
            r@ == s@.subrange(0, i as int),
        decreases n - i,
    {
        r.push(s.get_char(i));
        i = i + 1;
        assert(r@ =~= s@.subrange(0, i as int));
    }
    assert(r@ =~= s@);
    r
}

/// The string of the characters `cs[a..b]`.
pub fn string_of(cs: &Vec<char>, a: usize, b: usize) -> (r: String)
    requires
        a <= b <= cs@.len(),
    ensures
        r@ == cs@.subrange(a as int, b as int),
{
    let mut r = String::new();
    let mut i: usize = a;
    while i < b
        invariant
            a <= i <= b <= cs@.len(),
            r@ == cs@.subrange(a as int, i as int),
        decreases b - i,
    {
        push_char(&mut r, cs[i]);
        i = i + 1;
        assert(r@ =~= cs@.subrange(a as int, i as int));
    }
    r
}

/// Appends a string to another.
pub fn push_str(s: &mut String, t: &str)
    ensures
        final(s)@ == old(s)@ + t@,
{
    s.append(t);
}

pub open spec fn is_digit(c: char) -> bool {
    '0' <= c <= '9'
}

/// The value of a run of decimal digits.
pub open spec fn digits_value(t: Seq<char>) -> int
    decreases t.len(),
{
    if t.len() == 0 {
        0
    } else {
        digits_value(t.drop_last()) * 10 + (t.last() as int - '0' as int)
    }
}

pub open spec fn all_digits(t: Seq<char>) -> bool {
    forall|i: int| 0 <= i < t.len() ==> is_digit(#[trigger] t[i])
}

/// The integer that `t` spells: an optional minus sign and one or more decimal
/// digits, whose value fits in 64 signed bits.
pub open spec fn int_of(t: Seq<char>) -> Option<int> {
    if t.len() > 0 && t[0] == '-' {
        let d = t.drop_first();
        if d.len() > 0 && all_digits(d) && digits_value(d) <= 0x8000_0000_0000_0000 {
            Some(-digits_value(d))
        } else {
            None
        }
    } else if t.len() > 0 && all_digits(t) && digits_value(t) <= 0x7fff_ffff_ffff_ffff {
        Some(digits_value(t))
    } else {
        None
    }
}

proof fn lemma_digits_mono(t: Seq<char>, m: int)
    requires
        0 <= m <= t.len(),
        all_digits(t),
    ensures
        0 <= digits_value(t.subrange(0, m)) <= digits_value(t),
    decreases t.len() - m,
{
    if m < t.len() {
        lemma_digits_mono(t, m + 1);
        let a = t.subrange(0, m);
        let b = t.subrange(0, m + 1);
        assert(b.drop_last() =~= a);
        assert(is_digit(t[m]));
        assert(b.last() == t[m]);
        lemma_digits_nonneg(a);
    } else {
        assert(t.subrange(0, m) =~= t);
        lemma_digits_nonneg(t);
    }
}

proof fn lemma_digits_nonneg(t: Seq<char>)
    requires
        all_digits(t),
    ensures
        digits_value(t) >= 0,
    decreases t.len(),
{
    if t.len() > 0 {
        assert(all_digits(t.drop_last()));
        lemma_digits_nonneg(t.drop_last());
        assert(is_digit(t.last()));
    }
}

/// Reads the integer that `cs[a..b]` spells (see `int_of`).
pub fn parse_int(cs: &Vec<char>, a: usize, b: usize) -> (r: Option<i64>)
    requires
        a <= b <= cs@.len(),
    ensures
        match r {
            Some(v) => int_of(cs@.subrange(a as int, b as int)) == Some(v as int),
            None => int_of(cs@.subrange(a as int, b as int)) is None,
        },
{
    let ghost t = cs@.subrange(a as int, b as int);
    let neg = a < b && cs[a] == '-';
    let start = if neg { a + 1 } else { a };
    let ghost d = cs@.subrange(start as int, b as int);
    assert(neg ==> d =~= t.drop_first());
    assert(!neg ==> d =~= t);
    if start == b {
        return None;
    }
    let mut acc: u128 = 0;
    let mut i: usize = start;
    while i < b
        invariant
            start <= i <= b <= cs@.len(),
            d == cs@.subrange(start as int, b as int),
            t == cs@.subrange(a as int, b as int),
            neg ==> d == t.drop_first() && t.len() > 0 && t[0] == '-',
            !neg ==> d == t && !(t.len() > 0 && t[0] == '-'),
            d.len() > 0,
            all_digits(d.subrange(0, i - start)),
            acc as int == digits_value(d.subrange(0, i - start)),
            acc <= 0x8000_0000_0000_0000,
        decreases b - i,
    {
        let c = cs[i];
        assert(d.subrange(0, i - start + 1).drop_last() =~= d.subrange(0, i - start));
        assert(d.subrange(0, i - start + 1).last() == c);
        if !('0' <= c && c <= '9') {
            assert(!is_digit(d[i - start]));
            return None;
        }
        acc = acc * 10 + (c as u128 - '0' as u128);
        i = i + 1;
        assert(all_digits(d.subrange(0, i - start)));
        if acc > 0x8000_0000_0000_0000 {
            assert(d.subrange(0, d.len() as int) =~= d);
            proof {
                if all_digits(d) {
                    lemma_digits_mono(d, i - start);
                }
            }
            return None;
        }
    }
    assert(d.subrange(0, i - start) =~= d);
    if neg {
        if acc == 0x8000_0000_0000_0000 {
            Some(i64::MIN)
        } else {
            Some(-(acc as i64))
        }
    } else {
        if acc > 0x7fff_ffff_ffff_ffff {
            None
        } else {
            Some(acc as i64)
        }
    }
}

pub open spec fn ascii_lower(c: char) -> char {
    if 'A' <= c <= 'Z' {
        ((c as u8) + 32) as char
    } else {
        c
    }
}

/// Whether two strings are equal but for the case of ASCII letters.
pub open spec fn same_ignoring_ascii_case(a: Seq<char>, b: Seq<char>) -> bool {
    a.len() == b.len() && forall|i: int| 0 <= i < a.len() ==> ascii_lower(#[trigger] a[i]) == ascii_lower(b[i])
}

fn lower_char(c: char) -> (r: char)
    ensures
        r == ascii_lower(c),
{
    if 'A' <= c && c <= 'Z' {
        ((c as u8) + 32) as char
    } else {
        c
    }
}

/// Compares two strings, ignoring the case of ASCII letters.
pub fn eq_ignore_case(a: &str, b: &str) -> (r: bool)
    ensures
        r == same_ignoring_ascii_case(a@, b@),
{
    let x = chars_of(a);
    let y = chars_of(b);
    if x.len() != y.len() {
        return false;
    }
    let mut i: usize = 0;
    while i < x.len()
        invariant
            x@ == a@,
            y@ == b@,
            x@.len() == y@.len(),
            i <= x@.len(),
            forall|j: int| 0 <= j < i ==> ascii_lower(#[trigger] x@[j]) == ascii_lower(y@[j]),
        decreases x@.len() - i,
    {
        if lower_char(x[i]) != lower_char(y[i]) {
            return false;
        }
        i = i + 1;
    }
    true
}

/// Compares two strings.
pub fn str_eq(a: &str, b: &str) -> (r: bool)
    ensures
        r == (a@ == b@),
{
    let x = chars_of(a);
    let y = chars_of(b);
    if x.len() != y.len() {
        return false;
    }
    let mut i: usize = 0;
    while i < x.len()
        invariant
            x@ == a@,
            y@ == b@,
            x@.len() == y@.len(),
            i <= x@.len(),
            forall|j: int| 0 <= j < i ==> #[trigger] x@[j] == y@[j],
        decreases x@.len() - i,
    {
        if x[i] != y[i] {
            return false;
        }
        i = i + 1;
    }
    assert(x@ =~= y@);
    true
}

} // verus!
