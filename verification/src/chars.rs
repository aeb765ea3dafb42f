//! Character-level toolkit: bridges between `String` and `Vec<char>`,
//! character classes, and decimal rendering/parsing with its inversion lemma.

use vstd::prelude::*;

verus! {

/// Relies on `str::chars` (std): yields exactly the characters of the
/// string, in order; collecting them gives the string's character sequence.
#[verifier::external_body]
pub fn str_chars(s: &str) -> (r: Vec<char>)
    ensures
        r@ == s@,
{
    s.chars().collect()
}

/// Relies on `FromIterator<char> for String` (std): builds the string
/// holding exactly these characters, in order.
#[verifier::external_body]
pub fn chars_string(v: &Vec<char>) -> (r: String)
    ensures
        r@ == v@,
{
    v.iter().collect()
}

pub open spec fn is_space(c: char) -> bool {
    c == ' ' || c == '\t' || c == '\n' || c == '\r'
}

pub fn space(c: char) -> (r: bool)
    ensures
        r == is_space(c),
{
    c == ' ' || c == '\t' || c == '\n' || c == '\r'
}

/// First position at or after `i` holding a non-space character (or the end).
pub open spec fn skip_spaces(t: Seq<char>, i: int) -> int
    decreases t.len() - i,
    when 0 <= i <= t.len()
{
    if i == t.len() {
        i
    } else if is_space(t[i]) {
        skip_spaces(t, i + 1)
    } else {
        i
    }
}

pub proof fn lemma_skip_spaces_bounds(t: Seq<char>, i: int)
    requires
        0 <= i <= t.len(),
    ensures
        i <= skip_spaces(t, i) <= t.len(),
    decreases t.len() - i,
{
    if i < t.len() && is_space(t[i]) {
        lemma_skip_spaces_bounds(t, i + 1);
    }
}

/// Advance past spaces.
pub fn skip_spaces_exec(t: &Vec<char>, i: usize) -> (r: usize)
    requires
        i <= t@.len(),
    ensures
        r == skip_spaces(t@, i as int),
        i <= r <= t@.len(),
{
    let mut j = i;
    while j < t.len() && space(t[j])
        invariant
            i <= j <= t@.len(),
            skip_spaces(t@, i as int) == skip_spaces(t@, j as int),
        decreases t@.len() - j,
    {
        j = j + 1;
    }
    j
}


/// The string holding `v[from..to]`.
pub fn sub_string(v: &Vec<char>, from: usize, to: usize) -> (r: String)
    requires
        from <= to <= v@.len(),
    ensures
        r@ == v@.subrange(from as int, to as int),
{
    let mut out: Vec<char> = Vec::new();
    let mut k = from;
    while k < to
        invariant
            from <= k <= to <= v@.len(),
            out@ == v@.subrange(from as int, k as int),
        decreases to - k,
    {
        let c = v[k];
        out.push(c);
        proof {
            assert(v@.subrange(from as int, k as int).push(v@[k as int]) =~= v@.subrange(
                from as int,
                k + 1,
            ));
        }
        k = k + 1;
    }
    chars_string(&out)
}

pub open spec fn is_digit(c: char) -> bool {
    ('0' as u32) <= (c as u32) && (c as u32) <= ('9' as u32)
}

pub fn digit(c: char) -> (r: bool)
    ensures
        r == is_digit(c),
{
    ('0' as u32) <= (c as u32) && (c as u32) <= ('9' as u32)
}

/// Letters, digits and underscore: the characters a placeholder name may hold.
pub open spec fn is_word_char(c: char) -> bool {
    ||| ('a' as u32) <= (c as u32) && (c as u32) <= ('z' as u32)
    ||| ('A' as u32) <= (c as u32) && (c as u32) <= ('Z' as u32)
    ||| is_digit(c)
    ||| c == '_'
}

pub fn word_char(c: char) -> (r: bool)
    ensures
        r == is_word_char(c),
{
    (('a' as u32) <= (c as u32) && (c as u32) <= ('z' as u32)) || (('A' as u32) <= (c as u32)
        && (c as u32) <= ('Z' as u32)) || digit(c) || c == '_'
}

pub open spec fn digit_val(c: char) -> int {
    (c as u32) - ('0' as u32)
}

pub open spec fn digit_char(d: int) -> char {
    if d == 0 {
        '0'
    } else if d == 1 {
        '1'
    } else if d == 2 {
        '2'
    } else if d == 3 {
        '3'
    } else if d == 4 {
        '4'
    } else if d == 5 {
        '5'
    } else if d == 6 {
        '6'
    } else if d == 7 {
        '7'
    } else if d == 8 {
        '8'
    } else {
        '9'
    }
}

pub fn digit_to_char(d: u64) -> (r: char)
    requires
        d < 10,
    ensures
        r == digit_char(d as int),
{
    if d == 0 {
        '0'
    } else if d == 1 {
        '1'
    } else if d == 2 {
        '2'
    } else if d == 3 {
        '3'
    } else if d == 4 {
        '4'
    } else if d == 5 {
        '5'
    } else if d == 6 {
        '6'
    } else if d == 7 {
        '7'
    } else if d == 8 {
        '8'
    } else {
        '9'
    }
}

/// The decimal digit sequence of `n`, most significant first, no sign,
/// no leading zero (except for `n == 0` itself).
pub open spec fn dec_digits(n: nat) -> Seq<char>
    decreases n,
{
    if n < 10 {
        seq![digit_char(n as int)]
    } else {
        dec_digits(n / 10).push(digit_char((n % 10) as int))
    }
}

/// The value of a digit sequence read in base ten.
pub open spec fn dec_val(s: Seq<char>) -> int
    decreases s.len(),
{
    if s.len() == 0 {
        0
    } else {
        dec_val(s.drop_last()) * 10 + digit_val(s.last())
    }
}

pub open spec fn all_digits(s: Seq<char>) -> bool {
    forall|i: int| 0 <= i < s.len() ==> is_digit(#[trigger] s[i])
}

/// Characters with equal code points are equal.
pub proof fn lemma_char_code_eq(a: char, b: char)
    requires
        a as u32 == b as u32,
    ensures
        a == b,
{
    vstd::utf8::char_u32_cast(a, a as u32);
    vstd::utf8::char_u32_cast(b, b as u32);
}

/// A digit other than `'0'` has value at least one.
pub proof fn lemma_nonzero_digit(c: char)
    requires
        is_digit(c),
        c != '0',
    ensures
        1 <= digit_val(c) <= 9,
{
    if c as u32 == '0' as u32 {
        lemma_char_code_eq(c, '0');
    }
}

pub proof fn lemma_dec_digits_val(n: nat)
    ensures
        dec_val(dec_digits(n)) == n,
        all_digits(dec_digits(n)),
        dec_digits(n).len() >= 1,
        n > 0 ==> dec_digits(n)[0] != '0',
        n == 0 ==> dec_digits(n) == seq!['0'],
    decreases n,
{
    if n < 10 {
        assert(dec_digits(n) == seq![digit_char(n as int)]);
        assert(dec_val(dec_digits(n)) == dec_val(seq![digit_char(n as int)].drop_last()) * 10
            + digit_val(digit_char(n as int)));
        assert(seq![digit_char(n as int)].drop_last() == Seq::<char>::empty());
    } else {
        lemma_dec_digits_val(n / 10);
        let s = dec_digits(n);
        let p = dec_digits(n / 10);
        assert(s == p.push(digit_char((n % 10) as int)));
        assert(s.drop_last() == p);
        assert(s.last() == digit_char((n % 10) as int));
        assert(dec_val(s) == dec_val(p) * 10 + digit_val(digit_char((n % 10) as int)));
        assert(digit_val(digit_char((n % 10) as int)) == n % 10);
        assert(dec_val(s) == (n / 10) * 10 + n % 10);
        assert((n / 10) * 10 + n % 10 == n) by (nonlinear_arith);
        assert forall|i: int| 0 <= i < s.len() implies is_digit(#[trigger] s[i]) by {
            if i < p.len() {
                assert(s[i] == p[i]);
            }
        }
        assert(s[0] == p[0]);
    }
}

/// Render a number as its decimal digits.
pub fn u64_dec_chars(n: u64) -> (r: Vec<char>)
    ensures
        r@ == dec_digits(n as nat),
    decreases n,
{
    if n < 10 {
        let mut v: Vec<char> = Vec::new();
        v.push(digit_to_char(n));
        proof {
            assert(v@ == seq![digit_char(n as int)]);
        }
        v
    } else {
        let mut v = u64_dec_chars(n / 10);
        v.push(digit_to_char(n % 10));
        v
    }
}

/// Render a number as a `String` of decimal digits.
pub fn u64_dec_string(n: u64) -> (r: String)
    ensures
        r@ == dec_digits(n as nat),
{
    let v = u64_dec_chars(n);
    chars_string(&v)
}


/// A digit sequence's value is bounded by its digits.
pub proof fn lemma_dec_val_bounds(s: Seq<char>)
    requires
        all_digits(s),
    ensures
        0 <= dec_val(s),
        s.len() == 1 ==> dec_val(s) < 10,
    decreases s.len(),
{
    if s.len() == 0 {
    } else {
        let p = s.drop_last();
        assert(forall|i: int| 0 <= i < p.len() ==> p[i] == s[i]);
        lemma_dec_val_bounds(p);
        assert(is_digit(s.last()));
        assert(0 <= digit_val(s.last()) < 10);
        assert(dec_val(p) * 10 >= 0) by (nonlinear_arith)
            requires
                dec_val(p) >= 0,
        ;
    }
}

} // verus!
