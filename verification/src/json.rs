//! JSON documents: a value type, a canonical renderer, and a parser.
//! The renderer emits compact text with minimal escaping; the parser
//! accepts that text back (plus surrounding whitespace) and is the form
//! in which every remote response and the persisted draft file is read.

use vstd::prelude::*;
use vstd::string::StringExecFns;
use crate::chars::{is_space, is_digit, digit_val, digit_char, dec_digits, dec_val, all_digits,
    skip_spaces, lemma_skip_spaces_bounds};

verus! {

/// An executable JSON value. Numbers are 64-bit integers: no value this
/// tool exchanges carries a fraction or exponent.
#[derive(Debug)]
pub enum JsonValue {
    Null,
    Bool(bool),
    Int(i64),
    Str(String),
    Arr(Vec<JsonValue>),
    Obj(Vec<(String, JsonValue)>),
}

/// Mathematical image of a JSON value.
#[verifier::ext_equal]
pub ghost enum JsonV {
    Null,
    Bool(bool),
    Int(int),
    Str(Seq<char>),
    Arr(Seq<JsonV>),
    Obj(Seq<(Seq<char>, JsonV)>),
}

/// The image of an executable value.
pub open spec fn view_json(v: JsonValue) -> JsonV
    decreases v, 0int,
{
    match v {
        JsonValue::Null => JsonV::Null,
        JsonValue::Bool(b) => JsonV::Bool(b),
        JsonValue::Int(n) => JsonV::Int(n as int),
        JsonValue::Str(s) => JsonV::Str(s@),
        JsonValue::Arr(elems) => JsonV::Arr(view_arr(elems@, 0)),
        JsonValue::Obj(ms) => JsonV::Obj(view_members(ms@, 0)),
    }
}

pub open spec fn view_arr(s: Seq<JsonValue>, i: int) -> Seq<JsonV>
    decreases s, s.len() - i,
    when 0 <= i
{
    if i >= s.len() {
        Seq::empty()
    } else {
        seq![view_json(s[i])] + view_arr(s, i + 1)
    }
}

pub open spec fn view_members(s: Seq<(String, JsonValue)>, i: int) -> Seq<(Seq<char>, JsonV)>
    decreases s, s.len() - i,
    when 0 <= i
{
    if i >= s.len() {
        Seq::empty()
    } else {
        seq![(s[i].0@, view_json(s[i].1))] + view_members(s, i + 1)
    }
}

impl View for JsonValue {
    type V = JsonV;

    open spec fn view(&self) -> JsonV {
        view_json(*self)
    }
}

pub proof fn lemma_view_arr(s: Seq<JsonValue>, i: int)
    requires
        0 <= i <= s.len(),
    ensures
        view_arr(s, i).len() == s.len() - i,
        forall|k: int| 0 <= k < s.len() - i ==> view_arr(s, i)[k] == view_json(s[i + k]),
    decreases s.len() - i,
{
    if i < s.len() {
        lemma_view_arr(s, i + 1);
    }
}

pub proof fn lemma_view_members(s: Seq<(String, JsonValue)>, i: int)
    requires
        0 <= i <= s.len(),
    ensures
        view_members(s, i).len() == s.len() - i,
        forall|k: int| 0 <= k < s.len() - i ==> view_members(s, i)[k] == (
            s[i + k].0@,
            view_json(s[i + k].1),
        ),
    decreases s.len() - i,
{
    if i < s.len() {
        lemma_view_members(s, i + 1);
    }
}

// ------------------------------------------------------------------
// Rendering
// ------------------------------------------------------------------

/// The hexadecimal digit for `d`.
pub open spec fn hex_char(d: int) -> char {
    if d < 10 {
        digit_char(d)
    } else if d == 10 {
        'a'
    } else if d == 11 {
        'b'
    } else if d == 12 {
        'c'
    } else if d == 13 {
        'd'
    } else if d == 14 {
        'e'
    } else {
        'f'
    }
}

/// How one character appears inside a JSON string literal.
pub open spec fn escape_char(c: char) -> Seq<char> {
    if c == '"' {
        seq!['\\', '"']
    } else if c == '\\' {
        seq!['\\', '\\']
    } else if c == '\n' {
        seq!['\\', 'n']
    } else if c == '\r' {
        seq!['\\', 'r']
    } else if c == '\t' {
        seq!['\\', 't']
    } else if (c as u32) < 0x20 {
        seq!['\\', 'u', '0', '0', hex_char((c as u32) as int / 16), hex_char((c as u32) as int % 16)]
    } else {
        seq![c]
    }
}

/// The body of a JSON string literal for `s`.
pub open spec fn escape_str(s: Seq<char>) -> Seq<char>
    decreases s.len(),
{
    if s.len() == 0 {
        Seq::empty()
    } else {
        escape_char(s[0]) + escape_str(s.skip(1))
    }
}

pub proof fn lemma_escape_append(a: Seq<char>, b: Seq<char>)
    ensures
        escape_str(a + b) == escape_str(a) + escape_str(b),
    decreases a.len(),
{
    if a.len() == 0 {
        assert(a + b =~= b);
        assert(escape_str(a) + escape_str(b) =~= escape_str(b));
    } else {
        assert((a + b)[0] == a[0]);
        assert((a + b).skip(1) =~= a.skip(1) + b);
        lemma_escape_append(a.skip(1), b);
        assert(escape_char(a[0]) + (escape_str(a.skip(1)) + escape_str(b)) =~= (escape_char(a[0])
            + escape_str(a.skip(1))) + escape_str(b));
    }
}

/// The canonical text of an integer.
pub open spec fn render_int(n: int) -> Seq<char> {
    if n < 0 {
        seq!['-'] + dec_digits((-n) as nat)
    } else {
        dec_digits(n as nat)
    }
}

/// The canonical text of a value: compact, no whitespace.
pub open spec fn render_json(v: JsonV) -> Seq<char>
    decreases v, 0int,
{
    match v {
        JsonV::Null => seq!['n', 'u', 'l', 'l'],
        JsonV::Bool(b) => if b {
            seq!['t', 'r', 'u', 'e']
        } else {
            seq!['f', 'a', 'l', 's', 'e']
        },
        JsonV::Int(n) => render_int(n),
        JsonV::Str(s) => seq!['"'] + escape_str(s) + seq!['"'],
        JsonV::Arr(elems) => seq!['['] + render_elems(elems, 0) + seq![']'],
        JsonV::Obj(ms) => seq!['{'] + render_members(ms, 0) + seq!['}'],
    }
}

/// The elements from index `i` on, a comma between each two.
pub open spec fn render_elems(elems: Seq<JsonV>, i: int) -> Seq<char>
    decreases elems, elems.len() - i,
    when 0 <= i
{
    if i >= elems.len() {
        Seq::empty()
    } else if i + 1 < elems.len() {
        render_json(elems[i]) + seq![','] + render_elems(elems, i + 1)
    } else {
        render_json(elems[i])
    }
}

/// One member's text: a quoted key, a colon, the value.
pub open spec fn render_member(m: (Seq<char>, JsonV)) -> Seq<char>
    decreases m, 0int,
{
    seq!['"'] + escape_str(m.0) + seq!['"', ':'] + render_json(m.1)
}

/// The members from index `i` on, a comma between each two.
pub open spec fn render_members(ms: Seq<(Seq<char>, JsonV)>, i: int) -> Seq<char>
    decreases ms, ms.len() - i,
    when 0 <= i
{
    if i >= ms.len() {
        Seq::empty()
    } else if i + 1 < ms.len() {
        render_member(ms[i]) + seq![','] + render_members(ms, i + 1)
    } else {
        render_member(ms[i])
    }
}

// ------------------------------------------------------------------
// Parsing: specification
// ------------------------------------------------------------------

/// The character named by a single-letter escape.
pub open spec fn esc_char_of(c: char) -> Option<char> {
    if c == '"' {
        Option::Some('"')
    } else if c == '\\' {
        Option::Some('\\')
    } else if c == '/' {
        Option::Some('/')
    } else if c == 'n' {
        Option::Some('\n')
    } else if c == 'r' {
        Option::Some('\r')
    } else if c == 't' {
        Option::Some('\t')
    } else if c == 'b' {
        Option::Some('\u{8}')
    } else if c == 'f' {
        Option::Some('\u{c}')
    } else {
        Option::None
    }
}

/// The value of a hexadecimal digit.
pub open spec fn hex_val(c: char) -> Option<int> {
    if is_digit(c) {
        Option::Some(digit_val(c))
    } else if c == 'a' || c == 'A' {
        Option::Some(10)
    } else if c == 'b' || c == 'B' {
        Option::Some(11)
    } else if c == 'c' || c == 'C' {
        Option::Some(12)
    } else if c == 'd' || c == 'D' {
        Option::Some(13)
    } else if c == 'e' || c == 'E' {
        Option::Some(14)
    } else if c == 'f' || c == 'F' {
        Option::Some(15)
    } else {
        Option::None
    }
}

/// Parse a string literal's body starting just after the opening quote;
/// yields the denoted characters and the position after the closing
/// quote. Escapes cover the single-letter set and `\u00XX`.
pub open spec fn parse_string_body(s: Seq<char>, i: int) -> Option<(Seq<char>, int)>
    decreases s.len() - i,
    when 0 <= i <= s.len()
{
    if i == s.len() {
        Option::None
    } else if s[i] == '"' {
        Option::Some((Seq::empty(), i + 1))
    } else if s[i] == '\\' {
        if i + 2 <= s.len() && esc_char_of(s[i + 1]) is Some {
            match parse_string_body(s, i + 2) {
                Option::Some((rest, j)) => Option::Some(
                    (seq![esc_char_of(s[i + 1])->Some_0] + rest, j),
                ),
                Option::None => Option::None,
            }
        } else if i + 6 <= s.len() && s[i + 1] == 'u' && s[i + 2] == '0' && s[i + 3] == '0'
            && hex_val(s[i + 4]) is Some && hex_val(s[i + 5]) is Some {
            match parse_string_body(s, i + 6) {
                Option::Some((rest, j)) => Option::Some(
                    (
                        seq![
                            (((16 * hex_val(s[i + 4])->Some_0 + hex_val(s[i + 5])->Some_0)
                                as u8) as char),
                        ] + rest,
                        j,
                    ),
                ),
                Option::None => Option::None,
            }
        } else {
            Option::None
        }
    } else {
        match parse_string_body(s, i + 1) {
            Option::Some((rest, j)) => Option::Some((seq![s[i]] + rest, j)),
            Option::None => Option::None,
        }
    }
}

pub proof fn lemma_parse_string_body_bounds(s: Seq<char>, i: int)
    requires
        0 <= i <= s.len(),
        parse_string_body(s, i) is Some,
    ensures
        i < parse_string_body(s, i)->Some_0.1 <= s.len(),
    decreases s.len() - i,
{
    if i == s.len() {
    } else if s[i] == '"' {
    } else if s[i] == '\\' {
        if i + 2 <= s.len() && esc_char_of(s[i + 1]) is Some {
            lemma_parse_string_body_bounds(s, i + 2);
        } else {
            lemma_parse_string_body_bounds(s, i + 6);
        }
    } else {
        lemma_parse_string_body_bounds(s, i + 1);
    }
}

/// First position at or after `i` holding a non-digit (or the end).
pub open spec fn digits_end(s: Seq<char>, i: int) -> int
    decreases s.len() - i,
    when 0 <= i <= s.len()
{
    if i == s.len() {
        i
    } else if is_digit(s[i]) {
        digits_end(s, i + 1)
    } else {
        i
    }
}

pub proof fn lemma_digits_end_bounds(s: Seq<char>, i: int)
    requires
        0 <= i <= s.len(),
    ensures
        i <= digits_end(s, i) <= s.len(),
        forall|k: int| i <= k < digits_end(s, i) ==> is_digit(#[trigger] s[k]),
        digits_end(s, i) < s.len() ==> !is_digit(s[digits_end(s, i)]),
    decreases s.len() - i,
{
    if i < s.len() && is_digit(s[i]) {
        lemma_digits_end_bounds(s, i + 1);
    }
}

/// Parse an integer at `i`: an optional minus, then digits with no
/// leading zero, valued within the 64-bit signed range.
pub open spec fn parse_number_spec(s: Seq<char>, i: int) -> Option<(int, int)> {
    let neg = i < s.len() && s[i] == '-';
    let a = if neg {
        i + 1
    } else {
        i
    };
    let b = digits_end(s, a);
    if b == a {
        Option::None
    } else if s[a] == '0' && b > a + 1 {
        Option::None
    } else {
        let m = dec_val(s.subrange(a, b));
        let v = if neg {
            -m
        } else {
            m
        };
        if -0x8000_0000_0000_0000 <= v <= 0x7fff_ffff_ffff_ffff {
            Option::Some((v, b))
        } else {
            Option::None
        }
    }
}

/// Parse one value at `i` (no leading whitespace). The fuel bounds the
/// recursion; any fuel above the remaining length behaves identically.
pub open spec fn parse_value_spec(s: Seq<char>, i: int, fuel: nat) -> Option<(JsonV, int)>
    decreases fuel,
{
    if fuel == 0 {
        Option::None
    } else if !(0 <= i < s.len()) {
        Option::None
    } else if s[i] == '"' {
        match parse_string_body(s, i + 1) {
            Option::Some((cs, j)) => Option::Some((JsonV::Str(cs), j)),
            Option::None => Option::None,
        }
    } else if s[i] == '{' {
        let a = skip_spaces(s, i + 1);
        if a < s.len() && s[a] == '}' {
            Option::Some((JsonV::Obj(Seq::empty()), a + 1))
        } else {
            match parse_members_spec(s, a, (fuel - 1) as nat) {
                Option::Some((ms, j)) => {
                    let b = skip_spaces(s, j);
                    if b < s.len() && s[b] == '}' {
                        Option::Some((JsonV::Obj(ms), b + 1))
                    } else {
                        Option::None
                    }
                },
                Option::None => Option::None,
            }
        }
    } else if s[i] == '[' {
        let a = skip_spaces(s, i + 1);
        if a < s.len() && s[a] == ']' {
            Option::Some((JsonV::Arr(Seq::empty()), a + 1))
        } else {
            match parse_elems_spec(s, a, (fuel - 1) as nat) {
                Option::Some((elems, j)) => {
                    let b = skip_spaces(s, j);
                    if b < s.len() && s[b] == ']' {
                        Option::Some((JsonV::Arr(elems), b + 1))
                    } else {
                        Option::None
                    }
                },
                Option::None => Option::None,
            }
        }
    } else if s[i] == 't' {
        if i + 4 <= s.len() && s[i + 1] == 'r' && s[i + 2] == 'u' && s[i + 3] == 'e' {
            Option::Some((JsonV::Bool(true), i + 4))
        } else {
            Option::None
        }
    } else if s[i] == 'f' {
        if i + 5 <= s.len() && s[i + 1] == 'a' && s[i + 2] == 'l' && s[i + 3] == 's' && s[i + 4]
            == 'e' {
            Option::Some((JsonV::Bool(false), i + 5))
        } else {
            Option::None
        }
    } else if s[i] == 'n' {
        if i + 4 <= s.len() && s[i + 1] == 'u' && s[i + 2] == 'l' && s[i + 3] == 'l' {
            Option::Some((JsonV::Null, i + 4))
        } else {
            Option::None
        }
    } else if s[i] == '-' || is_digit(s[i]) {
        match parse_number_spec(s, i) {
            Option::Some((v, j)) => Option::Some((JsonV::Int(v), j)),
            Option::None => Option::None,
        }
    } else {
        Option::None
    }
}

/// Parse one or more comma-separated elements starting at the first
/// element; yields the position just after the last element.
pub open spec fn parse_elems_spec(s: Seq<char>, i: int, fuel: nat) -> Option<(Seq<JsonV>, int)>
    decreases fuel,
{
    if fuel == 0 {
        Option::None
    } else {
        match parse_value_spec(s, i, (fuel - 1) as nat) {
            Option::Some((v, j)) => {
                let c = skip_spaces(s, j);
                if c < s.len() && s[c] == ',' {
                    let d = skip_spaces(s, c + 1);
                    match parse_elems_spec(s, d, (fuel - 1) as nat) {
                        Option::Some((rest, e)) => Option::Some((seq![v] + rest, e)),
                        Option::None => Option::None,
                    }
                } else {
                    Option::Some((seq![v], j))
                }
            },
            Option::None => Option::None,
        }
    }
}

/// Parse one or more comma-separated `"key": value` members starting at
/// the first member; yields the position just after the last value.
pub open spec fn parse_members_spec(s: Seq<char>, i: int, fuel: nat) -> Option<
    (Seq<(Seq<char>, JsonV)>, int),
>
    decreases fuel,
{
    if fuel == 0 {
        Option::None
    } else if !(0 <= i < s.len() && s[i] == '"') {
        Option::None
    } else {
        match parse_string_body(s, i + 1) {
            Option::Some((k, j)) => {
                let c = skip_spaces(s, j);
                if c < s.len() && s[c] == ':' {
                    let d = skip_spaces(s, c + 1);
                    match parse_value_spec(s, d, (fuel - 1) as nat) {
                        Option::Some((v, e)) => {
                            let f = skip_spaces(s, e);
                            if f < s.len() && s[f] == ',' {
                                let g = skip_spaces(s, f + 1);
                                match parse_members_spec(s, g, (fuel - 1) as nat) {
                                    Option::Some((rest, h)) => Option::Some(
                                        (seq![(k, v)] + rest, h),
                                    ),
                                    Option::None => Option::None,
                                }
                            } else {
                                Option::Some((seq![(k, v)], e))
                            }
                        },
                        Option::None => Option::None,
                    }
                } else {
                    Option::None
                }
            },
            Option::None => Option::None,
        }
    }
}

/// The fuel every whole-document parse uses; ample for any document.
pub open spec fn doc_fuel(s: Seq<char>) -> nat {
    (2 * s.len() + 1) as nat
}

/// Parse a whole document: one value, possibly surrounded by whitespace.
pub open spec fn parse_json_spec(s: Seq<char>) -> Option<JsonV> {
    let i = skip_spaces(s, 0);
    match parse_value_spec(s, i, doc_fuel(s)) {
        Option::Some((v, j)) => {
            if 0 <= j <= s.len() && skip_spaces(s, j) == s.len() {
                Option::Some(v)
            } else {
                Option::None
            }
        },
        Option::None => Option::None,
    }
}


// ------------------------------------------------------------------
// Rendering: executable
// ------------------------------------------------------------------

/// The hexadecimal digit character for `d`.
fn hex_to_char(d: u32) -> (r: char)
    requires
        d < 16,
    ensures
        r == hex_char(d as int),
{
    if d < 10 {
        crate::chars::digit_to_char(d as u64)
    } else if d == 10 {
        'a'
    } else if d == 11 {
        'b'
    } else if d == 12 {
        'c'
    } else if d == 13 {
        'd'
    } else if d == 14 {
        'e'
    } else {
        'f'
    }
}

/// Append the escaped form of one character.
fn push_escaped_char(c: char, out: &mut Vec<char>)
    ensures
        final(out)@ == old(out)@ + escape_char(c),
{
    if c == '"' {
        out.push('\\');
        out.push('"');
    } else if c == '\\' {
        out.push('\\');
        out.push('\\');
    } else if c == '\n' {
        out.push('\\');
        out.push('n');
    } else if c == '\r' {
        out.push('\\');
        out.push('r');
    } else if c == '\t' {
        out.push('\\');
        out.push('t');
    } else if (c as u32) < 0x20 {
        out.push('\\');
        out.push('u');
        out.push('0');
        out.push('0');
        out.push(hex_to_char((c as u32) / 16));
        out.push(hex_to_char((c as u32) % 16));
    } else {
        out.push(c);
    }
    proof {
        assert(final(out)@ =~= old(out)@ + escape_char(c));
    }
}

/// Append the escaped body of a string literal.
fn push_escaped(s: &str, out: &mut Vec<char>)
    ensures
        final(out)@ == old(out)@ + escape_str(s@),
{
    let cs = crate::chars::str_chars(s);
    let mut k: usize = 0;
    proof {
        assert(s@.take(0) =~= Seq::<char>::empty());
    }
    while k < cs.len()
        invariant
            k <= cs@.len(),
            cs@ == s@,
            out@ == old(out)@ + escape_str(s@.take(k as int)),
        decreases cs@.len() - k,
    {
        let ghost pre = s@.take(k as int);
        push_escaped_char(cs[k], out);
        proof {
            assert(s@.take(k + 1) =~= pre + seq![s@[k as int]]);
            lemma_escape_append(pre, seq![s@[k as int]]);
            assert(seq![s@[k as int]].skip(1) =~= Seq::<char>::empty());
            assert(escape_str(Seq::<char>::empty()) =~= Seq::<char>::empty());
            assert(escape_char(s@[k as int]) + Seq::<char>::empty() =~= escape_char(
                s@[k as int],
            ));
            assert(escape_str(seq![s@[k as int]]) =~= escape_char(s@[k as int]));
            assert((old(out)@ + escape_str(pre)) + escape_char(s@[k as int]) =~= old(out)@
                + escape_str(s@.take(k + 1)));
        }
        k = k + 1;
    }
    proof {
        assert(s@.take(s@.len() as int) =~= s@);
    }
}

/// Append the canonical decimal text of `n`.
fn push_int(n: i64, out: &mut Vec<char>)
    ensures
        final(out)@ == old(out)@ + render_int(n as int),
{
    if n >= 0 {
        let digits = crate::chars::u64_dec_chars(n as u64);
        append_all(out, &digits);
    } else if n == i64::MIN {
        out.push('-');
        let digits = crate::chars::u64_dec_chars(9223372036854775808u64);
        let ghost mid = out@;
        append_all(out, &digits);
        proof {
            assert((-(n as int)) as nat == 9223372036854775808nat);
            assert(out@ =~= old(out)@ + render_int(n as int));
        }
    } else {
        out.push('-');
        let digits = crate::chars::u64_dec_chars((-n) as u64);
        append_all(out, &digits);
        proof {
            assert(out@ =~= old(out)@ + render_int(n as int));
        }
    }
}

/// Append all of `v` to `out`.
fn append_all(out: &mut Vec<char>, v: &Vec<char>)
    ensures
        final(out)@ == old(out)@ + v@,
{
    let mut k: usize = 0;
    while k < v.len()
        invariant
            k <= v@.len(),
            out@ == old(out)@ + v@.take(k as int),
        decreases v@.len() - k,
    {
        let c = v[k];
        out.push(c);
        proof {
            assert(old(out)@ + v@.take(k as int) + seq![v@[k as int]] =~= old(out)@ + v@.take(
                k + 1,
            ));
        }
        k = k + 1;
    }
    proof {
        assert(old(out)@ + v@.take(v@.len() as int) =~= old(out)@ + v@);
    }
}

/// Append the canonical text of `v`.
#[verifier::loop_isolation(false)]
#[verifier::rlimit(60)]
pub fn render_value(v: &JsonValue, out: &mut Vec<char>)
    ensures
        final(out)@ == old(out)@ + render_json(v@),
    decreases v,
{
    match v {
        JsonValue::Null => {
            out.push('n');
            out.push('u');
            out.push('l');
            out.push('l');
            proof {
                assert(out@ =~= old(out)@ + render_json(JsonV::Null));
            }
        },
        JsonValue::Bool(b) => {
            if *b {
                out.push('t');
                out.push('r');
                out.push('u');
                out.push('e');
            } else {
                out.push('f');
                out.push('a');
                out.push('l');
                out.push('s');
                out.push('e');
            }
            proof {
                assert(out@ =~= old(out)@ + render_json(view_json(*v)));
            }
        },
        JsonValue::Int(n) => {
            push_int(*n, out);
        },
        JsonValue::Str(s) => {
            out.push('"');
            let ghost mid = out@;
            push_escaped(s.as_str(), out);
            out.push('"');
            proof {
                assert(out@ =~= old(out)@ + render_json(view_json(*v)));
            }
        },
        JsonValue::Arr(elems) => {
            let ghost va = view_arr(elems@, 0);
            proof {
                lemma_view_arr(elems@, 0);
            }
            out.push('[');
            let ghost base = out@;
            let mut k: usize = 0;
            while k < elems.len()
                invariant
                    k <= elems@.len(),
                    va == view_arr(elems@, 0),
                    va.len() == elems@.len(),
                    forall|m: int| 0 <= m < elems@.len() ==> va[m] == view_json(
                        #[trigger] elems@[m],
                    ),
                    out@ + render_elems(va, k as int) == base + render_elems(va, 0),
                decreases elems@.len() - k,
            {
                let ghost pre = out@;
                proof {
                    let gv = *v;
                    assert(decreases_to!(gv => gv->Arr_0));
                    assert(decreases_to!(gv->Arr_0 => gv->Arr_0@));
                    assert(decreases_to!(gv->Arr_0@ => gv->Arr_0@[k as int]));
                    assert(decreases_to!(gv => elems@[k as int]));
                }
                render_value(&elems[k], out);
                if k + 1 < elems.len() {
                    out.push(',');
                    proof {
                        assert(out@ =~= pre + render_json(va[k as int]) + seq![',']);
                        assert(render_elems(va, k as int) == render_json(va[k as int]) + seq![
                            ',',
                        ] + render_elems(va, k + 1));
                        assert(out@ + render_elems(va, k + 1) =~= pre + render_elems(
                            va,
                            k as int,
                        ));
                    }
                } else {
                    proof {
                        assert(out@ =~= pre + render_json(va[k as int]));
                        assert(render_elems(va, k as int) == render_json(va[k as int]));
                        assert(render_elems(va, k + 1) =~= Seq::<char>::empty());
                        assert(out@ + render_elems(va, k + 1) =~= pre + render_elems(
                            va,
                            k as int,
                        ));
                    }
                }
                k = k + 1;
            }
            out.push(']');
            proof {
                assert(render_elems(va, elems@.len() as int) =~= Seq::<char>::empty());
                assert(out@ =~= old(out)@ + render_json(view_json(*v)));
            }
        },
        JsonValue::Obj(ms) => {
            let ghost vm = view_members(ms@, 0);
            proof {
                lemma_view_members(ms@, 0);
            }
            out.push('{');
            let ghost base = out@;
            let mut k: usize = 0;
            while k < ms.len()
                invariant
                    k <= ms@.len(),
                    vm == view_members(ms@, 0),
                    vm.len() == ms@.len(),
                    forall|m: int| 0 <= m < ms@.len() ==> vm[m] == (
                        (#[trigger] ms@[m]).0@,
                        view_json(ms@[m].1),
                    ),
                    out@ + render_members(vm, k as int) == base + render_members(vm, 0),
                decreases ms@.len() - k,
            {
                let ghost pre = out@;
                out.push('"');
                push_escaped(ms[k].0.as_str(), out);
                out.push('"');
                out.push(':');
                proof {
                    let gv = *v;
                    assert(decreases_to!(gv => gv->Obj_0));
                    assert(decreases_to!(gv->Obj_0 => gv->Obj_0@));
                    assert(decreases_to!(gv->Obj_0@ => gv->Obj_0@[k as int]));
                    assert(decreases_to!(gv->Obj_0@[k as int] => gv->Obj_0@[k as int].1));
                    assert(decreases_to!(gv => ms@[k as int].1));
                }
                render_value(&ms[k].1, out);
                if k + 1 < ms.len() {
                    out.push(',');
                    proof {
                        assert(out@ =~= pre + render_member(vm[k as int]) + seq![',']);
                        assert(render_members(vm, k as int) == render_member(vm[k as int])
                            + seq![','] + render_members(vm, k + 1));
                        assert(out@ + render_members(vm, k + 1) =~= pre + render_members(
                            vm,
                            k as int,
                        ));
                    }
                } else {
                    proof {
                        assert(out@ =~= pre + render_member(vm[k as int]));
                        assert(render_members(vm, k as int) == render_member(vm[k as int]));
                        assert(render_members(vm, k + 1) =~= Seq::<char>::empty());
                        assert(out@ + render_members(vm, k + 1) =~= pre + render_members(
                            vm,
                            k as int,
                        ));
                    }
                }
                k = k + 1;
            }
            out.push('}');
            proof {
                assert(render_members(vm, ms@.len() as int) =~= Seq::<char>::empty());
                assert(out@ =~= old(out)@ + render_json(view_json(*v)));
            }
        },
    }
}

/// The canonical document text of `v`.
pub fn render_document(v: &JsonValue) -> (r: String)
    ensures
        r@ == render_json(v@),
{
    let mut out: Vec<char> = Vec::new();
    render_value(v, &mut out);
    proof {
        assert(Seq::<char>::empty() + render_json(view_json(*v)) =~= render_json(view_json(*v)));
    }
    crate::chars::chars_string(&out)
}


// ------------------------------------------------------------------
// Parsing: executable
// ------------------------------------------------------------------

fn esc_char_exec(c: char) -> (r: Option<char>)
    ensures
        r == esc_char_of(c),
{
    if c == '"' {
        Option::Some('"')
    } else if c == '\\' {
        Option::Some('\\')
    } else if c == '/' {
        Option::Some('/')
    } else if c == 'n' {
        Option::Some('\n')
    } else if c == 'r' {
        Option::Some('\r')
    } else if c == 't' {
        Option::Some('\t')
    } else if c == 'b' {
        Option::Some('\u{8}')
    } else if c == 'f' {
        Option::Some('\u{c}')
    } else {
        Option::None
    }
}

fn hex_val_exec(c: char) -> (r: Option<u32>)
    ensures
        match r {
            Option::Some(d) => hex_val(c) == Option::Some(d as int) && d < 16,
            Option::None => hex_val(c) is None,
        },
{
    if crate::chars::digit(c) {
        Option::Some((c as u32) - ('0' as u32))
    } else if c == 'a' || c == 'A' {
        Option::Some(10)
    } else if c == 'b' || c == 'B' {
        Option::Some(11)
    } else if c == 'c' || c == 'C' {
        Option::Some(12)
    } else if c == 'd' || c == 'D' {
        Option::Some(13)
    } else if c == 'e' || c == 'E' {
        Option::Some(14)
    } else if c == 'f' || c == 'F' {
        Option::Some(15)
    } else {
        Option::None
    }
}

/// One scanning step keeps the accumulated-prefix relation.
proof fn lemma_string_step(
    s: Seq<char>,
    i: int,
    cur0: int,
    acc0: Seq<char>,
    piece: Seq<char>,
    cur1: int,
)
    requires
        0 <= i <= s.len(),
        0 <= cur0 <= s.len(),
        0 <= cur1 <= s.len(),
        (parse_string_body(s, i) is Some <==> parse_string_body(s, cur0) is Some),
        forall|rest: Seq<char>, j: int|
            parse_string_body(s, cur0) == Option::Some((rest, j)) ==> parse_string_body(s, i)
                == Option::Some((acc0 + rest, j)),
        (parse_string_body(s, cur0) is Some <==> parse_string_body(s, cur1) is Some),
        forall|rest: Seq<char>, j: int|
            parse_string_body(s, cur1) == Option::Some((rest, j)) ==> parse_string_body(s, cur0)
                == Option::Some((piece + rest, j)),
    ensures
        (parse_string_body(s, i) is Some <==> parse_string_body(s, cur1) is Some),
        forall|rest: Seq<char>, j: int|
            parse_string_body(s, cur1) == Option::Some((rest, j)) ==> parse_string_body(s, i)
                == Option::Some(((acc0 + piece) + rest, j)),
{
    assert forall|rest: Seq<char>, j: int|
        parse_string_body(s, cur1) == Option::Some((rest, j)) implies parse_string_body(s, i)
        == Option::Some(((acc0 + piece) + rest, j)) by {
        assert(parse_string_body(s, cur0) == Option::Some((piece + rest, j)));
        assert(parse_string_body(s, i) == Option::Some((acc0 + (piece + rest), j)));
        assert(acc0 + (piece + rest) =~= (acc0 + piece) + rest);
    }
}

/// Parse a string literal's body starting just after the opening quote.
#[verifier::loop_isolation(false)]
fn parse_string_at(s: &Vec<char>, i: usize) -> (r: Option<(Vec<char>, usize)>)
    requires
        i <= s@.len(),
    ensures
        match r {
            Option::Some((cs, j)) => parse_string_body(s@, i as int) == Option::Some(
                (cs@, j as int),
            ) && i < j <= s@.len(),
            Option::None => parse_string_body(s@, i as int) is None,
        },
{
    let mut acc: Vec<char> = Vec::new();
    let mut cur = i;
    loop
        invariant
            i <= cur <= s@.len(),
            (parse_string_body(s@, i as int) is Some <==> parse_string_body(s@, cur as int)
                is Some),
            forall|rest: Seq<char>, j: int|
                parse_string_body(s@, cur as int) == Option::Some((rest, j))
                    ==> parse_string_body(s@, i as int) == Option::Some((acc@ + rest, j)),
        decreases s@.len() - cur,
    {
        if cur == s.len() {
            return Option::None;
        }
        let c = s[cur];
        if c == '"' {
            proof {
                assert(parse_string_body(s@, cur as int) == Option::Some(
                    (Seq::<char>::empty(), cur + 1),
                ));
                assert(acc@ + Seq::<char>::empty() =~= acc@);
            }
            return Option::Some((acc, cur + 1));
        } else if c == '\\' {
            if s.len() - cur < 2 {
                return Option::None;
            }
            let c2 = s[cur + 1];
            match esc_char_exec(c2) {
                Option::Some(e) => {
                    let ghost acc0 = acc@;
                    let ghost cur0 = cur as int;
                    acc.push(e);
                    cur = cur + 2;
                    proof {
                        assert(acc@ =~= acc0 + seq![e]);
                        lemma_string_step(s@, i as int, cur0, acc0, seq![e], cur as int);
                    }
                },
                Option::None => {
                    if c2 == 'u' && s.len() - cur >= 6 {
                        let z1 = s[cur + 2];
                        let z2 = s[cur + 3];
                        let h1o = hex_val_exec(s[cur + 4]);
                        let h2o = hex_val_exec(s[cur + 5]);
                        match (h1o, h2o) {
                            (Option::Some(h1), Option::Some(h2)) => {
                                if z1 == '0' && z2 == '0' {
                                    let code = 16 * h1 + h2;
                                    let e = (code as u8) as char;
                                    let ghost acc0 = acc@;
                                    let ghost cur0 = cur as int;
                                    acc.push(e);
                                    cur = cur + 6;
                                    proof {
                                        let hv1 = hex_val(s@[cur0 + 4])->Some_0;
                                        let hv2 = hex_val(s@[cur0 + 5])->Some_0;
                                        assert(hv1 == h1 as int && hv2 == h2 as int);
                                        assert(0 <= 16 * hv1 + hv2 < 256);
                                        assert(code as int == 16 * hv1 + hv2);
                                        assert(((16 * hv1 + hv2) as u8) == (code as u8));
                                        assert(e == ((16 * hv1 + hv2) as u8) as char);
                                        assert(acc@ =~= acc0 + seq![e]);
                                        lemma_string_step(
                                            s@,
                                            i as int,
                                            cur0,
                                            acc0,
                                            seq![e],
                                            cur as int,
                                        );
                                    }
                                } else {
                                    return Option::None;
                                }
                            },
                            _ => {
                                return Option::None;
                            },
                        }
                    } else {
                        return Option::None;
                    }
                },
            }
        } else {
            let ghost acc0 = acc@;
            let ghost cur0 = cur as int;
            acc.push(c);
            cur = cur + 1;
            proof {
                assert(acc@ =~= acc0 + seq![c]);
                lemma_string_step(s@, i as int, cur0, acc0, seq![c], cur as int);
            }
        }
    }
}

/// Parse an integer at `i`.
#[verifier::loop_isolation(false)]
fn parse_number_at(s: &Vec<char>, i: usize) -> (r: Option<(i64, usize)>)
    requires
        i <= s@.len(),
    ensures
        match r {
            Option::Some((v, j)) => parse_number_spec(s@, i as int) == Option::Some(
                (v as int, j as int),
            ) && i < j <= s@.len(),
            Option::None => parse_number_spec(s@, i as int) is None,
        },
{
    let neg = i < s.len() && s[i] == '-';
    let a = if neg {
        i + 1
    } else {
        i
    };
    let mut k = a;
    let mut acc: u64 = 0;
    let mut over = false;
    while k < s.len() && crate::chars::digit(s[k])
        invariant
            a <= k <= s@.len(),
            digits_end(s@, a as int) == digits_end(s@, k as int),
            all_digits(s@.subrange(a as int, k as int)),
            !over ==> acc == dec_val(s@.subrange(a as int, k as int)),
            over ==> dec_val(s@.subrange(a as int, k as int)) > 0xffff_ffff_ffff_ffffu64,
        decreases s@.len() - k,
    {
        let d = (s[k] as u32) - ('0' as u32);
        let ghost run0 = s@.subrange(a as int, k as int);
        let ghost run1 = s@.subrange(a as int, k + 1);
        proof {
            assert(run1.drop_last() =~= run0);
            assert(run1.last() == s@[k as int]);
            assert(dec_val(run1) == dec_val(run0) * 10 + digit_val(s@[k as int]));
            crate::chars::lemma_dec_val_bounds(run0);
            assert(forall|m: int| 0 <= m < run1.len() ==> run1[m] == s@[a + m]);
        }
        if !over {
            if acc > (0xffff_ffff_ffff_ffffu64 - (d as u64)) / 10 {
                over = true;
                proof {
                    assert(dec_val(run1) > 0xffff_ffff_ffff_ffffu64) by (nonlinear_arith)
                        requires
                            dec_val(run1) == dec_val(run0) * 10 + digit_val(s@[k as int]),
                            dec_val(run0) == acc,
                            acc > (0xffff_ffff_ffff_ffffu64 - (d as u64)) / 10,
                            digit_val(s@[k as int]) == d,
                            0 <= d < 10,
                    ;
                }
            } else {
                proof {
                    assert(acc * 10 + d <= 0xffff_ffff_ffff_ffffu64) by (nonlinear_arith)
                        requires
                            acc <= (0xffff_ffff_ffff_ffffu64 - (d as u64)) / 10,
                            0 <= d < 10,
                    ;
                }
                acc = acc * 10 + (d as u64);
            }
        } else {
            proof {
                assert(dec_val(run1) > 0xffff_ffff_ffff_ffffu64) by (nonlinear_arith)
                    requires
                        dec_val(run1) == dec_val(run0) * 10 + digit_val(s@[k as int]),
                        dec_val(run0) > 0xffff_ffff_ffff_ffffu64,
                        digit_val(s@[k as int]) >= 0,
                ;
            }
        }
        k = k + 1;
    }
    let b = k;
    if b == a {
        return Option::None;
    }
    if s[a] == '0' && b > a + 1 {
        return Option::None;
    }
    proof {
        crate::chars::lemma_dec_val_bounds(s@.subrange(a as int, b as int));
    }
    if over {
        return Option::None;
    }
    if neg {
        if acc > 0x8000_0000_0000_0000u64 {
            Option::None
        } else if acc == 0x8000_0000_0000_0000u64 {
            Option::Some((i64::MIN, b))
        } else {
            Option::Some((-(acc as i64), b))
        }
    } else {
        if acc > 0x7fff_ffff_ffff_ffffu64 {
            Option::None
        } else {
            Option::Some((acc as i64, b))
        }
    }
}

/// The mathematical reading of a parser result.
pub open spec fn value_result(r: Option<(JsonValue, usize)>) -> Option<(JsonV, int)> {
    match r {
        Option::Some((v, j)) => Option::Some((view_json(v), j as int)),
        Option::None => Option::None,
    }
}

pub open spec fn elems_result(r: Option<(Vec<JsonValue>, usize)>) -> Option<(Seq<JsonV>, int)> {
    match r {
        Option::Some((es, j)) => Option::Some((view_arr(es@, 0), j as int)),
        Option::None => Option::None,
    }
}

pub open spec fn members_result(r: Option<(Vec<(String, JsonValue)>, usize)>) -> Option<
    (Seq<(Seq<char>, JsonV)>, int),
> {
    match r {
        Option::Some((ms, j)) => Option::Some((view_members(ms@, 0), j as int)),
        Option::None => Option::None,
    }
}

/// Parse one value at `i` (no leading whitespace).
pub fn parse_value_at(s: &Vec<char>, i: usize) -> (r: Option<(JsonValue, usize)>)
    requires
        i <= s@.len(),
    ensures
        r is Some ==> i < r->Some_0.1 <= s@.len(),
        forall|fuel: nat|
            fuel > 2 * (s@.len() - i) ==> parse_value_spec(s@, i as int, fuel) == value_result(
                r,
            ),
    decreases s@.len() - i, 0int,
{
    if i >= s.len() {
        return Option::None;
    }
    let c = s[i];
    if c == '"' {
        match parse_string_at(s, i + 1) {
            Option::Some((cs, j)) => {
                let st = crate::chars::chars_string(&cs);
                Option::Some((JsonValue::Str(st), j))
            },
            Option::None => Option::None,
        }
    } else if c == '{' {
        let a = crate::chars::skip_spaces_exec(s, i + 1);
        if a < s.len() && s[a] == '}' {
            let r = Option::Some((JsonValue::Obj(Vec::new()), a + 1));
            proof {
                assert(view_members(Seq::<(String, JsonValue)>::empty(), 0) =~= Seq::<
                    (Seq<char>, JsonV),
                >::empty());
            }
            r
        } else {
            match parse_members_at(s, a) {
                Option::Some((ms, j)) => {
                    let ghost msv = view_members(ms@, 0);
                    let ghost jj = j as int;
                    let b = crate::chars::skip_spaces_exec(s, j);
                    if b < s.len() && s[b] == '}' {
                        let r = Option::Some((JsonValue::Obj(ms), b + 1));
                        proof {
                            assert forall|fuel: nat| fuel > 2 * (s@.len() - i) implies parse_value_spec(
                                s@,
                                i as int,
                                fuel,
                            ) == value_result(r) by {
                                assert(parse_members_spec(s@, a as int, (fuel - 1) as nat)
                                    == Option::Some((msv, jj)));
                            }
                        }
                        r
                    } else {
                        let r = Option::<(JsonValue, usize)>::None;
                        proof {
                            assert forall|fuel: nat| fuel > 2 * (s@.len() - i) implies parse_value_spec(
                                s@,
                                i as int,
                                fuel,
                            ) == value_result(r) by {
                                assert(parse_members_spec(s@, a as int, (fuel - 1) as nat)
                                    == Option::Some((msv, jj)));
                            }
                        }
                        r
                    }
                },
                Option::None => {
                    let r = Option::<(JsonValue, usize)>::None;
                    proof {
                        assert forall|fuel: nat| fuel > 2 * (s@.len() - i) implies parse_value_spec(
                            s@,
                            i as int,
                            fuel,
                        ) == value_result(r) by {
                            assert(parse_members_spec(s@, a as int, (fuel - 1) as nat)
                                is None);
                        }
                    }
                    r
                },
            }
        }
    } else if c == '[' {
        let a = crate::chars::skip_spaces_exec(s, i + 1);
        if a < s.len() && s[a] == ']' {
            let r = Option::Some((JsonValue::Arr(Vec::new()), a + 1));
            proof {
                assert(view_arr(Seq::<JsonValue>::empty(), 0) =~= Seq::<JsonV>::empty());
            }
            r
        } else {
            match parse_elems_at(s, a) {
                Option::Some((es, j)) => {
                    let ghost esv = view_arr(es@, 0);
                    let ghost jj = j as int;
                    let b = crate::chars::skip_spaces_exec(s, j);
                    if b < s.len() && s[b] == ']' {
                        let r = Option::Some((JsonValue::Arr(es), b + 1));
                        proof {
                            assert forall|fuel: nat| fuel > 2 * (s@.len() - i) implies parse_value_spec(
                                s@,
                                i as int,
                                fuel,
                            ) == value_result(r) by {
                                assert(parse_elems_spec(s@, a as int, (fuel - 1) as nat)
                                    == Option::Some((esv, jj)));
                            }
                        }
                        r
                    } else {
                        let r = Option::<(JsonValue, usize)>::None;
                        proof {
                            assert forall|fuel: nat| fuel > 2 * (s@.len() - i) implies parse_value_spec(
                                s@,
                                i as int,
                                fuel,
                            ) == value_result(r) by {
                                assert(parse_elems_spec(s@, a as int, (fuel - 1) as nat)
                                    == Option::Some((esv, jj)));
                            }
                        }
                        r
                    }
                },
                Option::None => {
                    let r = Option::<(JsonValue, usize)>::None;
                    proof {
                        assert forall|fuel: nat| fuel > 2 * (s@.len() - i) implies parse_value_spec(
                            s@,
                            i as int,
                            fuel,
                        ) == value_result(r) by {
                            assert(parse_elems_spec(s@, a as int, (fuel - 1) as nat) is None);
                        }
                    }
                    r
                },
            }
        }
    } else if c == 't' {
        if s.len() - i >= 4 && s[i + 1] == 'r' && s[i + 2] == 'u' && s[i + 3] == 'e' {
            Option::Some((JsonValue::Bool(true), i + 4))
        } else {
            Option::None
        }
    } else if c == 'f' {
        if s.len() - i >= 5 && s[i + 1] == 'a' && s[i + 2] == 'l' && s[i + 3] == 's' && s[i + 4]
            == 'e' {
            Option::Some((JsonValue::Bool(false), i + 5))
        } else {
            Option::None
        }
    } else if c == 'n' {
        if s.len() - i >= 4 && s[i + 1] == 'u' && s[i + 2] == 'l' && s[i + 3] == 'l' {
            Option::Some((JsonValue::Null, i + 4))
        } else {
            Option::None
        }
    } else if c == '-' || crate::chars::digit(c) {
        match parse_number_at(s, i) {
            Option::Some((v, j)) => Option::Some((JsonValue::Int(v), j)),
            Option::None => Option::None,
        }
    } else {
        Option::None
    }
}

/// Parse one or more comma-separated elements.
pub fn parse_elems_at(s: &Vec<char>, i: usize) -> (r: Option<(Vec<JsonValue>, usize)>)
    requires
        i <= s@.len(),
    ensures
        r is Some ==> i < r->Some_0.1 <= s@.len(),
        forall|fuel: nat|
            fuel > 2 * (s@.len() - i) + 1 ==> parse_elems_spec(s@, i as int, fuel)
                == elems_result(r),
    decreases s@.len() - i, 1int,
{
    match parse_value_at(s, i) {
        Option::Some((v, j)) => {
            let ghost vv = view_json(v);
            let ghost jj = j as int;
            let c = crate::chars::skip_spaces_exec(s, j);
            if c < s.len() && s[c] == ',' {
                let d = crate::chars::skip_spaces_exec(s, c + 1);
                match parse_elems_at(s, d) {
                    Option::Some((rest, e)) => {
                        let ghost rest0 = rest@;
                        let ghost ee = e as int;
                        let mut out = rest;
                        out.insert(0, v);
                        let r = Option::Some((out, e));
                        proof {
                            lemma_view_arr(rest0.insert(0, v), 0);
                            lemma_view_arr(rest0, 0);
                            assert(view_arr(rest0.insert(0, v), 0) =~= seq![vv] + view_arr(
                                rest0,
                                0,
                            ));
                            assert forall|fuel: nat| fuel > 2 * (s@.len() - i) + 1 implies parse_elems_spec(
                                s@,
                                i as int,
                                fuel,
                            ) == elems_result(r) by {
                                assert(parse_value_spec(s@, i as int, (fuel - 1) as nat)
                                    == Option::Some((vv, jj)));
                                assert(parse_elems_spec(s@, d as int, (fuel - 1) as nat)
                                    == Option::Some((view_arr(rest0, 0), ee)));
                            }
                        }
                        r
                    },
                    Option::None => {
                        let r = Option::<(Vec<JsonValue>, usize)>::None;
                        proof {
                            assert forall|fuel: nat| fuel > 2 * (s@.len() - i) + 1 implies parse_elems_spec(
                                s@,
                                i as int,
                                fuel,
                            ) == elems_result(r) by {
                                assert(parse_value_spec(s@, i as int, (fuel - 1) as nat)
                                    == Option::Some((vv, jj)));
                                assert(parse_elems_spec(s@, d as int, (fuel - 1) as nat)
                                    is None);
                            }
                        }
                        r
                    },
                }
            } else {
                let mut one: Vec<JsonValue> = Vec::new();
                one.push(v);
                let r = Option::Some((one, j));
                proof {
                    lemma_view_arr(one@, 0);
                    assert(view_arr(one@, 0) =~= seq![vv]);
                    assert forall|fuel: nat| fuel > 2 * (s@.len() - i) + 1 implies parse_elems_spec(
                        s@,
                        i as int,
                        fuel,
                    ) == elems_result(r) by {
                        assert(parse_value_spec(s@, i as int, (fuel - 1) as nat) == Option::Some(
                            (vv, jj),
                        ));
                    }
                }
                r
            }
        },
        Option::None => {
            let r = Option::<(Vec<JsonValue>, usize)>::None;
            proof {
                assert forall|fuel: nat| fuel > 2 * (s@.len() - i) + 1 implies parse_elems_spec(
                    s@,
                    i as int,
                    fuel,
                ) == elems_result(r) by {
                    assert(parse_value_spec(s@, i as int, (fuel - 1) as nat) is None);
                }
            }
            r
        },
    }
}

/// Parse one or more comma-separated `"key": value` members.
pub fn parse_members_at(s: &Vec<char>, i: usize) -> (r: Option<
    (Vec<(String, JsonValue)>, usize),
>)
    requires
        i <= s@.len(),
    ensures
        r is Some ==> i < r->Some_0.1 <= s@.len(),
        forall|fuel: nat|
            fuel > 2 * (s@.len() - i) + 1 ==> parse_members_spec(s@, i as int, fuel)
                == members_result(r),
    decreases s@.len() - i, 1int,
{
    if i >= s.len() {
        return Option::None;
    }
    if s[i] != '"' {
        return Option::None;
    }
    match parse_string_at(s, i + 1) {
        Option::Some((kcs, j)) => {
            let ghost kk = kcs@;
            let key = crate::chars::chars_string(&kcs);
            let c = crate::chars::skip_spaces_exec(s, j);
            if c < s.len() && s[c] == ':' {
                let d = crate::chars::skip_spaces_exec(s, c + 1);
                match parse_value_at(s, d) {
                    Option::Some((v, e)) => {
                        let ghost vv = view_json(v);
                        let ghost ee = e as int;
                        let f = crate::chars::skip_spaces_exec(s, e);
                        if f < s.len() && s[f] == ',' {
                            let g = crate::chars::skip_spaces_exec(s, f + 1);
                            match parse_members_at(s, g) {
                                Option::Some((rest, h)) => {
                                    let ghost rest0 = rest@;
                                    let ghost hh = h as int;
                                    let mut out = rest;
                                    out.insert(0, (key, v));
                                    let r = Option::Some((out, h));
                                    proof {
                                        lemma_view_members(rest0.insert(0, (key, v)), 0);
                                        lemma_view_members(rest0, 0);
                                        assert(view_members(rest0.insert(0, (key, v)), 0) =~= seq![
                                            (kk, vv),
                                        ] + view_members(rest0, 0));
                                        assert forall|fuel: nat| fuel > 2 * (s@.len() - i) + 1 implies
                                            parse_members_spec(s@, i as int, fuel)
                                            == members_result(r) by {
                                            assert(parse_value_spec(
                                                s@,
                                                d as int,
                                                (fuel - 1) as nat,
                                            ) == Option::Some((vv, ee)));
                                            assert(parse_members_spec(
                                                s@,
                                                g as int,
                                                (fuel - 1) as nat,
                                            ) == Option::Some((view_members(rest0, 0), hh)));
                                        }
                                    }
                                    r
                                },
                                Option::None => {
                                    let r = Option::<(Vec<(String, JsonValue)>, usize)>::None;
                                    proof {
                                        assert forall|fuel: nat| fuel > 2 * (s@.len() - i) + 1 implies
                                            parse_members_spec(s@, i as int, fuel)
                                            == members_result(r) by {
                                            assert(parse_value_spec(
                                                s@,
                                                d as int,
                                                (fuel - 1) as nat,
                                            ) == Option::Some((vv, ee)));
                                            assert(parse_members_spec(
                                                s@,
                                                g as int,
                                                (fuel - 1) as nat,
                                            ) is None);
                                        }
                                    }
                                    r
                                },
                            }
                        } else {
                            let mut one: Vec<(String, JsonValue)> = Vec::new();
                            one.push((key, v));
                            let r = Option::Some((one, e));
                            proof {
                                lemma_view_members(one@, 0);
                                assert(view_members(one@, 0) =~= seq![(kk, vv)]);
                                assert forall|fuel: nat| fuel > 2 * (s@.len() - i) + 1 implies
                                    parse_members_spec(s@, i as int, fuel) == members_result(
                                    r,
                                ) by {
                                    assert(parse_value_spec(s@, d as int, (fuel - 1) as nat)
                                        == Option::Some((vv, ee)));
                                }
                            }
                            r
                        }
                    },
                    Option::None => {
                        let r = Option::<(Vec<(String, JsonValue)>, usize)>::None;
                        proof {
                            assert forall|fuel: nat| fuel > 2 * (s@.len() - i) + 1 implies
                                parse_members_spec(s@, i as int, fuel) == members_result(r) by {
                                assert(parse_value_spec(s@, d as int, (fuel - 1) as nat)
                                    is None);
                            }
                        }
                        r
                    },
                }
            } else {
                Option::None
            }
        },
        Option::None => Option::None,
    }
}

/// Parse a whole document: one value, optionally surrounded by whitespace.
pub fn parse_document(text: &str) -> (r: Result<JsonValue, crate::error::GhReplyError>)
    ensures
        match r {
            Result::Ok(v) => parse_json_spec(text@) == Option::Some(v@),
            Result::Err(e) => parse_json_spec(text@) is None && e is JsonError,
        },
{
    let cs = crate::chars::str_chars(text);
    let i = crate::chars::skip_spaces_exec(&cs, 0);
    match parse_value_at(&cs, i) {
        Option::Some((v, j)) => {
            let e = crate::chars::skip_spaces_exec(&cs, j);
            if e == cs.len() {
                proof {
                    assert(doc_fuel(text@) > 2 * (text@.len() - i));
                }
                Result::Ok(v)
            } else {
                Result::Err(
                    crate::error::GhReplyError::JsonError(
                        String::from_str("trailing characters after the document"),
                    ),
                )
            }
        },
        Option::None => {
            proof {
                assert(doc_fuel(text@) > 2 * (text@.len() - i));
            }
            Result::Err(
                crate::error::GhReplyError::JsonError(String::from_str("malformed document")),
            )
        },
    }
}


// ------------------------------------------------------------------
// The round trip: parsing canonical text gives the value back
// ------------------------------------------------------------------

/// Integers fit the executable 64-bit representation, recursively.
pub open spec fn wf_json(v: JsonV) -> bool
    decreases v, 0int,
{
    match v {
        JsonV::Null => true,
        JsonV::Bool(_) => true,
        JsonV::Int(n) => -0x8000_0000_0000_0000 <= n <= 0x7fff_ffff_ffff_ffff,
        JsonV::Str(_) => true,
        JsonV::Arr(es) => wf_elems(es, 0),
        JsonV::Obj(ms) => wf_members(ms, 0),
    }
}

pub open spec fn wf_elems(es: Seq<JsonV>, k: int) -> bool
    decreases es, es.len() - k,
    when 0 <= k
{
    if k >= es.len() {
        true
    } else {
        wf_json(es[k]) && wf_elems(es, k + 1)
    }
}

pub open spec fn wf_members(ms: Seq<(Seq<char>, JsonV)>, k: int) -> bool
    decreases ms, ms.len() - k,
    when 0 <= k
{
    if k >= ms.len() {
        true
    } else {
        wf_json(ms[k].1) && wf_members(ms, k + 1)
    }
}

pub proof fn lemma_wf_elems_at(es: Seq<JsonV>, k: int, m: int)
    requires
        0 <= k <= m < es.len(),
        wf_elems(es, k),
    ensures
        wf_json(es[m]),
    decreases m - k,
{
    if k < m {
        lemma_wf_elems_at(es, k + 1, m);
    }
}

pub proof fn lemma_wf_members_at(ms: Seq<(Seq<char>, JsonV)>, k: int, m: int)
    requires
        0 <= k <= m < ms.len(),
        wf_members(ms, k),
    ensures
        wf_json(ms[m].1),
    decreases m - k,
{
    if k < m {
        lemma_wf_members_at(ms, k + 1, m);
    }
}

/// The image of every executable value is well-formed.
pub proof fn lemma_view_wf(v: JsonValue)
    ensures
        wf_json(view_json(v)),
    decreases v, 0int, 0int,
{
    match v {
        JsonValue::Arr(elems) => {
            lemma_view_wf_arr(elems@, 0);
        },
        JsonValue::Obj(ms) => {
            lemma_view_wf_members(ms@, 0);
        },
        _ => {},
    }
}

proof fn lemma_view_wf_arr(es: Seq<JsonValue>, k: int)
    requires
        0 <= k,
    ensures
        wf_elems(view_arr(es, k), 0),
    decreases es, es.len() - k, 1int,
{
    if k < es.len() {
        lemma_view_wf(es[k]);
        lemma_view_wf_arr(es, k + 1);
        let whole = view_arr(es, k);
        let rest = view_arr(es, k + 1);
        assert(whole == seq![view_json(es[k])] + rest);
        lemma_wf_elems_cons(view_json(es[k]), rest);
    }
}

proof fn lemma_view_wf_members(ms: Seq<(String, JsonValue)>, k: int)
    requires
        0 <= k,
    ensures
        wf_members(view_members(ms, k), 0),
    decreases ms, ms.len() - k, 1int,
{
    if k < ms.len() {
        lemma_view_wf(ms[k].1);
        lemma_view_wf_members(ms, k + 1);
        let rest = view_members(ms, k + 1);
        assert(view_members(ms, k) == seq![(ms[k].0@, view_json(ms[k].1))] + rest);
        lemma_wf_members_cons((ms[k].0@, view_json(ms[k].1)), rest);
    }
}

proof fn lemma_wf_elems_cons(v: JsonV, rest: Seq<JsonV>)
    requires
        wf_json(v),
        wf_elems(rest, 0),
    ensures
        wf_elems(seq![v] + rest, 0),
{
    lemma_wf_elems_shift(seq![v] + rest, rest, 0);
    assert((seq![v] + rest)[0] == v);
}

proof fn lemma_wf_elems_shift(whole: Seq<JsonV>, rest: Seq<JsonV>, k: int)
    requires
        0 <= k <= rest.len(),
        whole.len() == rest.len() + 1,
        forall|m: int| 0 <= m < rest.len() ==> whole[m + 1] == #[trigger] rest[m],
        wf_elems(rest, k),
    ensures
        wf_elems(whole, k + 1),
    decreases rest.len() - k,
{
    if k < rest.len() {
        lemma_wf_elems_shift(whole, rest, k + 1);
        assert(whole[k + 1] == rest[k]);
    }
}

proof fn lemma_wf_members_cons(v: (Seq<char>, JsonV), rest: Seq<(Seq<char>, JsonV)>)
    requires
        wf_json(v.1),
        wf_members(rest, 0),
    ensures
        wf_members(seq![v] + rest, 0),
{
    lemma_wf_members_shift(seq![v] + rest, rest, 0);
    assert((seq![v] + rest)[0] == v);
}

proof fn lemma_wf_members_shift(
    whole: Seq<(Seq<char>, JsonV)>,
    rest: Seq<(Seq<char>, JsonV)>,
    k: int,
)
    requires
        0 <= k <= rest.len(),
        whole.len() == rest.len() + 1,
        forall|m: int| 0 <= m < rest.len() ==> whole[m + 1] == #[trigger] rest[m],
        wf_members(rest, k),
    ensures
        wf_members(whole, k + 1),
    decreases rest.len() - k,
{
    if k < rest.len() {
        lemma_wf_members_shift(whole, rest, k + 1);
        assert(whole[k + 1] == rest[k]);
    }
}

/// Members whose values are all well-formed form a well-formed list.
pub proof fn lemma_wf_members_all(ms: Seq<(Seq<char>, JsonV)>, k: int)
    requires
        0 <= k <= ms.len(),
        forall|m: int| k <= m < ms.len() ==> wf_json((#[trigger] ms[m]).1),
    ensures
        wf_members(ms, k),
    decreases ms.len() - k,
{
    if k < ms.len() {
        lemma_wf_members_all(ms, k + 1);
    }
}

/// The hexadecimal digit characters read back as their values.
proof fn lemma_hex_inverse(d: int)
    requires
        0 <= d < 16,
    ensures
        hex_val(hex_char(d)) == Option::Some(d),
{
}

/// A rendered value's text is non-empty and starts with a character
/// that is neither whitespace nor a comma.
pub proof fn lemma_render_head(v: JsonV)
    ensures
        render_json(v).len() >= 1,
        !is_space(render_json(v)[0]),
        render_json(v)[0] != ',',
        render_json(v)[0] != ':',
{
    match v {
        JsonV::Int(n) => {
            if n < 0 {
                assert(render_json(v)[0] == '-');
            } else {
                crate::chars::lemma_dec_digits_val(n as nat);
                assert(render_json(v)[0] == dec_digits(n as nat)[0]);
                assert(is_digit(render_json(v)[0]));
            }
        },
        _ => {},
    }
}

/// Skipping whitespace at a non-space character stays put.
proof fn lemma_skip_here(s: Seq<char>, x: int)
    requires
        0 <= x <= s.len(),
        x < s.len() ==> !is_space(s[x]),
    ensures
        skip_spaces(s, x) == x,
{
}

/// The body of a rendered string literal parses back to the string.
proof fn lemma_escape_parse(s: Seq<char>, i: int, t: Seq<char>)
    requires
        0 <= i,
        i + escape_str(t).len() + 1 <= s.len(),
        forall|m: int| 0 <= m < escape_str(t).len() ==> s[i + m] == #[trigger] escape_str(t)[m],
        s[i + escape_str(t).len()] == '"',
    ensures
        parse_string_body(s, i) == Option::Some((t, i + escape_str(t).len() + 1)),
    decreases t.len(),
{
    let w = escape_str(t);
    if t.len() == 0 {
        assert(w.len() == 0);
        assert(s[i] == '"');
    } else {
        let c = t[0];
        let e = escape_char(c);
        let rest = t.skip(1);
        assert(w == e + escape_str(rest));
        assert forall|m: int| 0 <= m < escape_str(rest).len() implies s[i + e.len() + m]
            == #[trigger] escape_str(rest)[m] by {
            assert(w[e.len() + m] == escape_str(rest)[m]);
        }
        assert(s[i + e.len() + escape_str(rest).len()] == '"');
        lemma_escape_parse(s, i + e.len(), rest);
        assert(seq![c] + rest =~= t);
        if c == '"' || c == '\\' || c == '\n' || c == '\r' || c == '\t' {
            assert(e.len() == 2);
            assert(s[i] == '\\') by {
                assert(w[0] == e[0]);
            }
            assert(esc_char_of(s[i + 1]) == Option::Some(c)) by {
                assert(w[1] == e[1]);
            }
        } else if (c as u32) < 0x20 {
            assert(e.len() == 6);
            let hi = (c as u32) as int / 16;
            let lo = (c as u32) as int % 16;
            assert(s[i] == '\\') by {
                assert(w[0] == e[0]);
            }
            assert(s[i + 1] == 'u') by {
                assert(w[1] == e[1]);
            }
            assert(s[i + 2] == '0') by {
                assert(w[2] == e[2]);
            }
            assert(s[i + 3] == '0') by {
                assert(w[3] == e[3]);
            }
            assert(s[i + 4] == hex_char(hi)) by {
                assert(w[4] == e[4]);
            }
            assert(s[i + 5] == hex_char(lo)) by {
                assert(w[5] == e[5]);
            }
            assert(esc_char_of('u') is None);
            lemma_hex_inverse(hi);
            lemma_hex_inverse(lo);
            let code = 16 * hi + lo;
            assert(code == c as u32) by (nonlinear_arith)
                requires
                    hi == (c as u32) as int / 16,
                    lo == (c as u32) as int % 16,
                    code == 16 * hi + lo,
            ;
            assert(0 <= code < 256);
            let back = ((code as u8) as char);
            assert(back as u32 == c as u32);
            crate::chars::lemma_char_code_eq(back, c);
        } else {
            assert(e == seq![c]);
            assert(s[i] == c) by {
                assert(w[0] == e[0]);
            }
            assert(c != '"' && c != '\\');
        }
    }
}

/// Maximal digit runs are read whole.
proof fn lemma_digits_run(s: Seq<char>, a: int, m: int)
    requires
        0 <= a,
        a + m <= s.len(),
        0 <= m,
        forall|x: int| a <= x < a + m ==> is_digit(#[trigger] s[x]),
        a + m == s.len() || !is_digit(s[a + m]),
    ensures
        digits_end(s, a) == a + m,
    decreases m,
{
    if m > 0 {
        lemma_digits_run(s, a + 1, m - 1);
    }
}

/// A rendered integer parses back to itself when no digit follows it.
proof fn lemma_number_parse(s: Seq<char>, i: int, n: int)
    requires
        0 <= i,
        -0x8000_0000_0000_0000 <= n <= 0x7fff_ffff_ffff_ffff,
        i + render_int(n).len() <= s.len(),
        forall|m: int| 0 <= m < render_int(n).len() ==> s[i + m] == #[trigger] render_int(n)[m],
        i + render_int(n).len() == s.len() || !is_digit(s[i + render_int(n).len()]),
    ensures
        parse_number_spec(s, i) == Option::Some((n, i + render_int(n).len())),
{
    let w = render_int(n);
    let mag: nat = if n < 0 {
        (-n) as nat
    } else {
        n as nat
    };
    crate::chars::lemma_dec_digits_val(mag);
    let digs = dec_digits(mag);
    let a = if n < 0 {
        i + 1
    } else {
        i
    };
    if n < 0 {
        assert(w == seq!['-'] + digs);
        assert(s[i] == '-') by {
            assert(w[0] == '-');
        }
        assert forall|m: int| 0 <= m < digs.len() implies s[a + m] == #[trigger] digs[m] by {
            assert(w[1 + m] == digs[m]);
        }
    } else {
        assert(w == digs);
        assert forall|m: int| 0 <= m < digs.len() implies s[a + m] == #[trigger] digs[m] by {
            assert(w[m] == digs[m]);
        }
        assert(is_digit(s[i])) by {
            assert(s[a + 0] == digs[0]);
        }
        assert(s[i] != '-');
    }
    assert forall|x: int| a <= x < a + digs.len() implies is_digit(#[trigger] s[x]) by {
        assert(s[a + (x - a)] == digs[x - a]);
    }
    lemma_digits_run(s, a, digs.len() as int);
    let b = digits_end(s, a);
    assert(b == a + digs.len());
    assert(s.subrange(a, b) =~= digs) by {
        assert forall|m: int| 0 <= m < digs.len() implies s.subrange(a, b)[m]
            == #[trigger] digs[m] by {
            assert(s[a + m] == digs[m]);
        }
    }
    assert(dec_val(s.subrange(a, b)) == mag);
    if mag > 0 {
        assert(s[a] != '0') by {
            assert(s[a + 0] == digs[0]);
        }
    } else {
        assert(digs.len() == 1);
    }
}

/// Parsing the canonical text of a well-formed value, in place inside a
/// longer text, yields the value and stops exactly at the text's end.
#[verifier::rlimit(100)]
#[verifier::spinoff_prover]
pub proof fn lemma_render_parse_value(s: Seq<char>, i: int, v: JsonV, fuel: nat)
    requires
        wf_json(v),
        0 <= i,
        i + render_json(v).len() <= s.len(),
        forall|m: int| 0 <= m < render_json(v).len() ==> s[i + m] == #[trigger] render_json(
            v,
        )[m],
        i + render_json(v).len() == s.len() || !is_digit(s[i + render_json(v).len()]),
        fuel > 2 * (s.len() - i),
    ensures
        parse_value_spec(s, i, fuel) == Option::Some((v, i + render_json(v).len())),
    decreases v, 0int, 0int,
{
    lemma_render_head(v);
    let t = render_json(v);
    let end = i + t.len();
    match v {
        JsonV::Null => {
            assert(s[i] == 'n' && s[i + 1] == 'u' && s[i + 2] == 'l' && s[i + 3] == 'l') by {
                assert(t[0] == 'n' && t[1] == 'u' && t[2] == 'l' && t[3] == 'l');
            }
            assert(parse_value_spec(s, i, fuel) == Option::Some((v, end)));
        },
        JsonV::Bool(b) => {
            if b {
                assert(s[i] == 't' && s[i + 1] == 'r' && s[i + 2] == 'u' && s[i + 3] == 'e')
                    by {
                    assert(t[0] == 't' && t[1] == 'r' && t[2] == 'u' && t[3] == 'e');
                }
            } else {
                assert(s[i] == 'f' && s[i + 1] == 'a' && s[i + 2] == 'l' && s[i + 3] == 's'
                    && s[i + 4] == 'e') by {
                    assert(t[0] == 'f' && t[1] == 'a' && t[2] == 'l' && t[3] == 's' && t[4]
                        == 'e');
                }
            }
            assert(parse_value_spec(s, i, fuel) == Option::Some((v, end)));
        },
        JsonV::Int(n) => {
            lemma_number_parse(s, i, n);
            crate::chars::lemma_dec_digits_val(
                if n < 0 {
                    (-n) as nat
                } else {
                    n as nat
                },
            );
            if n < 0 {
                assert(s[i] == '-') by {
                    assert(t[0] == '-');
                }
            } else {
                assert(is_digit(s[i])) by {
                    assert(t[0] == dec_digits(n as nat)[0]);
                }
                assert(s[i] != '"' && s[i] != '{' && s[i] != '[' && s[i] != 't' && s[i] != 'f'
                    && s[i] != 'n' && s[i] != '-');
            }
            assert(parse_value_spec(s, i, fuel) == Option::Some((v, end)));
        },
        JsonV::Str(cs) => {
            assert(t == seq!['"'] + escape_str(cs) + seq!['"']);
            assert(s[i] == '"') by {
                assert(t[0] == '"');
            }
            assert forall|m: int| 0 <= m < escape_str(cs).len() implies s[i + 1 + m]
                == #[trigger] escape_str(cs)[m] by {
                assert(t[1 + m] == escape_str(cs)[m]);
            }
            assert(s[i + 1 + escape_str(cs).len()] == '"') by {
                assert(t[1 + escape_str(cs).len() as int] == '"');
            }
            lemma_escape_parse(s, i + 1, cs);
            assert(parse_value_spec(s, i, fuel) == Option::Some((v, end)));
        },
        JsonV::Arr(es) => {
            assert(t == seq!['['] + render_elems(es, 0) + seq![']']);
            assert(s[i] == '[') by {
                assert(t[0] == '[');
            }
            let inner = render_elems(es, 0);
            assert(s[end - 1] == ']') by {
                assert(t[1 + inner.len() as int] == ']');
            }
            if es.len() == 0 {
                assert(es =~= Seq::<JsonV>::empty());
                assert(inner =~= Seq::<char>::empty());
                assert(s[i + 1] == ']') by {
                    assert(t[1] == ']');
                }
                lemma_skip_here(s, i + 1);
            } else {
                assert forall|m: int| 0 <= m < inner.len() implies s[i + 1 + m]
                    == #[trigger] inner[m] by {
                    assert(t[1 + m] == inner[m]);
                }
                lemma_wf_elems_at(es, 0, 0);
                lemma_render_head(es[0]);
                lemma_render_nonbracket(es[0]);
                assert(inner[0] == render_json(es[0])[0]) by {
                    assert(inner == render_json(es[0]) + seq![','] + render_elems(es, 1)
                        || inner == render_json(es[0]));
                }
                assert(inner.len() >= 1);
                assert(!is_space(s[i + 1]) && s[i + 1] != ']');
                lemma_skip_here(s, i + 1);
                lemma_render_parse_elems(s, i + 1, es, 0, (fuel - 1) as nat);
                let j = i + 1 + inner.len();
                assert(s[j] == ']');
                lemma_skip_here(s, j);
                assert(es.skip(0) =~= es);
            }
            assert(parse_value_spec(s, i, fuel) == Option::Some((v, end)));
        },
        JsonV::Obj(ms) => {
            assert(t == seq!['{'] + render_members(ms, 0) + seq!['}']);
            assert(s[i] == '{') by {
                assert(t[0] == '{');
            }
            let inner = render_members(ms, 0);
            assert(s[end - 1] == '}') by {
                assert(t[1 + inner.len() as int] == '}');
            }
            if ms.len() == 0 {
                assert(ms =~= Seq::<(Seq<char>, JsonV)>::empty());
                assert(inner =~= Seq::<char>::empty());
                assert(s[i + 1] == '}') by {
                    assert(t[1] == '}');
                }
                lemma_skip_here(s, i + 1);
            } else {
                assert forall|m: int| 0 <= m < inner.len() implies s[i + 1 + m]
                    == #[trigger] inner[m] by {
                    assert(t[1 + m] == inner[m]);
                }
                assert(inner.len() >= 1 && inner[0] == '"') by {
                    assert(inner == render_member(ms[0]) + seq![','] + render_members(ms, 1)
                        || inner == render_member(ms[0]));
                    assert(render_member(ms[0])[0] == '"');
                    assert(render_member(ms[0]).len() >= 1);
                }
                assert(s[i + 1] == '"') by {
                    assert(s[i + 1 + 0] == inner[0]);
                }
                lemma_skip_here(s, i + 1);
                lemma_render_parse_members(s, i + 1, ms, 0, (fuel - 1) as nat);
                let j = i + 1 + inner.len();
                assert(s[j] == '}');
                lemma_skip_here(s, j);
                assert(ms.skip(0) =~= ms);
            }
            assert(parse_value_spec(s, i, fuel) == Option::Some((v, end)));
        },
    }
}

/// A rendered value never starts with a closing bracket.
proof fn lemma_render_nonbracket(v: JsonV)
    ensures
        render_json(v)[0] != ']',
        render_json(v)[0] != '}',
{
    match v {
        JsonV::Int(n) => {
            if n < 0 {
                assert(render_json(v)[0] == '-');
            } else {
                crate::chars::lemma_dec_digits_val(n as nat);
                assert(is_digit(render_json(v)[0]));
            }
        },
        _ => {},
    }
}

/// Rendered element lists parse back, in place.
#[verifier::rlimit(100)]
#[verifier::spinoff_prover]
pub proof fn lemma_render_parse_elems(s: Seq<char>, i: int, es: Seq<JsonV>, k: int, fuel: nat)
    requires
        0 <= k < es.len(),
        wf_elems(es, 0),
        0 <= i,
        i + render_elems(es, k).len() <= s.len(),
        forall|m: int| 0 <= m < render_elems(es, k).len() ==> s[i + m]
            == #[trigger] render_elems(es, k)[m],
        i + render_elems(es, k).len() < s.len(),
        !is_digit(s[i + render_elems(es, k).len()]),
        !is_space(s[i + render_elems(es, k).len()]),
        s[i + render_elems(es, k).len()] != ',',
        fuel > 2 * (s.len() - i) + 1,
    ensures
        parse_elems_spec(s, i, fuel) == Option::Some(
            (es.skip(k), i + render_elems(es, k).len()),
        ),
    decreases es, es.len() - k, 0int,
{
    let t = render_elems(es, k);
    let ev = render_json(es[k]);
    lemma_wf_elems_at(es, 0, k);
    lemma_render_head(es[k]);
    if k + 1 < es.len() {
        assert(t == ev + seq![','] + render_elems(es, k + 1));
        assert forall|m: int| 0 <= m < ev.len() implies s[i + m] == #[trigger] ev[m] by {
            assert(t[m] == ev[m]);
        }
        assert(s[i + ev.len()] == ',') by {
            assert(t[ev.len() as int] == ',');
        }
        lemma_render_parse_value(s, i, es[k], (fuel - 1) as nat);
        let p = i + ev.len();
        lemma_skip_here(s, p);
        let d = p + 1;
        let rest_t = render_elems(es, k + 1);
        assert forall|m: int| 0 <= m < rest_t.len() implies s[d + m] == #[trigger] rest_t[m] by {
            assert(t[ev.len() + 1 + m] == rest_t[m]);
        }
        lemma_wf_elems_at(es, 0, k + 1);
        lemma_render_head(es[k + 1]);
        assert(rest_t[0] == render_json(es[k + 1])[0]) by {
            assert(rest_t == render_json(es[k + 1]) + seq![','] + render_elems(es, k + 2)
                || rest_t == render_json(es[k + 1]));
        }
        assert(!is_space(s[d])) by {
            assert(s[d + 0] == rest_t[0]);
        }
        lemma_skip_here(s, d);
        lemma_render_parse_elems(s, d, es, k + 1, (fuel - 1) as nat);
        assert(seq![es[k]] + es.skip(k + 1) =~= es.skip(k));
    } else {
        assert(t == ev);
        assert forall|m: int| 0 <= m < ev.len() implies s[i + m] == #[trigger] ev[m] by {
            assert(t[m] == ev[m]);
        }
        lemma_render_parse_value(s, i, es[k], (fuel - 1) as nat);
        let p = i + ev.len();
        lemma_skip_here(s, p);
        assert(s[p] != ',');
        assert(seq![es[k]] =~= es.skip(k));
    }
}

/// Rendered member lists parse back, in place.
#[verifier::rlimit(100)]
#[verifier::spinoff_prover]
pub proof fn lemma_render_parse_members(
    s: Seq<char>,
    i: int,
    ms: Seq<(Seq<char>, JsonV)>,
    k: int,
    fuel: nat,
)
    requires
        0 <= k < ms.len(),
        wf_members(ms, 0),
        0 <= i,
        i + render_members(ms, k).len() <= s.len(),
        forall|m: int| 0 <= m < render_members(ms, k).len() ==> s[i + m]
            == #[trigger] render_members(ms, k)[m],
        i + render_members(ms, k).len() < s.len(),
        !is_digit(s[i + render_members(ms, k).len()]),
        !is_space(s[i + render_members(ms, k).len()]),
        s[i + render_members(ms, k).len()] != ',',
        fuel > 2 * (s.len() - i) + 1,
    ensures
        parse_members_spec(s, i, fuel) == Option::Some(
            (ms.skip(k), i + render_members(ms, k).len()),
        ),
    decreases ms, ms.len() - k, 0int,
{
    let t = render_members(ms, k);
    let mt = render_member(ms[k]);
    let key = ms[k].0;
    let val = ms[k].1;
    let vt = render_json(val);
    let esc = escape_str(key);
    lemma_wf_members_at(ms, 0, k);
    lemma_render_head(val);
    assert(mt == seq!['"'] + esc + seq!['"', ':'] + vt);
    if k + 1 < ms.len() {
        assert(t == mt + seq![','] + render_members(ms, k + 1));
    } else {
        assert(t == mt);
    }
    assert forall|m: int| 0 <= m < mt.len() implies s[i + m] == #[trigger] mt[m] by {
        assert(t[m] == mt[m]);
    }
    assert(s[i] == '"') by {
        assert(s[i + 0] == mt[0]);
    }
    assert forall|m: int| 0 <= m < esc.len() implies s[i + 1 + m] == #[trigger] esc[m] by {
        assert(s[i + (1 + m)] == mt[1 + m]);
        assert(mt[1 + m] == esc[m]);
    }
    assert(s[i + 1 + esc.len()] == '"') by {
        assert(s[i + 1 + esc.len()] == mt[1 + esc.len() as int]);
    }
    assert(s[i + 2 + esc.len()] == ':') by {
        assert(s[i + 2 + esc.len()] == mt[2 + esc.len() as int]);
    }
    lemma_escape_parse(s, i + 1, key);
    let q = i + 1 + esc.len() + 1;
    lemma_skip_here(s, q);
    assert(s[q] == ':');
    let d = q + 1;
    assert forall|m: int| 0 <= m < vt.len() implies s[d + m] == #[trigger] vt[m] by {
        assert(s[i + (3 + esc.len() + m)] == mt[3 + esc.len() + m]);
        assert(mt[3 + esc.len() + m] == vt[m]);
    }
    assert(!is_space(s[d])) by {
        assert(s[d + 0] == vt[0]);
    }
    lemma_skip_here(s, d);
    let e = d + vt.len();
    assert(e == i + mt.len());
    if k + 1 < ms.len() {
        assert(s[e] == ',') by {
            assert(t[mt.len() as int] == ',');
        }
        lemma_render_parse_value(s, d, val, (fuel - 1) as nat);
        lemma_skip_here(s, e);
        let g = e + 1;
        let rest_t = render_members(ms, k + 1);
        assert forall|m: int| 0 <= m < rest_t.len() implies s[g + m] == #[trigger] rest_t[m] by {
            assert(t[mt.len() + 1 + m] == rest_t[m]);
        }
        assert(rest_t.len() >= 1 && rest_t[0] == '"') by {
            assert(rest_t == render_member(ms[k + 1]) + seq![','] + render_members(ms, k + 2)
                || rest_t == render_member(ms[k + 1]));
            assert(render_member(ms[k + 1])[0] == '"');
            assert(render_member(ms[k + 1]).len() >= 1);
        }
        assert(!is_space(s[g]) && s[g] == '"') by {
            assert(s[g + 0] == rest_t[0]);
        }
        lemma_skip_here(s, g);
        lemma_render_parse_members(s, g, ms, k + 1, (fuel - 1) as nat);
        assert(seq![(key, val)] + ms.skip(k + 1) =~= ms.skip(k));
    } else {
        lemma_render_parse_value(s, d, val, (fuel - 1) as nat);
        lemma_skip_here(s, e);
        assert(s[e] != ',');
        assert(seq![(key, val)] =~= ms.skip(k));
    }
}

/// Parsing the canonical document text of a well-formed value yields
/// exactly that value: the renderer and the parser are inverse.
pub proof fn lemma_json_round_trip(v: JsonV)
    requires
        wf_json(v),
    ensures
        parse_json_spec(render_json(v)) == Option::Some(v),
{
    let s = render_json(v);
    lemma_render_head(v);
    lemma_skip_here(s, 0);
    assert forall|m: int| 0 <= m < s.len() implies s[0 + m] == #[trigger] s[m] by {
    }
    lemma_render_parse_value(s, 0, v, doc_fuel(s));
    lemma_skip_here(s, s.len() as int);
}

} // verus!
