//! The normalized JSON form an edited document is written in:
//! two-space indentation, one member or element per line, members in key
//! order, minimal string escaping, integral numbers below 2^53 as integers,
//! one trailing newline.

use vstd::prelude::*;

use crate::json::{jv_entries, jv_of, jv_seq, lemma_jv_entries, lemma_jv_seq, Json, NumV, Number, JV};
use crate::pointer::{digits_value, is_digit, lemma_digits_prefix};
use crate::text::{chars_of, dec_chars, dec_spec, digit_char, int_chars, int_spec, string_of};

verus! {

/// 2^53: integral numbers below it in magnitude are written as integers.
pub const TWO_POW_53: u64 = 9_007_199_254_740_992;

/// `depth` levels of two-space indentation.
pub open spec fn indent_spec(depth: nat) -> Seq<char>
    decreases depth,
{
    if depth == 0 {
        Seq::empty()
    } else {
        indent_spec((depth - 1) as nat) + seq![' ', ' ']
    }
}

/// The lowercase hex digit for `d` below 16.
pub open spec fn hex_digit(d: int) -> char {
    seq!['0', '1', '2', '3', '4', '5', '6', '7', '8', '9', 'a', 'b', 'c', 'd', 'e', 'f'][d]
}

/// How one character of a string is written: `"` and `\` escaped, the
/// control characters as `\b \f \n \r \t` where those exist and `\u00XX`
/// otherwise, every other character literally.
pub open spec fn escape_char(c: char) -> Seq<char> {
    if c == '"' {
        seq!['\\', '"']
    } else if c == '\\' {
        seq!['\\', '\\']
    } else if c == '\u{8}' {
        seq!['\\', 'b']
    } else if c == '\u{c}' {
        seq!['\\', 'f']
    } else if c == '\n' {
        seq!['\\', 'n']
    } else if c == '\r' {
        seq!['\\', 'r']
    } else if c == '\t' {
        seq!['\\', 't']
    } else if (c as u32) < 0x20 {
        seq!['\\', 'u', '0', '0', hex_digit(((c as u32) / 16) as int), hex_digit(((c as u32) % 16) as int)]
    } else {
        seq![c]
    }
}

/// Every character of `s`, escaped.
pub open spec fn escape_all(s: Seq<char>) -> Seq<char>
    decreases s.len(),
{
    if s.len() == 0 {
        Seq::empty()
    } else {
        escape_all(s.drop_last()) + escape_char(s.last())
    }
}

/// A string literal.
pub open spec fn quoted(s: Seq<char>) -> Seq<char> {
    seq!['"'] + escape_all(s) + seq!['"']
}

/// Every character is a decimal digit.
pub open spec fn digits_only(d: Seq<char>) -> bool {
    forall|i: int| 0 <= i < d.len() ==> is_digit(#[trigger] d[i])
}

/// The digits of an integral number's text: an optional `-` and a final
/// `.0` left out.
pub open spec fn integral_digits(t: Seq<char>) -> Seq<char> {
    let neg = t.len() > 0 && t[0] == '-';
    let body = if neg { t.skip(1) } else { t };
    if body.len() >= 3 && body[body.len() - 2] == '.' && body[body.len() - 1] == '0' {
        body.take(body.len() - 2)
    } else {
        body
    }
}

/// The integer an integral number's decimal text denotes, of any size: an
/// optional `-`, digits, and optionally `.0`.
pub open spec fn integral_value(t: Seq<char>) -> Option<int> {
    let neg = t.len() > 0 && t[0] == '-';
    let d = integral_digits(t);
    if d.len() > 0 && digits_only(d) {
        Some(if neg { -digits_value(d) } else { digits_value(d) as int })
    } else {
        None
    }
}

/// The integer an integral number's decimal text denotes, when it is below
/// 2^53 in magnitude: the text is an optional `-`, digits, and optionally
/// `.0`.
pub open spec fn integral_float(t: Seq<char>) -> Option<int> {
    let neg = t.len() > 0 && t[0] == '-';
    let d = integral_digits(t);
    if d.len() > 0 && digits_only(d) && digits_value(d) < TWO_POW_53 {
        Some(if neg { -digits_value(d) } else { digits_value(d) as int })
    } else {
        None
    }
}

/// How a number is written: integers, and integral values below 2^53, as
/// plain integers; any other number in its shortest round-trip text.
pub open spec fn number_text(n: NumV) -> Seq<char> {
    match n {
        NumV::Int(i) => int_spec(i),
        NumV::Float(t) => match integral_float(t) {
            Some(i) => int_spec(i),
            None => t,
        },
    }
}

/// A value written at nesting `depth`: scalars inline; a non-empty array or
/// object opens its bracket, puts each element or `"key": value` member on
/// its own line one level deeper, separated by commas, and closes on a line
/// of its own; empty ones are `[]` and `{}`.
pub open spec fn value_text(v: JV, depth: nat) -> Seq<char>
    decreases v,
{
    match v {
        JV::Null => "null"@,
        JV::Bool(b) => if b { "true"@ } else { "false"@ },
        JV::Num(n) => number_text(n),
        JV::Str(s) => quoted(s),
        JV::Arr(items) => if items.len() == 0 {
            "[]"@
        } else {
            seq!['[', '\n'] + elems_text(items, depth + 1) + seq!['\n'] + indent_spec(depth) + seq![']']
        },
        JV::Obj(es) => if es.len() == 0 {
            "{}"@
        } else {
            seq!['{', '\n'] + members_text(es, depth + 1) + seq!['\n'] + indent_spec(depth) + seq!['}']
        },
    }
}

/// Array elements, each indented, separated by `,` and a newline.
pub open spec fn elems_text(items: Seq<JV>, depth: nat) -> Seq<char>
    decreases items,
{
    if items.len() == 0 {
        Seq::empty()
    } else if items.len() == 1 {
        indent_spec(depth) + value_text(items[0], depth)
    } else {
        elems_text(items.drop_last(), depth) + seq![',', '\n'] + indent_spec(depth) + value_text(items.last(), depth)
    }
}

/// Object members as `"key": value`, each indented, separated by `,` and a
/// newline.
pub open spec fn members_text(es: Seq<(Seq<char>, JV)>, depth: nat) -> Seq<char>
    decreases es,
{
    if es.len() == 0 {
        Seq::empty()
    } else if es.len() == 1 {
        indent_spec(depth) + quoted(es[0].0) + seq![':', ' '] + value_text(es[0].1, depth)
    } else {
        members_text(es.drop_last(), depth) + seq![',', '\n'] + indent_spec(depth) + quoted(es.last().0) + seq![':', ' ']
            + value_text(es.last().1, depth)
    }
}

/// A document's normalized text: its value and one trailing newline.
pub open spec fn format_spec(v: JV) -> Seq<char> {
    value_text(v, 0) + seq!['\n']
}

/// Appends characters.
pub fn push_chars(out: &mut Vec<char>, s: &Vec<char>)
    ensures
        final(out)@ == old(out)@ + s@,
{
    let mut i: usize = 0;
    while i < s.len()
        invariant
            i <= s.len(),
            out@ == old(out)@ + s@.take(i as int),
        decreases s.len() - i,
    {
        out.push(s[i]);
        assert(s@.take(i + 1) =~= s@.take(i as int).push(s@[i as int]));
        i = i + 1;
    }
    assert(s@.take(i as int) =~= s@);
}

fn push_str(out: &mut Vec<char>, s: &str)
    ensures
        final(out)@ == old(out)@ + s@,
{
    let c = chars_of(s);
    push_chars(out, &c);
}

/// The lowercase hex digit for `d`.
pub fn hex_char_of(d: u32) -> (c: char)
    requires
        d < 16,
    ensures
        c == hex_digit(d as int),
{
    match d {
        0 => '0',
        1 => '1',
        2 => '2',
        3 => '3',
        4 => '4',
        5 => '5',
        6 => '6',
        7 => '7',
        8 => '8',
        9 => '9',
        10 => 'a',
        11 => 'b',
        12 => 'c',
        13 => 'd',
        14 => 'e',
        _ => 'f',
    }
}

/// Writes a string literal.
pub fn write_string(out: &mut Vec<char>, s: &str)
    ensures
        final(out)@ == old(out)@ + quoted(s@),
{
    let c = chars_of(s);
    out.push('"');
    let mut i: usize = 0;
    while i < c.len()
        invariant
            i <= c.len(),
            c@ == s@,
            out@ == old(out)@ + seq!['"'] + escape_all(c@.take(i as int)),
        decreases c.len() - i,
    {
        let ch = c[i];
        let ghost before = out@;
        if ch == '"' {
            out.push('\\');
            out.push('"');
        } else if ch == '\\' {
            out.push('\\');
            out.push('\\');
        } else if ch == '\u{8}' {
            out.push('\\');
            out.push('b');
        } else if ch == '\u{c}' {
            out.push('\\');
            out.push('f');
        } else if ch == '\n' {
            out.push('\\');
            out.push('n');
        } else if ch == '\r' {
            out.push('\\');
            out.push('r');
        } else if ch == '\t' {
            out.push('\\');
            out.push('t');
        } else if (ch as u32) < 0x20 {
            let b = ch as u32;
            out.push('\\');
            out.push('u');
            out.push('0');
            out.push('0');
            out.push(hex_char_of(b / 16));
            out.push(hex_char_of(b % 16));
        } else {
            out.push(ch);
        }
        assert(out@ =~= before + escape_char(ch));
        assert(c@.take(i + 1).drop_last() =~= c@.take(i as int));
        i = i + 1;
    }
    assert(c@.take(i as int) =~= c@);
    out.push('"');
}

/// The integer an integral number's text denotes, when it is below 2^53 in
/// magnitude.
pub fn integral_float_value(t: &Vec<char>) -> (r: Option<i64>)
    ensures
        r matches Some(i) ==> integral_float(t@) == Some(i as int),
        r is None ==> integral_float(t@) is None,
{
    let neg = t.len() > 0 && t[0] == '-';
    let start: usize = if neg { 1 } else { 0 };
    let ghost body = if neg { t@.skip(1) } else { t@ };
    let n = t.len();
    assert(body =~= t@.skip(start as int));
    let end: usize = if n >= start + 3 && t[n - 2] == '.' && t[n - 1] == '0' {
        assert(body[body.len() - 2] == t@[n - 2]);
        assert(body[body.len() - 1] == t@[n - 1]);
        n - 2
    } else {
        proof {
            if body.len() >= 3 {
                assert(body[body.len() - 2] == t@[n - 2]);
                assert(body[body.len() - 1] == t@[n - 1]);
            }
        }
        n
    };
    let ghost d = integral_digits(t@);
    assert(d =~= t@.subrange(start as int, end as int));
    if end <= start {
        return None;
    }
    assert(integral_float(t@) == (if digits_only(d)
        && digits_value(d) < TWO_POW_53 {
        Some(if neg { -digits_value(d) } else { digits_value(d) as int })
    } else {
        None
    }));
    let mut k: usize = start;
    while k < end
        invariant
            start <= k <= end,
            end <= t.len(),
            d =~= t@.subrange(start as int, end as int),
            forall|i: int| 0 <= i < k - start ==> is_digit(#[trigger] d[i]),
            integral_float(t@) == (if digits_only(d)
                && digits_value(d) < TWO_POW_53 {
                Some(if neg { -digits_value(d) } else { digits_value(d) as int })
            } else {
                None
            }),
        decreases end - k,
    {
        if !('0' <= t[k] && t[k] <= '9') {
            assert(!is_digit(d[k - start]));
            assert(!digits_only(d));
            return None;
        }
        k = k + 1;
    }
    let mut acc: u64 = 0;
    let mut k: usize = start;
    assert(d.take(0) =~= Seq::<char>::empty());
    while k < end
        invariant
            start <= k <= end,
            end <= t.len(),
            d =~= t@.subrange(start as int, end as int),
            forall|i: int| 0 <= i < d.len() ==> is_digit(#[trigger] d[i]),
            integral_float(t@) == (if digits_only(d)
                && digits_value(d) < TWO_POW_53 {
                Some(if neg { -digits_value(d) } else { digits_value(d) as int })
            } else {
                None
            }),
            acc as nat == digits_value(d.take(k - start)),
            acc < TWO_POW_53,
        decreases end - k,
    {
        assert(d[k - start] == t@[k as int]);
        assert(is_digit(d[k - start]));
        let dig = (t[k] as u32 - '0' as u32) as u64;
        assert(d.take(k - start + 1).drop_last() =~= d.take(k - start));
        let next = acc * 10 + dig;
        if next >= TWO_POW_53 {
            proof {
                lemma_digits_prefix(d, k - start + 1);
                assert(digits_value(d) >= TWO_POW_53);
            }
            return None;
        }
        acc = next;
        k = k + 1;
    }
    assert(d.take(k - start) =~= d);
    if neg {
        Some(0 - (acc as i64))
    } else {
        Some(acc as i64)
    }
}

/// The sign and magnitude of the integer an integral number's text denotes,
/// when its magnitude fits a `u64`; `None` when the text is not integral or
/// the magnitude is larger.
pub fn integral_magnitude(t: &Vec<char>) -> (r: Option<(bool, u64)>)
    ensures
        r matches Some((neg, m)) ==> integral_value(t@) == Some(if neg { -(m as int) } else { m as int }),
        r is None ==> (integral_value(t@) matches Some(v) ==> v > u64::MAX || v < -(u64::MAX as int)),
{
    let neg = t.len() > 0 && t[0] == '-';
    let start: usize = if neg { 1 } else { 0 };
    let ghost body = if neg { t@.skip(1) } else { t@ };
    let n = t.len();
    assert(body =~= t@.skip(start as int));
    let end: usize = if n >= start + 3 && t[n - 2] == '.' && t[n - 1] == '0' {
        assert(body[body.len() - 2] == t@[n - 2]);
        assert(body[body.len() - 1] == t@[n - 1]);
        n - 2
    } else {
        proof {
            if body.len() >= 3 {
                assert(body[body.len() - 2] == t@[n - 2]);
                assert(body[body.len() - 1] == t@[n - 1]);
            }
        }
        n
    };
    let ghost d = integral_digits(t@);
    assert(d =~= t@.subrange(start as int, end as int));
    if end <= start {
        return None;
    }
    let mut k: usize = start;
    while k < end
        invariant
            start <= k <= end,
            end <= t.len(),
            d =~= t@.subrange(start as int, end as int),
            d == integral_digits(t@),
            forall|i: int| 0 <= i < k - start ==> is_digit(#[trigger] d[i]),
        decreases end - k,
    {
        if !('0' <= t[k] && t[k] <= '9') {
            assert(!is_digit(d[k - start]));
            assert(!digits_only(d));
            return None;
        }
        k = k + 1;
    }
    assert(digits_only(d));
    let mut acc: u64 = 0;
    let mut k: usize = start;
    assert(d.take(0) =~= Seq::<char>::empty());
    while k < end
        invariant
            start <= k <= end,
            end <= t.len(),
            d =~= t@.subrange(start as int, end as int),
            digits_only(d),
            integral_value(t@) == Some(if neg { -digits_value(d) } else { digits_value(d) as int }),
            acc as nat == digits_value(d.take(k - start)),
        decreases end - k,
    {
        assert(d[k - start] == t@[k as int]);
        assert(is_digit(d[k - start]));
        let dig = (t[k] as u32 - '0' as u32) as u64;
        assert(d.take(k - start + 1).drop_last() =~= d.take(k - start));
        if acc > (u64::MAX - dig) / 10 {
            proof {
                assert(acc * 10 + dig > u64::MAX) by (nonlinear_arith)
                    requires
                        acc > (u64::MAX - dig) / 10,
                        dig <= 9,
                ;
                lemma_digits_prefix(d, k - start + 1);
            }
            return None;
        }
        acc = acc * 10 + dig;
        k = k + 1;
    }
    assert(d.take(k - start) =~= d);
    Some((neg, acc))
}

/// Writes a number.
pub fn write_number(out: &mut Vec<char>, n: &Number)
    ensures
        final(out)@ == old(out)@ + number_text(n@),
{
    match n {
        Number::Int(i) => {
            let d = int_chars(*i);
            push_chars(out, &d);
        },
        Number::UInt(u) => {
            let d = dec_chars(*u);
            push_chars(out, &d);
        },
        Number::Float(t) => {
            let c = chars_of(t.as_str());
            match integral_float_value(&c) {
                Some(i) => {
                    let d = int_chars(i);
                    push_chars(out, &d);
                },
                None => push_chars(out, &c),
            }
        },
    }
}

/// Writes a value at nesting `depth`, whose indentation is `pad`.
fn write(out: &mut Vec<char>, value: &Json, pad: &Vec<char>, Ghost(depth): Ghost<nat>)
    requires
        pad@ == indent_spec(depth),
    ensures
        final(out)@ == old(out)@ + value_text(value@, depth),
    decreases jv_of(*value),
{
    match value {
        Json::Null => push_str(out, "null"),
        Json::Bool(b) => if *b {
            push_str(out, "true")
        } else {
            push_str(out, "false")
        },
        Json::Number(n) => write_number(out, n),
        Json::Str(s) => write_string(out, s.as_str()),
        Json::Array(items) => {
            proof {
                lemma_jv_seq(items@);
            }
            let ghost iv = jv_seq(items@);
            if items.len() == 0 {
                push_str(out, "[]");
                return;
            }
            let ghost base = out@;
            let mut child: Vec<char> = Vec::new();
            push_chars(&mut child, pad);
            child.push(' ');
            child.push(' ');
            assert(child@ =~= indent_spec(depth + 1));
            out.push('[');
            out.push('\n');
            let mut i: usize = 0;
            while i < items.len()
                invariant
                    i <= items.len(),
                    pad@ == indent_spec(depth),
                    child@ == indent_spec(depth + 1),
                    iv == jv_seq(items@),
                    iv.len() == items.len(),
                    *value == Json::Array(*items),
                    forall|k: int| 0 <= k < iv.len() ==> #[trigger] iv[k] == jv_of(items@[k]),
                    out@ == base + seq!['[', '\n'] + elems_text(iv.take(i as int), depth + 1),
                decreases items.len() - i,
            {
                proof {
                    let a = JV::Arr(iv);
                    assert(decreases_to!(a => a->Arr_0));
                    assert(decreases_to!(iv => iv[i as int]));
                }
                let ghost mid = out@;
                if i > 0 {
                    out.push(',');
                    out.push('\n');
                }
                push_chars(out, &child);
                write(out, &items[i], &child, Ghost(depth + 1));
                assert(iv.take(i + 1).drop_last() =~= iv.take(i as int));
                assert(iv.take(i + 1).last() == iv[i as int]);
                i = i + 1;
            }
            assert(iv.take(i as int) =~= iv);
            out.push('\n');
            push_chars(out, pad);
            out.push(']');
        },
        Json::Object(entries) => {
            proof {
                lemma_jv_entries(entries@);
            }
            let ghost es = jv_entries(entries@);
            if entries.len() == 0 {
                push_str(out, "{}");
                return;
            }
            let ghost base = out@;
            let mut child: Vec<char> = Vec::new();
            push_chars(&mut child, pad);
            child.push(' ');
            child.push(' ');
            assert(child@ =~= indent_spec(depth + 1));
            out.push('{');
            out.push('\n');
            let mut i: usize = 0;
            while i < entries.len()
                invariant
                    i <= entries.len(),
                    pad@ == indent_spec(depth),
                    child@ == indent_spec(depth + 1),
                    es == jv_entries(entries@),
                    es.len() == entries.len(),
                    *value == Json::Object(*entries),
                    forall|k: int| 0 <= k < es.len() ==> #[trigger] es[k] == (entries@[k].0@, jv_of(entries@[k].1)),
                    out@ == base + seq!['{', '\n'] + members_text(es.take(i as int), depth + 1),
                decreases entries.len() - i,
            {
                proof {
                    let o = JV::Obj(es);
                    assert(decreases_to!(o => o->Obj_0));
                    assert(decreases_to!(es => es[i as int]));
                    assert(decreases_to!(es[i as int] => es[i as int].1));
                }
                if i > 0 {
                    out.push(',');
                    out.push('\n');
                }
                push_chars(out, &child);
                write_string(out, entries[i].0.as_str());
                out.push(':');
                out.push(' ');
                write(out, &entries[i].1, &child, Ghost(depth + 1));
                assert(es.take(i + 1).drop_last() =~= es.take(i as int));
                assert(es.take(i + 1).last() == es[i as int]);
                i = i + 1;
            }
            assert(es.take(i as int) =~= es);
            out.push('\n');
            push_chars(out, pad);
            out.push('}');
        },
    }
}

/// A value's normalized document text.
pub fn format(value: &Json) -> (r: String)
    ensures
        r@ == format_spec(value@),
{
    let mut out: Vec<char> = Vec::new();
    let pad: Vec<char> = Vec::new();
    assert(pad@ =~= indent_spec(0));
    write(&mut out, value, &pad, Ghost(0));
    out.push('\n');
    string_of(out.as_slice())
}

/// Text without a carriage return.
pub open spec fn no_cr(s: Seq<char>) -> bool {
    forall|i: int| 0 <= i < s.len() ==> s[i] != '\r'
}

/// A number's text as the data model may hold it: not empty, and without a
/// carriage return, a line feed, or a byte-order mark.
pub open spec fn number_text_ok(t: Seq<char>) -> bool {
    t.len() > 0 && forall|i: int| 0 <= i < t.len() ==> t[i] != '\r' && t[i] != '\n' && t[i] != '\u{feff}'
}

/// Every non-integer number of the value has an acceptable text.
pub open spec fn numbers_ok(v: JV) -> bool
    decreases v,
{
    match v {
        JV::Num(NumV::Float(t)) => number_text_ok(t),
        JV::Arr(items) => forall|i: int| 0 <= i < items.len() ==> numbers_ok(#[trigger] items[i]),
        JV::Obj(es) => forall|i: int| 0 <= i < es.len() ==> numbers_ok(#[trigger] es[i].1),
        _ => true,
    }
}

proof fn lemma_no_cr_concat(a: Seq<char>, b: Seq<char>)
    requires
        no_cr(a),
        no_cr(b),
    ensures
        no_cr(a + b),
{
    assert forall|i: int| 0 <= i < (a + b).len() implies (a + b)[i] != '\r' by {
        if i >= a.len() {
            assert((a + b)[i] == b[i - a.len()]);
        } else {
            assert((a + b)[i] == a[i]);
        }
    }
}

proof fn lemma_dec_chars(n: nat)
    ensures
        dec_spec(n).len() > 0,
        forall|i: int| 0 <= i < dec_spec(n).len() ==> is_digit(#[trigger] dec_spec(n)[i]),
    decreases n,
{
    if n >= 10 {
        lemma_dec_chars(n / 10);
        let d = dec_spec(n / 10);
        assert forall|i: int| 0 <= i < dec_spec(n).len() implies is_digit(#[trigger] dec_spec(n)[i]) by {
            if i < d.len() {
                assert(dec_spec(n)[i] == d[i]);
            }
        }
    }
}

/// An integer's spelling: not empty, `-` or a digit first, a digit last, no
/// carriage return.
proof fn lemma_int_text(i: int)
    ensures
        int_spec(i).len() > 0,
        no_cr(int_spec(i)),
        is_digit(int_spec(i).last()),
        int_spec(i)[0] == '-' || is_digit(int_spec(i)[0]),
{
    let d = dec_spec(if i < 0 { (-i) as nat } else { i as nat });
    lemma_dec_chars(if i < 0 { (-i) as nat } else { i as nat });
    let t = int_spec(i);
    if i < 0 {
        assert(t == seq!['-'] + d);
        assert forall|k: int| 0 <= k < t.len() implies t[k] != '\r' by {
            if k > 0 {
                assert(t[k] == d[k - 1]);
            }
        }
        assert(t.last() == d.last());
    } else {
        assert(t == d);
    }
}

proof fn lemma_escape_no_cr(s: Seq<char>)
    ensures
        no_cr(escape_all(s)),
    decreases s.len(),
{
    if s.len() > 0 {
        lemma_escape_no_cr(s.drop_last());
        let c = s.last();
        let e = escape_char(c);
        if (c as u32) < 0x20 && c != '\u{8}' && c != '\u{c}' && c != '\n' && c != '\r' && c != '\t' {
            let h = seq!['0', '1', '2', '3', '4', '5', '6', '7', '8', '9', 'a', 'b', 'c', 'd', 'e', 'f'];
            assert((c as u32) / 16 < 16 && (c as u32) % 16 < 16);
            assert(hex_digit(((c as u32) / 16) as int) == h[((c as u32) / 16) as int]);
            assert(hex_digit(((c as u32) % 16) as int) == h[((c as u32) % 16) as int]);
            assert(no_cr(h));
        }
        assert(no_cr(e));
        lemma_no_cr_concat(escape_all(s.drop_last()), e);
    }
}

proof fn lemma_indent_no_cr(depth: nat)
    ensures
        no_cr(indent_spec(depth)),
    decreases depth,
{
    if depth > 0 {
        lemma_indent_no_cr((depth - 1) as nat);
        lemma_no_cr_concat(indent_spec((depth - 1) as nat), seq![' ', ' ']);
    }
}

proof fn lemma_quoted(s: Seq<char>)
    ensures
        no_cr(quoted(s)),
        quoted(s).len() >= 2,
        quoted(s)[0] == '"',
        quoted(s).last() == '"',
{
    lemma_escape_no_cr(s);
    lemma_no_cr_concat(seq!['"'], escape_all(s));
    lemma_no_cr_concat(seq!['"'] + escape_all(s), seq!['"']);
}

/// A value's text has no carriage return, is not empty, starts with no
/// byte-order mark and ends with no line feed.
proof fn lemma_value_text(v: JV, depth: nat)
    requires
        numbers_ok(v),
    ensures
        no_cr(value_text(v, depth)),
        value_text(v, depth).len() > 0,
        value_text(v, depth)[0] != '\u{feff}',
        value_text(v, depth).last() != '\n',
    decreases v,
{
    reveal_strlit("null");
    reveal_strlit("true");
    reveal_strlit("false");
    reveal_strlit("[]");
    reveal_strlit("{}");
    match v {
        JV::Num(n) => match n {
            NumV::Int(i) => lemma_int_text(i),
            NumV::Float(t) => match integral_float(t) {
                Some(i) => lemma_int_text(i),
                None => {},
            },
        },
        JV::Str(s) => lemma_quoted(s),
        JV::Arr(items) => {
            if items.len() > 0 {
                lemma_elems_text(items, depth + 1);
                lemma_indent_no_cr(depth);
                let a = seq!['[', '\n'] + elems_text(items, depth + 1);
                lemma_no_cr_concat(seq!['[', '\n'], elems_text(items, depth + 1));
                lemma_no_cr_concat(a, seq!['\n']);
                lemma_no_cr_concat(a + seq!['\n'], indent_spec(depth));
                lemma_no_cr_concat(a + seq!['\n'] + indent_spec(depth), seq![']']);
            }
        },
        JV::Obj(es) => {
            if es.len() > 0 {
                lemma_members_text(es, depth + 1);
                lemma_indent_no_cr(depth);
                let a = seq!['{', '\n'] + members_text(es, depth + 1);
                lemma_no_cr_concat(seq!['{', '\n'], members_text(es, depth + 1));
                lemma_no_cr_concat(a, seq!['\n']);
                lemma_no_cr_concat(a + seq!['\n'], indent_spec(depth));
                lemma_no_cr_concat(a + seq!['\n'] + indent_spec(depth), seq!['}']);
            }
        },
        _ => {},
    }
}

proof fn lemma_elems_text(items: Seq<JV>, depth: nat)
    requires
        forall|i: int| 0 <= i < items.len() ==> numbers_ok(#[trigger] items[i]),
    ensures
        no_cr(elems_text(items, depth)),
    decreases items,
{
    if items.len() > 0 {
        lemma_indent_no_cr(depth);
        let last = items.last();
        assert(numbers_ok(items[items.len() - 1]));
        lemma_value_text(last, depth);
        if items.len() == 1 {
            lemma_no_cr_concat(indent_spec(depth), value_text(items[0], depth));
        } else {
            lemma_elems_text(items.drop_last(), depth);
            let a = elems_text(items.drop_last(), depth);
            lemma_no_cr_concat(a, seq![',', '\n']);
            lemma_no_cr_concat(a + seq![',', '\n'], indent_spec(depth));
            lemma_no_cr_concat(a + seq![',', '\n'] + indent_spec(depth), value_text(last, depth));
        }
    }
}

proof fn lemma_members_text(es: Seq<(Seq<char>, JV)>, depth: nat)
    requires
        forall|i: int| 0 <= i < es.len() ==> numbers_ok(#[trigger] es[i].1),
    ensures
        no_cr(members_text(es, depth)),
    decreases es,
{
    if es.len() > 0 {
        lemma_indent_no_cr(depth);
        let last = es.last();
        assert(numbers_ok(es[es.len() - 1].1));
        lemma_value_text(last.1, depth);
        lemma_quoted(last.0);
        if es.len() == 1 {
            let a = indent_spec(depth) + quoted(es[0].0);
            lemma_no_cr_concat(indent_spec(depth), quoted(es[0].0));
            lemma_no_cr_concat(a, seq![':', ' ']);
            lemma_no_cr_concat(a + seq![':', ' '], value_text(es[0].1, depth));
        } else {
            lemma_members_text(es.drop_last(), depth);
            let a = members_text(es.drop_last(), depth) + seq![',', '\n'];
            lemma_no_cr_concat(members_text(es.drop_last(), depth), seq![',', '\n']);
            lemma_no_cr_concat(a, indent_spec(depth));
            lemma_no_cr_concat(a + indent_spec(depth), quoted(last.0));
            lemma_no_cr_concat(a + indent_spec(depth) + quoted(last.0), seq![':', ' ']);
            lemma_no_cr_concat(a + indent_spec(depth) + quoted(last.0) + seq![':', ' '], value_text(last.1, depth));
        }
    }
}

/// Law: a normalized text ends in exactly one line feed, holds no carriage
/// return, and starts with no byte-order mark, for any value whose number
/// texts hold none of those characters (as every number the library reads
/// does).
pub proof fn law_format_text_shape(v: JV)
    requires
        numbers_ok(v),
    ensures
        format_spec(v).last() == '\n',
        format_spec(v).len() >= 2 && format_spec(v)[format_spec(v).len() - 2] != '\n',
        no_cr(format_spec(v)),
        format_spec(v)[0] != '\u{feff}',
{
    lemma_value_text(v, 0);
    let t = value_text(v, 0);
    lemma_no_cr_concat(t, seq!['\n']);
    assert(format_spec(v)[format_spec(v).len() - 2] == t.last());
    assert(format_spec(v)[0] == t[0]);
}

} // verus!
