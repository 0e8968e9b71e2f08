//! YAML 1.2, **core schema**, built on `saphyr-parser`'s event
//! stream so that core-schema resolution, custom-tag rejection, duplicate-key
//! detection and the alias expansion budget are under this crate's control.

use vstd::prelude::*;

use crate::json::{Json, NumV, Number, JV};
use crate::text::{chars_of, string_of};

verus! {

/// `null | Null | NULL | ~` and the empty scalar.
pub open spec fn core_null_spec(raw: Seq<char>) -> bool {
    raw == ""@ || raw == "null"@ || raw == "Null"@ || raw == "NULL"@ || raw == "~"@
}

/// `true | True | TRUE | false | False | FALSE`: YAML 1.1's `on`, `yes`, `y`
/// and friends are strings.
pub open spec fn core_bool_spec(raw: Seq<char>) -> Option<bool> {
    if raw == "true"@ || raw == "True"@ || raw == "TRUE"@ {
        Some(true)
    } else if raw == "false"@ || raw == "False"@ || raw == "FALSE"@ {
        Some(false)
    } else {
        None
    }
}

/// The value of a digit in `radix` (2 to 16), if it is one.
pub open spec fn digit_value(c: char, radix: nat) -> Option<nat> {
    let v: int = if '0' <= c && c <= '9' {
        c as int - '0' as int
    } else if 'a' <= c && c <= 'f' {
        c as int - 'a' as int + 10
    } else if 'A' <= c && c <= 'F' {
        c as int - 'A' as int + 10
    } else {
        100
    };
    if v < radix {
        Some(v as nat)
    } else {
        None
    }
}

/// Every character is a digit in `radix`, and there is at least one.
pub open spec fn all_radix(s: Seq<char>, radix: nat) -> bool {
    s.len() > 0 && forall|i: int| 0 <= i < s.len() ==> #[trigger] digit_value(s[i], radix) is Some
}

/// The value of a string of digits in `radix`.
pub open spec fn radix_value(s: Seq<char>, radix: nat) -> nat
    decreases s.len(),
{
    if s.len() == 0 {
        0
    } else {
        radix_value(s.drop_last(), radix) * radix + digit_value(s.last(), radix).unwrap_or(0)
    }
}

/// An integer of the data model: in range of `i64`, or else of `u64`.
pub open spec fn int_in_range(v: int) -> bool {
    i64::MIN <= v <= u64::MAX
}

/// The core schema's integer forms: `[-+]?[0-9]+`, `0o[0-7]+`, and
/// `0x[0-9a-fA-F]+` (no sign on the last two). `Ok(None)` is not an integer;
/// `Err` is an integer out of range of the data model.
pub open spec fn core_int_spec(raw: Seq<char>) -> Result<Option<int>, ()> {
    let digits = raw.skip(int_start(raw));
    if !all_radix(digits, int_radix(raw)) {
        Ok(None)
    } else {
        let v: int = if int_negative(raw) {
            -radix_value(digits, int_radix(raw))
        } else {
            radix_value(digits, int_radix(raw)) as int
        };
        if int_in_range(v) {
            Ok(Some(v))
        } else {
            Err(())
        }
    }
}

/// Whether the literal has the hexadecimal prefix `0x`.
pub open spec fn is_hex(raw: Seq<char>) -> bool {
    raw.len() >= 2 && raw[0] == '0' && raw[1] == 'x'
}

/// Whether the literal has the octal prefix `0o`.
pub open spec fn is_oct(raw: Seq<char>) -> bool {
    raw.len() >= 2 && raw[0] == '0' && raw[1] == 'o'
}

/// Where an integer literal's digits start.
pub open spec fn int_start(raw: Seq<char>) -> int {
    if is_hex(raw) || is_oct(raw) {
        2
    } else if raw.len() >= 1 && (raw[0] == '-' || raw[0] == '+') {
        1
    } else {
        0
    }
}

/// An integer literal's radix.
pub open spec fn int_radix(raw: Seq<char>) -> nat {
    if is_hex(raw) {
        16
    } else if is_oct(raw) {
        8
    } else {
        10
    }
}

/// Whether a decimal integer literal is negative.
pub open spec fn int_negative(raw: Seq<char>) -> bool {
    !is_hex(raw) && !is_oct(raw) && raw.len() >= 1 && raw[0] == '-'
}

/// A leading `+` or `-` removed.
pub open spec fn strip_sign(s: Seq<char>) -> Seq<char> {
    if s.len() > 0 && (s[0] == '+' || s[0] == '-') {
        s.drop_first()
    } else {
        s
    }
}

/// The length of the run of decimal digits at the start of `s`.
pub open spec fn digit_run(s: Seq<char>) -> nat
    decreases s.len(),
{
    if s.len() > 0 && '0' <= s[0] && s[0] <= '9' {
        1 + digit_run(s.drop_first())
    } else {
        0
    }
}

/// An optional exponent: `[eE] [-+]? [0-9]+`.
pub open spec fn exp_ok(u: Seq<char>) -> bool {
    u.len() == 0 || ((u[0] == 'e' || u[0] == 'E') && digit_run(strip_sign(u.skip(1))) > 0 && digit_run(
        strip_sign(u.skip(1)),
    ) == strip_sign(u.skip(1)).len())
}

/// `( \. [0-9]+ | [0-9]+ ( \. [0-9]* )? )` followed by an optional exponent.
pub open spec fn mantissa_exp(t: Seq<char>) -> bool {
    if t.len() > 0 && t[0] == '.' {
        let d = digit_run(t.skip(1)) as int;
        d > 0 && exp_ok(t.skip(1 + d))
    } else {
        let d = digit_run(t) as int;
        d > 0 && if t.len() > d && t[d] == '.' {
            exp_ok(t.skip(d + 1 + digit_run(t.skip(d + 1)) as int))
        } else {
            exp_ok(t.skip(d))
        }
    }
}

/// The core schema's float form:
/// `[-+]? ( \. [0-9]+ | [0-9]+ ( \. [0-9]* )? ) ( [eE] [-+]? [0-9]+ )?`.
pub open spec fn is_core_float_spec(s: Seq<char>) -> bool {
    mantissa_exp(strip_sign(s))
}

/// `.inf` and `.nan` in their core spellings, which have no JSON form.
pub open spec fn non_finite_spec(raw: Seq<char>) -> bool {
    let body = strip_sign(raw);
    body == ".inf"@ || body == ".Inf"@ || body == ".INF"@ || raw == ".nan"@ || raw == ".NaN"@ || raw == ".NAN"@
}

/// The finite number Rust parses from a core-schema float literal, by the
/// shortest decimal text that reads back as the same double; `None` when it
/// is not finite.
pub uninterp spec fn float_value(raw: Seq<char>) -> Option<NumV>;

/// Parses a core-schema float literal (`str::parse`) and keeps it only when
/// finite (`serde_json::Number::from_f64`). The contract claims only that the
/// result is a function of the text; which finite number it is, and when a
/// literal overflows, is floating point and not stated.
#[verifier::external_body]
fn float_number(raw: &str) -> (r: Option<Number>)
    ensures
        r matches Some(n) ==> float_value(raw@) == Some(n@),
        r is None ==> float_value(raw@) is None,
{
    let parsed = raw.parse().ok()?;
    serde_json::Number::from_f64(parsed).map(|_| Number::Float(parsed.to_string()))
}

} // verus!

verus! {

proof fn lemma_digit_run(s: Seq<char>)
    ensures
        digit_run(s) <= s.len(),
        forall|i: int| 0 <= i < digit_run(s) ==> '0' <= #[trigger] s[i] && s[i] <= '9',
        digit_run(s) < s.len() ==> !('0' <= s[digit_run(s) as int] && s[digit_run(s) as int] <= '9'),
    decreases s.len(),
{
    if s.len() > 0 && '0' <= s[0] && s[0] <= '9' {
        lemma_digit_run(s.drop_first());
        assert forall|i: int| 0 <= i < digit_run(s) implies '0' <= #[trigger] s[i] && s[i] <= '9' by {
            if i > 0 {
                assert(s[i] == s.drop_first()[i - 1]);
            }
        }
    }
}

/// The length of the digit run starting at `s[i]`.
fn digit_run_at(s: &Vec<char>, i: usize) -> (r: usize)
    requires
        i <= s.len(),
    ensures
        r == digit_run(s@.skip(i as int)),
        i + r <= s.len(),
{
    let mut e = i;
    while e < s.len() && '0' <= s[e] && s[e] <= '9'
        invariant
            i <= e <= s.len(),
            forall|j: int| i <= j < e ==> '0' <= #[trigger] s@[j] && s@[j] <= '9',
        decreases s.len() - e,
    {
        e = e + 1;
    }
    proof {
        let u = s@.skip(i as int);
        lemma_digit_run(u);
        let r = digit_run(u);
        if r < e - i {
            assert(u[r as int] == s@[i + r]);
        } else if r > e - i {
            assert(u[e - i] == s@[e as int]);
        }
    }
    e - i
}

fn exp_ok_at(s: &Vec<char>, p: usize) -> (r: bool)
    requires
        p <= s.len(),
    ensures
        r == exp_ok(s@.skip(p as int)),
{
    let ghost u = s@.skip(p as int);
    if p == s.len() {
        return true;
    }
    assert(u[0] == s@[p as int]);
    if !(s[p] == 'e' || s[p] == 'E') {
        return false;
    }
    let mut q = p + 1;
    assert(u.skip(1) == s@.skip(p + 1));
    if q < s.len() && (s[q] == '+' || s[q] == '-') {
        assert(s@.skip(p + 1).drop_first() == s@.skip(p + 2));
        q = q + 1;
    }
    assert(strip_sign(u.skip(1)) == s@.skip(q as int));
    let run = digit_run_at(s, q);
    run > 0 && q + run == s.len()
}

/// Whether `s` is a core-schema float literal.
fn is_core_float(s: &Vec<char>) -> (r: bool)
    ensures
        r == is_core_float_spec(s@),
{
    let o: usize = if s.len() > 0 && (s[0] == '+' || s[0] == '-') { 1 } else { 0 };
    let ghost t = strip_sign(s@);
    assert(t == s@.skip(o as int));
    if o < s.len() && s[o] == '.' {
        assert(t[0] == '.');
        assert(t.skip(1) == s@.skip(o + 1));
        let d = digit_run_at(s, o + 1);
        assert(t.skip(1 + d) == s@.skip(o + 1 + d));
        d > 0 && exp_ok_at(s, o + 1 + d)
    } else {
        assert(o < s.len() ==> t[0] == s@[o as int]);
        let d = digit_run_at(s, o);
        if d == 0 {
            return false;
        }
        if o + d < s.len() && s[o + d] == '.' {
            assert(t[d as int] == s@[o + d]);
            assert(t.skip(d + 1) == s@.skip(o + d + 1));
            let e = digit_run_at(s, o + d + 1);
            assert(t.skip(d + 1 + e) == s@.skip(o + d + 1 + e));
            exp_ok_at(s, o + d + 1 + e)
        } else {
            assert(t.skip(d as int) == s@.skip(o + d));
            exp_ok_at(s, o + d)
        }
    }
}

proof fn lemma_radix_prefix(s: Seq<char>, k: int, radix: nat)
    requires
        0 <= k <= s.len(),
        radix >= 1,
    ensures
        radix_value(s.take(k), radix) <= radix_value(s, radix),
    decreases s.len(),
{
    if k < s.len() {
        assert(s.drop_last().take(k) == s.take(k));
        lemma_radix_prefix(s.drop_last(), k, radix);
        let a = radix_value(s.drop_last(), radix);
        assert(a <= a * radix) by (nonlinear_arith)
            requires
                radix >= 1,
        ;
    } else {
        assert(s.take(k) == s);
    }
}

fn digit_val(c: char, radix: u32) -> (r: Option<u32>)
    requires
        2 <= radix <= 16,
    ensures
        r matches Some(v) ==> digit_value(c, radix as nat) == Some(v as nat),
        r is None ==> digit_value(c, radix as nat) is None,
{
    let v: u32 = if '0' <= c && c <= '9' {
        (c as u32) - ('0' as u32)
    } else if 'a' <= c && c <= 'f' {
        (c as u32) - ('a' as u32) + 10
    } else if 'A' <= c && c <= 'F' {
        (c as u32) - ('A' as u32) + 10
    } else {
        100
    };
    if v < radix {
        Some(v)
    } else {
        None
    }
}

/// The core schema's integer forms; `Ok(None)` is not an integer and `Err`
/// an integer out of range.
fn core_int(raw: &Vec<char>) -> (r: Result<Option<Number>, ()>)
    ensures
        r matches Ok(Some(n)) ==> core_int_spec(raw@) == Ok::<Option<int>, ()>(Some(n@->Int_0)) && n@ is Int,
        r matches Ok(None) ==> core_int_spec(raw@) == Ok::<Option<int>, ()>(None),
        r is Err ==> core_int_spec(raw@) is Err,
{
    let (start, radix, negative): (usize, u32, bool) = if raw.len() >= 2 && raw[0] == '0' && raw[1] == 'x' {
        (2, 16, false)
    } else if raw.len() >= 2 && raw[0] == '0' && raw[1] == 'o' {
        (2, 8, false)
    } else if raw.len() >= 1 && (raw[0] == '-' || raw[0] == '+') {
        (1, 10, raw[0] == '-')
    } else {
        (0, 10, false)
    };
    let ghost digits = raw@.skip(start as int);
    assert(start == int_start(raw@) && radix == int_radix(raw@) && negative == int_negative(raw@));
    if start == raw.len() {
        return Ok(None);
    }
    let mut k = start;
    while k < raw.len()
        invariant
            start <= k <= raw.len(),
            2 <= radix <= 16,
            digits == raw@.skip(start as int),
            start == int_start(raw@),
            radix as nat == int_radix(raw@),
            forall|j: int| start <= j < k ==> #[trigger] digit_value(raw@[j], radix as nat) is Some,
        decreases raw.len() - k,
    {
        if digit_val(raw[k], radix).is_none() {
            assert(digits[k - start] == raw@[k as int]);
            return Ok(None);
        }
        k = k + 1;
    }
    assert(all_radix(digits, radix as nat)) by {
        assert forall|i: int| 0 <= i < digits.len() implies #[trigger] digit_value(digits[i], radix as nat) is Some by {
            assert(digits[i] == raw@[start + i]);
        }
    }
    let mut acc: u128 = 0;
    let mut big = false;
    let mut i = start;
    assert(digits.take(0) == Seq::<char>::empty());
    while i < raw.len() && !big
        invariant
            start <= i <= raw.len(),
            2 <= radix <= 16,
            digits == raw@.skip(start as int),
            all_radix(digits, radix as nat),
            acc <= 0x1_0000_0000_0000_0000u128,
            !big ==> acc as nat == radix_value(digits.take(i - start), radix as nat),
            big ==> radix_value(digits, radix as nat) > 0x1_0000_0000_0000_0000u128,
        decreases raw.len() - i,
    {
        assert(digits[i - start] == raw@[i as int]);
        let d = digit_val(raw[i], radix).unwrap();
        assert(acc * (radix as u128) <= 0x10_0000_0000_0000_0000u128) by (nonlinear_arith)
            requires
                acc <= 0x1_0000_0000_0000_0000u128,
                radix <= 16,
        ;
        assert(digits.take(i + 1 - start).drop_last() == digits.take(i - start));
        let next: u128 = acc * (radix as u128) + (d as u128);
        if next > 0x1_0000_0000_0000_0000u128 {
            big = true;
            proof {
                lemma_radix_prefix(digits, i + 1 - start, radix as nat);
            }
        } else {
            acc = next;
        }
        i = i + 1;
    }
    if !big {
        assert(digits.take(i - start) == digits);
    }
    if negative {
        if big || acc > 0x8000_0000_0000_0000u128 {
            return Err(());
        }
        let v: i64 = (0i128 - (acc as i128)) as i64;
        Ok(Some(Number::Int(v)))
    } else {
        if big || acc > 0xFFFF_FFFF_FFFF_FFFFu128 {
            return Err(());
        }
        if acc <= 0x7FFF_FFFF_FFFF_FFFFu128 {
            Ok(Some(Number::Int(acc as i64)))
        } else {
            Ok(Some(Number::UInt(acc as u64)))
        }
    }
}

} // verus!

verus! {

/// The core schema's floats: `.inf` and `.nan` have no JSON form (`Err`);
/// a literal outside the float form is not a float (`Ok(None)`); an
/// overflowing literal has no JSON form either.
pub open spec fn core_float_spec(raw: Seq<char>) -> Result<Option<NumV>, ()> {
    if non_finite_spec(raw) {
        Err(())
    } else if !is_core_float_spec(raw) {
        Ok(None)
    } else {
        match float_value(raw) {
            Some(n) => Ok(Some(n)),
            None => Err(()),
        }
    }
}

/// The tag handle of the YAML core schema (`!!str` and friends).
pub open spec fn core_handle() -> Seq<char> {
    "tag:yaml.org,2002:"@
}

/// How a scalar resolves under the core schema. An explicit tag
/// must be the non-specific `!` or a core tag whose form the text matches;
/// anything else is `Err`. Untagged quoted and block scalars are strings;
/// plain ones are tried as null, boolean, integer, then float.
pub open spec fn resolve_scalar_spec(raw: Seq<char>, plain: bool, tag: Option<(Seq<char>, Seq<char>)>) -> Result<JV, ()> {
    match tag {
        Some((h, sfx)) => if h == "!"@ && sfx.len() == 0 {
            Ok(JV::Str(raw))
        } else if h != core_handle() {
            Err(())
        } else if sfx == "str"@ {
            Ok(JV::Str(raw))
        } else if sfx == "null"@ {
            if core_null_spec(raw) {
                Ok(JV::Null)
            } else {
                Err(())
            }
        } else if sfx == "bool"@ {
            match core_bool_spec(raw) {
                Some(b) => Ok(JV::Bool(b)),
                None => Err(()),
            }
        } else if sfx == "int"@ {
            match core_int_spec(raw) {
                Ok(Some(v)) => Ok(JV::Num(NumV::Int(v))),
                _ => Err(()),
            }
        } else if sfx == "float"@ {
            match core_float_spec(raw) {
                Ok(Some(n)) => Ok(JV::Num(n)),
                _ => Err(()),
            }
        } else {
            Err(())
        },
        None => if !plain {
            Ok(JV::Str(raw))
        } else if core_null_spec(raw) {
            Ok(JV::Null)
        } else if core_bool_spec(raw) is Some {
            Ok(JV::Bool(core_bool_spec(raw).unwrap()))
        } else {
            match core_int_spec(raw) {
                Err(_) => Err(()),
                Ok(Some(v)) => Ok(JV::Num(NumV::Int(v))),
                Ok(None) => match core_float_spec(raw) {
                    Err(_) => Err(()),
                    Ok(Some(n)) => Ok(JV::Num(n)),
                    Ok(None) => Ok(JV::Str(raw)),
                },
            }
        },
    }
}

fn eq_lit(s: &str, lit: &str) -> (r: bool)
    ensures
        r == (s@ == lit@),
{
    crate::text::same_text(s, lit)
}

fn core_null(raw: &str) -> (r: bool)
    ensures
        r == core_null_spec(raw@),
{
    eq_lit(raw, "") || eq_lit(raw, "null") || eq_lit(raw, "Null") || eq_lit(raw, "NULL") || eq_lit(raw, "~")
}

fn core_bool(raw: &str) -> (r: Option<bool>)
    ensures
        r == core_bool_spec(raw@),
{
    if eq_lit(raw, "true") || eq_lit(raw, "True") || eq_lit(raw, "TRUE") {
        Some(true)
    } else if eq_lit(raw, "false") || eq_lit(raw, "False") || eq_lit(raw, "FALSE") {
        Some(false)
    } else {
        None
    }
}

fn core_float(raw: &str) -> (r: Result<Option<Number>, ()>)
    ensures
        r matches Ok(Some(n)) ==> core_float_spec(raw@) == Ok::<Option<NumV>, ()>(Some(n@)),
        r matches Ok(None) ==> core_float_spec(raw@) == Ok::<Option<NumV>, ()>(None),
        r is Err ==> core_float_spec(raw@) is Err,
{
    let c = chars_of(raw);
    let o: usize = if c.len() > 0 && (c[0] == '+' || c[0] == '-') { 1 } else { 0 };
    let body = crate::text::slice_vec(&c, o, c.len());
    assert(body@ == strip_sign(raw@));
    let body_s = string_of(body.as_slice());
    if eq_lit(body_s.as_str(), ".inf") || eq_lit(body_s.as_str(), ".Inf") || eq_lit(body_s.as_str(), ".INF")
        || eq_lit(raw, ".nan") || eq_lit(raw, ".NaN") || eq_lit(raw, ".NAN") {
        return Err(());
    }
    if !is_core_float(&c) {
        return Ok(None);
    }
    match float_number(raw) {
        Some(n) => Ok(Some(n)),
        None => Err(()),
    }
}

/// A scalar's tag: its handle and suffix.
pub open spec fn tag_view(t: Option<(String, String)>) -> Option<(Seq<char>, Seq<char>)> {
    match t {
        Some((h, s)) => Some((h@, s@)),
        None => None,
    }
}

fn unsupported_tag(h: &str, s: &str) -> (r: String)
    ensures
        r@ == "unsupported tag `"@ + (h@ + s@) + "`"@,
{
    crate::text::concat3("unsupported tag `", crate::text::concat2(h, s).as_str(), "`")
}

/// Resolves a scalar under the core schema.
pub fn resolve_scalar(raw: &str, plain: bool, tag: &Option<(String, String)>) -> (r: Result<Json, String>)
    ensures
        r is Ok <==> resolve_scalar_spec(raw@, plain, tag_view(*tag)) is Ok,
        r matches Ok(j) ==> resolve_scalar_spec(raw@, plain, tag_view(*tag)) == Ok::<JV, ()>(j@),
{
    proof {
        reveal_strlit("");
    }
    let s = crate::text::owned(raw);
    match tag {
        Some((h, sfx)) => {
            proof {
                if sfx@.len() == 0 {
                    assert(sfx@ =~= ""@);
                }
            }
            if eq_lit(h.as_str(), "!") && eq_lit(sfx.as_str(), "") {
                return Ok(Json::Str(s));
            }
            if !eq_lit(h.as_str(), "tag:yaml.org,2002:") {
                return Err(unsupported_tag(h.as_str(), sfx.as_str()));
            }
            if eq_lit(sfx.as_str(), "str") {
                Ok(Json::Str(s))
            } else if eq_lit(sfx.as_str(), "null") {
                if core_null(raw) {
                    Ok(Json::Null)
                } else {
                    Err(crate::text::concat2(raw, " is not a valid !!null value"))
                }
            } else if eq_lit(sfx.as_str(), "bool") {
                match core_bool(raw) {
                    Some(b) => Ok(Json::Bool(b)),
                    None => Err(crate::text::concat2(raw, " is not a valid !!bool value")),
                }
            } else if eq_lit(sfx.as_str(), "int") {
                match core_int(&chars_of(raw)) {
                    Ok(Some(n)) => Ok(Json::Number(n)),
                    _ => Err(crate::text::concat2(raw, " is not a valid !!int value")),
                }
            } else if eq_lit(sfx.as_str(), "float") {
                match core_float(raw) {
                    Ok(Some(n)) => Ok(Json::Number(n)),
                    _ => Err(crate::text::concat2(raw, " is not a valid !!float value")),
                }
            } else {
                Err(unsupported_tag(h.as_str(), sfx.as_str()))
            }
        },
        None => {
            if !plain {
                return Ok(Json::Str(s));
            }
            if core_null(raw) {
                return Ok(Json::Null);
            }
            match core_bool(raw) {
                Some(b) => {
                    return Ok(Json::Bool(b));
                },
                None => {},
            }
            match core_int(&chars_of(raw)) {
                Err(_) => {
                    return Err(crate::text::concat3("integer ", raw, " is out of range for the data model"));
                },
                Ok(Some(n)) => {
                    return Ok(Json::Number(n));
                },
                Ok(None) => {},
            }
            match core_float(raw) {
                Err(_) => Err(crate::text::concat2(raw, " has no representation in the entryconf data model")),
                Ok(Some(n)) => Ok(Json::Number(n)),
                Ok(None) => Ok(Json::Str(s)),
            }
        },
    }
}


/// `c` in upper case, for ASCII letters.
pub open spec fn ascii_upper(c: char) -> char {
    if 'a' <= c && c <= 'z' {
        ((c as int) - 32) as char
    } else {
        c
    }
}

/// Every letter of `s` in upper case.
pub open spec fn upper_text(s: Seq<char>) -> Seq<char> {
    Seq::new(s.len(), |i: int| ascii_upper(s[i]))
}

/// `s` with its first letter in upper case.
pub open spec fn capital_text(s: Seq<char>) -> Seq<char> {
    if s.len() == 0 {
        s
    } else {
        s.update(0, ascii_upper(s[0]))
    }
}

/// Law: a JSON `true`, `false` or `null`, written as the JSON text the
/// formatter gives it, reads back as that same value when it appears as a
/// plain untagged YAML scalar, also in its capitalized and upper-case
/// spellings (the booleans also under the `!!bool` tag; null also as `~` or
/// nothing): the core schema makes them scalars, not strings. Quoted, the
/// same text stays a string.
pub proof fn law_yaml_plain_scalars_keep_their_type(b: bool)
    ensures
        resolve_scalar_spec(crate::jsonfmt::value_text(JV::Bool(b), 0), true, None) == Ok::<JV, ()>(JV::Bool(b)),
        resolve_scalar_spec(capital_text(crate::jsonfmt::value_text(JV::Bool(b), 0)), true, None) == Ok::<JV, ()>(JV::Bool(b)),
        resolve_scalar_spec(upper_text(crate::jsonfmt::value_text(JV::Bool(b), 0)), true, None) == Ok::<JV, ()>(JV::Bool(b)),
        resolve_scalar_spec(crate::jsonfmt::value_text(JV::Bool(b), 0), true, Some((core_handle(), "bool"@))) == Ok::<JV, ()>(JV::Bool(b)),
        resolve_scalar_spec(crate::jsonfmt::value_text(JV::Null, 0), true, None) == Ok::<JV, ()>(JV::Null),
        resolve_scalar_spec(capital_text(crate::jsonfmt::value_text(JV::Null, 0)), true, None) == Ok::<JV, ()>(JV::Null),
        resolve_scalar_spec(upper_text(crate::jsonfmt::value_text(JV::Null, 0)), true, None) == Ok::<JV, ()>(JV::Null),
        resolve_scalar_spec(seq!['~'], true, None) == Ok::<JV, ()>(JV::Null),
        resolve_scalar_spec(Seq::empty(), true, None) == Ok::<JV, ()>(JV::Null),
        resolve_scalar_spec(crate::jsonfmt::value_text(JV::Bool(b), 0), false, None) == Ok::<JV, ()>(JV::Str(crate::jsonfmt::value_text(JV::Bool(b), 0))),
{
    reveal_strlit("");
    reveal_strlit("null");
    reveal_strlit("Null");
    reveal_strlit("NULL");
    reveal_strlit("~");
    reveal_strlit("true");
    reveal_strlit("True");
    reveal_strlit("TRUE");
    reveal_strlit("false");
    reveal_strlit("False");
    reveal_strlit("FALSE");
    reveal_strlit("bool");
    reveal_strlit("str");
    reveal_strlit("!");
    assert(capital_text("true"@) =~= "True"@);
    assert(upper_text("true"@) =~= "TRUE"@);
    assert(capital_text("false"@) =~= "False"@);
    assert(upper_text("false"@) =~= "FALSE"@);
    assert(capital_text("null"@) =~= "Null"@);
    assert(upper_text("null"@) =~= "NULL"@);
    assert(seq!['~'] =~= "~"@);
    assert(Seq::<char>::empty() =~= ""@);
}

} // verus!
