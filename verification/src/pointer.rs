//! RFC 6901 JSON Pointers over the data model.

use vstd::prelude::*;

use crate::error::{Error, ErrorCode};
use crate::json::{
    jv_entries, jv_of, jv_seq, keys_sorted, lemma_jv_entries, lemma_jv_seq, lemma_obj_insert_sorted, lemma_obj_pos,
    lemma_obj_get_at, lemma_obj_remove_sorted, obj_pos, Entries,
    obj_find, obj_get,
    obj_insert, obj_remove, Json, JV,
};
use crate::text::{chars_of, concat3, concat4, owned, same_text, string_of};

verus! {

broadcast use {lemma_jv_seq, lemma_jv_entries};

/// RFC 6901 escaping of one reference token: `~` as `~0`, `/` as `~1`.
pub open spec fn escape_spec(t: Seq<char>) -> Seq<char>
    decreases t.len(),
{
    if t.len() == 0 {
        Seq::empty()
    } else {
        let rest = escape_spec(t.drop_first());
        if t[0] == '~' {
            seq!['~', '0'] + rest
        } else if t[0] == '/' {
            seq!['~', '1'] + rest
        } else {
            seq![t[0]] + rest
        }
    }
}

/// RFC 6901 unescaping of one token; `None` when a `~` is not followed by
/// `0` or `1`.
pub open spec fn unescape_spec(t: Seq<char>) -> Option<Seq<char>>
    decreases t.len(),
{
    if t.len() == 0 {
        Some(Seq::empty())
    } else if t[0] == '~' {
        if t.len() >= 2 && (t[1] == '0' || t[1] == '1') {
            match unescape_spec(t.skip(2)) {
                Some(r) => Some(seq![if t[1] == '0' { '~' } else { '/' }] + r),
                None => None,
            }
        } else {
            None
        }
    } else {
        match unescape_spec(t.drop_first()) {
            Some(r) => Some(seq![t[0]] + r),
            None => None,
        }
    }
}

/// The pieces of `s` between `/` separators, the first piece continuing `cur`.
pub open spec fn split_from(s: Seq<char>, cur: Seq<char>) -> Seq<Seq<char>>
    decreases s.len(),
{
    if s.len() == 0 {
        seq![cur]
    } else if s[0] == '/' {
        seq![cur] + split_from(s.drop_first(), Seq::empty())
    } else {
        split_from(s.drop_first(), cur.push(s[0]))
    }
}

/// The pieces of `s` between `/` separators (at least one, possibly empty).
pub open spec fn split_slash(s: Seq<char>) -> Seq<Seq<char>> {
    split_from(s, Seq::empty())
}

/// Every piece unescaped, or `None` if any piece is malformed.
pub open spec fn unescape_all(raw: Seq<Seq<char>>) -> Option<Seq<Seq<char>>>
    decreases raw.len(),
{
    if raw.len() == 0 {
        Some(Seq::empty())
    } else {
        match (unescape_spec(raw[0]), unescape_all(raw.drop_first())) {
            (Some(t), Some(rest)) => Some(seq![t] + rest),
            _ => None,
        }
    }
}

/// The unescaped tokens of a pointer: `""` is the root (no tokens); anything
/// else must start with `/`.
pub open spec fn pointer_tokens(p: Seq<char>) -> Option<Seq<Seq<char>>> {
    if p.len() == 0 {
        Some(Seq::empty())
    } else if p[0] != '/' {
        None
    } else {
        unescape_all(split_slash(p.drop_first()))
    }
}

/// The pointer naming `toks`, each escaped and preceded by `/`.
pub open spec fn pointer_of(toks: Seq<Seq<char>>) -> Seq<char>
    decreases toks.len(),
{
    if toks.len() == 0 {
        Seq::empty()
    } else {
        seq!['/'] + escape_spec(toks[0]) + pointer_of(toks.drop_first())
    }
}

/// A decimal digit.
pub open spec fn is_digit(c: char) -> bool {
    '0' <= c && c <= '9'
}

/// The value of a string of decimal digits.
pub open spec fn digits_value(s: Seq<char>) -> nat
    decreases s.len(),
{
    if s.len() == 0 {
        0
    } else {
        digits_value(s.drop_last()) * 10 + ((s.last() as int - '0' as int) as nat)
    }
}

/// An array index token: decimal digits without leading zeros, in range of
/// `usize`. `-` and anything else is not an index.
pub open spec fn array_index_spec(t: Seq<char>) -> Option<nat> {
    if t.len() == 0 || (t.len() > 1 && t[0] == '0') || !(forall|i: int|
        0 <= i < t.len() ==> is_digit(#[trigger] t[i])) || digits_value(t) > usize::MAX {
        None
    } else {
        Some(digits_value(t))
    }
}

/// The value a pointer addresses, following object members and array indices.
pub open spec fn get_spec(v: JV, toks: Seq<Seq<char>>) -> Option<JV>
    decreases toks.len(),
{
    if toks.len() == 0 {
        Some(v)
    } else {
        match v {
            JV::Obj(es) => match obj_get(es, toks[0]) {
                Some(c) => get_spec(c, toks.drop_first()),
                None => None,
            },
            JV::Arr(items) => match array_index_spec(toks[0]) {
                Some(i) => if i < items.len() {
                    get_spec(items[i as int], toks.drop_first())
                } else {
                    None
                },
                None => None,
            },
            _ => None,
        }
    }
}

/// The final step of a `set`: an object member is added or
/// replaced; an array element at an index below the length is replaced, and
/// the length itself or `-` appends.
pub open spec fn set_last(v: JV, t: Seq<char>, x: JV) -> Option<JV> {
    match v {
        JV::Obj(es) => Some(JV::Obj(obj_insert(es, t, x))),
        JV::Arr(items) => if t == seq!['-'] {
            Some(JV::Arr(items.push(x)))
        } else {
            match array_index_spec(t) {
                Some(i) => if i < items.len() {
                    Some(JV::Arr(items.update(i as int, x)))
                } else if i == items.len() {
                    Some(JV::Arr(items.push(x)))
                } else {
                    None
                },
                None => None,
            }
        },
        _ => None,
    }
}

/// A `set`: the parents are walked from the root, a missing
/// object member is created as an empty object, an array step must name an
/// existing index, and a scalar cannot be descended into. The root pointer
/// replaces the whole value. `None` is `E_PATH`.
pub open spec fn set_spec(v: JV, toks: Seq<Seq<char>>, x: JV) -> Option<JV>
    decreases toks.len(),
{
    if toks.len() == 0 {
        Some(x)
    } else if toks.len() == 1 {
        set_last(v, toks[0], x)
    } else {
        match v {
            JV::Obj(es) => {
                let child = match obj_get(es, toks[0]) {
                    Some(c) => c,
                    None => JV::Obj(Seq::empty()),
                };
                match set_spec(child, toks.drop_first(), x) {
                    Some(c2) => Some(JV::Obj(obj_insert(es, toks[0], c2))),
                    None => None,
                }
            },
            JV::Arr(items) => match array_index_spec(toks[0]) {
                Some(i) => if i < items.len() {
                    match set_spec(items[i as int], toks.drop_first(), x) {
                        Some(c2) => Some(JV::Arr(items.update(i as int, c2))),
                        None => None,
                    }
                } else {
                    None
                },
                None => None,
            },
            _ => None,
        }
    }
}

/// The final step of a `remove`: an object member is deleted, or an array
/// element, later elements shifting down.
pub open spec fn remove_last(v: JV, t: Seq<char>) -> Option<JV> {
    match v {
        JV::Obj(es) => match obj_remove(es, t) {
            Some(r) => Some(JV::Obj(r)),
            None => None,
        },
        JV::Arr(items) => match array_index_spec(t) {
            Some(i) => if i < items.len() {
                Some(JV::Arr(items.remove(i as int)))
            } else {
                None
            },
            None => None,
        },
        _ => None,
    }
}

/// A `remove`: every step must exist, nothing is created, and
/// the root cannot be removed. `None` is `E_PATH`.
pub open spec fn remove_spec(v: JV, toks: Seq<Seq<char>>) -> Option<JV>
    decreases toks.len(),
{
    if toks.len() == 0 {
        None
    } else if toks.len() == 1 {
        remove_last(v, toks[0])
    } else {
        match v {
            JV::Obj(es) => match obj_get(es, toks[0]) {
                Some(c) => match remove_spec(c, toks.drop_first()) {
                    Some(c2) => Some(JV::Obj(obj_insert(es, toks[0], c2))),
                    None => None,
                },
                None => None,
            },
            JV::Arr(items) => match array_index_spec(toks[0]) {
                Some(i) => if i < items.len() {
                    match remove_spec(items[i as int], toks.drop_first()) {
                        Some(c2) => Some(JV::Arr(items.update(i as int, c2))),
                        None => None,
                    }
                } else {
                    None
                },
                None => None,
            },
            _ => None,
        }
    }
}

/// The views of a list of tokens.
pub open spec fn token_views(toks: Seq<String>) -> Seq<Seq<char>> {
    toks.map_values(|t: String| t@)
}

} // verus!

verus! {

/// `out` followed by an optional rest.
pub open spec fn prefixed(out: Seq<char>, rest: Option<Seq<char>>) -> Option<Seq<char>> {
    match rest {
        Some(r) => Some(out + r),
        None => None,
    }
}

/// RFC 6901 escaping of one reference token.
pub fn escape_token(token: &str) -> (r: String)
    ensures
        r@ == escape_spec(token@),
{
    let t = chars_of(token);
    let mut out: Vec<char> = Vec::new();
    let mut i: usize = 0;
    assert(t@.skip(0) == t@);
    while i < t.len()
        invariant
            i <= t.len(),
            t@ == token@,
            escape_spec(t@) == out@ + escape_spec(t@.skip(i as int)),
        decreases t.len() - i,
    {
        let ghost s = t@.skip(i as int);
        assert(s.drop_first() == t@.skip(i + 1));
        let c = t[i];
        if c == '~' {
            out.push('~');
            out.push('0');
            assert(out@ + escape_spec(t@.skip(i + 1)) == (out@.drop_last().drop_last()) + (seq!['~', '0'] + escape_spec(s.drop_first())));
        } else if c == '/' {
            out.push('~');
            out.push('1');
            assert(out@ + escape_spec(t@.skip(i + 1)) == (out@.drop_last().drop_last()) + (seq!['~', '1'] + escape_spec(s.drop_first())));
        } else {
            out.push(c);
            assert(out@ + escape_spec(t@.skip(i + 1)) == out@.drop_last() + (seq![c] + escape_spec(s.drop_first())));
        }
        i = i + 1;
    }
    assert(t@.skip(i as int) == Seq::<char>::empty());
    assert(out@ + Seq::<char>::empty() == out@);
    string_of(out.as_slice())
}

/// RFC 6901 unescaping of one token; `None` for a malformed `~`.
fn unescape_token(t: &Vec<char>) -> (r: Option<Vec<char>>)
    ensures
        r matches Some(v) ==> unescape_spec(t@) == Some(v@),
        r is None ==> unescape_spec(t@) is None,
{
    let mut out: Vec<char> = Vec::new();
    let mut i: usize = 0;
    assert(t@.skip(0) == t@);
    while i < t.len()
        invariant
            i <= t.len(),
            unescape_spec(t@) == prefixed(out@, unescape_spec(t@.skip(i as int))),
        decreases t.len() - i,
    {
        let ghost s = t@.skip(i as int);
        let ghost old_out = out@;
        let c = t[i];
        if c == '~' {
            if i + 1 < t.len() && (t[i + 1] == '0' || t[i + 1] == '1') {
                let d = if t[i + 1] == '0' { '~' } else { '/' };
                out.push(d);
                assert(s.skip(2) == t@.skip(i + 2));
                assert(old_out + (seq![d] + Seq::<char>::empty()) == out@);
                proof {
                    match unescape_spec(t@.skip(i + 2)) {
                        Some(r) => {
                            assert(old_out + (seq![d] + r) == out@ + r);
                        },
                        None => {},
                    }
                }
                i = i + 2;
            } else {
                return None;
            }
        } else {
            out.push(c);
            assert(s.drop_first() == t@.skip(i + 1));
            proof {
                match unescape_spec(t@.skip(i + 1)) {
                    Some(r) => {
                        assert(old_out + (seq![c] + r) == out@ + r);
                    },
                    None => {},
                }
            }
            i = i + 1;
        }
    }
    assert(t@.skip(i as int) == Seq::<char>::empty());
    assert(out@ + Seq::<char>::empty() == out@);
    Some(out)
}

/// Unescaping a concatenation of piece lists unescapes each part.
pub proof fn lemma_unescape_all_concat(a: Seq<Seq<char>>, b: Seq<Seq<char>>)
    ensures
        unescape_all(a + b) == match (unescape_all(a), unescape_all(b)) {
            (Some(x), Some(y)) => Some(x + y),
            _ => None::<Seq<Seq<char>>>,
        },
    decreases a.len(),
{
    if a.len() == 0 {
        assert(a + b == b);
        match unescape_all(b) {
            Some(y) => {
                assert(Seq::<Seq<char>>::empty() + y == y);
            },
            None => {},
        }
    } else {
        lemma_unescape_all_concat(a.drop_first(), b);
        assert((a + b).drop_first() == a.drop_first() + b);
        assert((a + b)[0] == a[0]);
        match (unescape_spec(a[0]), unescape_all(a.drop_first()), unescape_all(b)) {
            (Some(t), Some(x), Some(y)) => {
                assert(seq![t] + (x + y) == (seq![t] + x) + y);
            },
            _ => {},
        }
    }
}

fn path_err(pointer: &str, detail: &str) -> (e: Error)
    ensures
        e.spec_code() == ErrorCode::Path,
{
    Error::new(ErrorCode::Path, concat4("pointer \"", pointer, "\": ", detail))
}

/// Splits a pointer into its unescaped tokens; `""` is the root (no tokens).
/// A pointer that does not start with `/`, or holds a `~` not followed by
/// `0` or `1`, is `E_PATH`.
pub fn parse(pointer: &str) -> (r: Result<Vec<String>, Error>)
    ensures
        r is Ok <==> pointer_tokens(pointer@) is Some,
        r matches Ok(v) ==> token_views(v@) == pointer_tokens(pointer@).unwrap(),
        r matches Err(e) ==> e.spec_code() == ErrorCode::Path,
{
    let c = chars_of(pointer);
    if c.len() == 0 {
        let v: Vec<String> = Vec::new();
        assert(token_views(v@) =~= Seq::<Seq<char>>::empty());
        return Ok(v);
    }
    if c[0] != '/' {
        return Err(path_err(pointer, "must be empty or start with \"/\""));
    }
    let ghost rest = c@.drop_first();
    let mut out: Vec<String> = Vec::new();
    let mut cur: Vec<char> = Vec::new();
    let ghost mut done_raw: Seq<Seq<char>> = Seq::empty();
    let mut i: usize = 1;
    assert(c@.skip(1) == rest);
    assert(done_raw + split_from(rest, cur@) == split_slash(rest));
    while i < c.len()
        invariant
            1 <= i <= c.len(),
            c@ == pointer@,
            rest == c@.drop_first(),
            done_raw + split_from(c@.skip(i as int), cur@) == split_slash(rest),
            unescape_all(done_raw) == Some(token_views(out@)),
        decreases c.len() - i,
    {
        let ghost s = c@.skip(i as int);
        assert(s.drop_first() == c@.skip(i + 1));
        if c[i] == '/' {
            match unescape_token(&cur) {
                Some(tok) => {
                    let ghost old_out = out@;
                    out.push(string_of(tok.as_slice()));
                    proof {
                        lemma_unescape_all_concat(done_raw, seq![cur@]);
                        assert(seq![cur@].drop_first() == Seq::<Seq<char>>::empty());
                        assert(seq![tok@] + Seq::<Seq<char>>::empty() == seq![tok@]);
                        assert(unescape_all(Seq::<Seq<char>>::empty()) == Some(Seq::<Seq<char>>::empty()));
                        assert(unescape_all(seq![cur@]) == Some(seq![tok@]));
                        assert(token_views(out@) =~= token_views(old_out) + seq![tok@]);
                        assert(done_raw + seq![cur@] + split_from(c@.skip(i + 1), Seq::empty()) == done_raw + split_from(s, cur@));
                        done_raw = done_raw + seq![cur@];
                    }
                    cur = Vec::new();
                },
                None => {
                    proof {
                        let more = split_from(c@.skip(i + 1), Seq::empty());
                        assert(split_slash(rest) == (done_raw + seq![cur@]) + more);
                        lemma_unescape_all_concat(done_raw + seq![cur@], more);
                        lemma_unescape_all_concat(done_raw, seq![cur@]);
                    }
                    return Err(path_err(pointer, "\"~\" must be followed by 0 or 1"));
                },
            }
        } else {
            cur.push(c[i]);
        }
        i = i + 1;
    }
    assert(c@.skip(i as int) == Seq::<char>::empty());
    proof {
        lemma_unescape_all_concat(done_raw, seq![cur@]);
        assert(seq![cur@].drop_first() == Seq::<Seq<char>>::empty());
    }
    match unescape_token(&cur) {
        Some(tok) => {
            let ghost old_out = out@;
            out.push(string_of(tok.as_slice()));
            assert(token_views(out@) =~= token_views(old_out) + seq![tok@]);
            Ok(out)
        },
        None => Err(path_err(pointer, "\"~\" must be followed by 0 or 1")),
    }
}

/// The value of a prefix of digits never exceeds the value of the whole.
pub proof fn lemma_digits_prefix(s: Seq<char>, k: int)
    requires
        0 <= k <= s.len(),
        forall|i: int| 0 <= i < s.len() ==> is_digit(#[trigger] s[i]),
    ensures
        digits_value(s.take(k)) <= digits_value(s),
    decreases s.len(),
{
    if k < s.len() {
        assert(s.drop_last().take(k) == s.take(k));
        lemma_digits_prefix(s.drop_last(), k);
    } else {
        assert(s.take(k) == s);
    }
}

/// `10` to the power `n`.
pub open spec fn pow10(n: nat) -> nat
    decreases n,
{
    if n == 0 {
        1
    } else {
        10 * pow10((n - 1) as nat)
    }
}

proof fn lemma_pow10_grows(a: nat, b: nat)
    requires
        a <= b,
    ensures
        pow10(a) <= pow10(b),
    decreases b,
{
    if a < b {
        lemma_pow10_grows(a, (b - 1) as nat);
    }
}

/// A digit string of length `n` is below `10^n`, and at least `10^(n-1)`
/// when it does not start with `0`.
proof fn lemma_digits_bounds(s: Seq<char>)
    requires
        forall|i: int| 0 <= i < s.len() ==> is_digit(#[trigger] s[i]),
    ensures
        digits_value(s) < pow10(s.len()),
        s.len() > 0 && s[0] != '0' ==> pow10((s.len() - 1) as nat) <= digits_value(s),
    decreases s.len(),
{
    if s.len() > 0 {
        let t = s.drop_last();
        assert forall|i: int| 0 <= i < t.len() implies is_digit(#[trigger] t[i]) by {
            assert(t[i] == s[i]);
        }
        lemma_digits_bounds(t);
        assert(is_digit(s[s.len() - 1]));
        let d = (s.last() as int - '0' as int) as nat;
        assert(d <= 9);
        let v = digits_value(t);
        assert(v * 10 + d < pow10(s.len())) by (nonlinear_arith)
            requires
                v < pow10(t.len()),
                d <= 9,
                pow10(s.len()) == 10 * pow10(t.len()),
        ;
        if s[0] != '0' {
            if t.len() > 0 {
                assert(t[0] == s[0]);
                assert(pow10((s.len() - 1) as nat) <= v * 10 + d) by (nonlinear_arith)
                    requires
                        pow10((t.len() - 1) as nat) <= v,
                        pow10((s.len() - 1) as nat) == 10 * pow10((t.len() - 1) as nat),
                ;
            } else {
                assert(s.last() == s[0]);
            }
        }
    }
}

/// Distinct array index tokens name distinct indices.
proof fn lemma_index_injective(a: Seq<char>, b: Seq<char>)
    requires
        array_index_spec(a) is Some,
        array_index_spec(a) == array_index_spec(b),
    ensures
        a == b,
    decreases a.len(),
{
    lemma_digits_bounds(a);
    lemma_digits_bounds(b);
    if a.len() < b.len() {
        lemma_pow10_grows(a.len(), (b.len() - 1) as nat);
    } else if b.len() < a.len() {
        lemma_pow10_grows(b.len(), (a.len() - 1) as nat);
    } else if a.len() > 1 {
        let ta = a.drop_last();
        let tb = b.drop_last();
        let da = (a.last() as int - '0' as int) as nat;
        let db = (b.last() as int - '0' as int) as nat;
        assert(is_digit(a[a.len() - 1]) && is_digit(b[b.len() - 1]));
        let va = digits_value(ta);
        let vb = digits_value(tb);
        assert(va == vb && da == db) by (nonlinear_arith)
            requires
                va * 10 + da == vb * 10 + db,
                da <= 9,
                db <= 9,
        ;
        assert(ta[0] == a[0] && tb[0] == b[0]);
        assert forall|i: int| 0 <= i < ta.len() implies is_digit(#[trigger] ta[i]) by {
            assert(ta[i] == a[i]);
        }
        assert forall|i: int| 0 <= i < tb.len() implies is_digit(#[trigger] tb[i]) by {
            assert(tb[i] == b[i]);
        }
        lemma_digits_prefix(a, ta.len() as int);
        assert(a.take(ta.len() as int) == ta);
        lemma_index_injective(ta, tb);
        assert(a =~= ta.push(a.last()));
        assert(b =~= tb.push(b.last()));
    } else if a.len() == 1 {
        assert(a[0] == a.last() && b[0] == b.last());
        assert(a =~= b);
    }
}

/// An array index token: decimal digits with no leading zeros, in range of
/// `usize`. `None` for anything else, including `-`.
pub fn array_index(token: &str) -> (r: Option<usize>)
    ensures
        r matches Some(i) ==> array_index_spec(token@) == Some(i as nat),
        r is None ==> array_index_spec(token@) is None,
{
    let t = chars_of(token);
    if t.len() == 0 || (t.len() > 1 && t[0] == '0') {
        return None;
    }
    let mut k: usize = 0;
    while k < t.len()
        invariant
            k <= t.len(),
            t@ == token@,
            forall|i: int| 0 <= i < k ==> is_digit(#[trigger] t@[i]),
        decreases t.len() - k,
    {
        if !('0' <= t[k] && t[k] <= '9') {
            return None;
        }
        k = k + 1;
    }
    let mut acc: usize = 0;
    let mut i: usize = 0;
    assert(t@.take(0) == Seq::<char>::empty());
    while i < t.len()
        invariant
            i <= t.len(),
            t@ == token@,
            forall|j: int| 0 <= j < t.len() ==> is_digit(#[trigger] t@[j]),
            acc as nat == digits_value(t@.take(i as int)),
        decreases t.len() - i,
    {
        let d = (t[i] as u32 - '0' as u32) as usize;
        assert(t@.take(i + 1).drop_last() == t@.take(i as int));
        if acc > (usize::MAX - d) / 10 {
            proof {
                lemma_digits_prefix(t@, i + 1);
            }
            return None;
        }
        acc = acc * 10 + d;
        i = i + 1;
    }
    assert(t@.take(i as int) == t@);
    Some(acc)
}

} // verus!

verus! {

/// Every object within the value holds its members sorted by key.
pub open spec fn jv_wf(v: JV) -> bool
    decreases v,
{
    match v {
        JV::Arr(items) => forall|i: int| 0 <= i < items.len() ==> jv_wf(#[trigger] items[i]),
        JV::Obj(es) => keys_sorted(es) && forall|i: int| 0 <= i < es.len() ==> jv_wf(#[trigger] es[i].1),
        _ => true,
    }
}

fn set_final(node: Json, tok: &String, value: Json) -> (r: Result<Json, Error>)
    ensures
        r is Ok <==> set_last(node@, tok@, value@) is Some,
        r matches Ok(j) ==> j@ == set_last(node@, tok@, value@).unwrap(),
        r matches Err(e) ==> e.spec_code() == ErrorCode::Path,
{
    match node {
        Json::Object(mut es) => {
            let (p, found) = obj_find(&es, tok.as_str());
            let ghost before = jv_entries(es@);
            proof {
                lemma_obj_pos(before, tok@);
            }
            if found {
                es.set(p, (tok.clone(), value));
            } else {
                es.insert(p, (tok.clone(), value));
            }
            assert(jv_entries(es@) =~= obj_insert(before, tok@, value@));
            Ok(Json::Object(es))
        },
        Json::Array(mut items) => {
            let ghost before = jv_seq(items@);
            proof {
                reveal_strlit("-");
            }
            if same_text(tok.as_str(), "-") {
                assert(tok@ =~= seq!['-']);
                items.push(value);
                assert(jv_seq(items@) =~= before.push(value@));
                return Ok(Json::Array(items));
            }
            assert("-"@ =~= seq!['-']);
            match array_index(tok.as_str()) {
                Some(k) => {
                    if k < items.len() {
                        items.set(k, value);
                        assert(jv_seq(items@) =~= before.update(k as int, value@));
                        Ok(Json::Array(items))
                    } else if k == items.len() {
                        items.push(value);
                        assert(jv_seq(items@) =~= before.push(value@));
                        Ok(Json::Array(items))
                    } else {
                        Err(Error::new(ErrorCode::Path, concat3("array index \"", tok.as_str(), "\" is out of range")))
                    }
                },
                None => Err(Error::new(ErrorCode::Path, concat3("array index \"", tok.as_str(), "\" is out of range"))),
            }
        },
        _ => Err(Error::new(ErrorCode::Path, owned("cannot set a member of a scalar"))),
    }
}

fn set_at(node: Json, toks: &Vec<String>, i: usize, value: Json) -> (r: Result<Json, Error>)
    requires
        i <= toks.len(),
    ensures
        r is Ok <==> set_spec(node@, token_views(toks@).skip(i as int), value@) is Some,
        r matches Ok(j) ==> j@ == set_spec(node@, token_views(toks@).skip(i as int), value@).unwrap(),
        r matches Err(e) ==> e.spec_code() == ErrorCode::Path,
    decreases toks.len() - i,
{
    let ghost ts = token_views(toks@).skip(i as int);
    assert(ts.len() == toks.len() - i);
    if i == toks.len() {
        return Ok(value);
    }
    let tok = &toks[i];
    assert(ts[0] == tok@);
    assert(ts.drop_first() == token_views(toks@).skip(i + 1));
    if i + 1 == toks.len() {
        return set_final(node, tok, value);
    }
    match node {
        Json::Object(mut es) => {
            let ghost before = jv_entries(es@);
            let (p, found) = obj_find(&es, tok.as_str());
            proof {
                lemma_obj_pos(before, tok@);
            }
            let child = if found {
                let (_, c) = es.remove(p);
                c
            } else {
                let empty: Vec<(String, Json)> = Vec::new();
                assert(jv_entries(empty@) == Seq::<(Seq<char>, JV)>::empty());
                Json::Object(empty)
            };
            let c2 = set_at(child, toks, i + 1, value)?;
            es.insert(p, (tok.clone(), c2));
            assert(jv_entries(es@) =~= obj_insert(before, tok@, c2@));
            Ok(Json::Object(es))
        },
        Json::Array(mut items) => {
            let ghost before = jv_seq(items@);
            match array_index(tok.as_str()) {
                Some(k) => {
                    if k < items.len() {
                        let child = items.remove(k);
                        let c2 = set_at(child, toks, i + 1, value)?;
                        items.insert(k, c2);
                        assert(jv_seq(items@) =~= before.update(k as int, c2@));
                        Ok(Json::Array(items))
                    } else {
                        Err(Error::new(ErrorCode::Path, concat3("array index \"", tok.as_str(), "\" does not exist")))
                    }
                },
                None => Err(Error::new(ErrorCode::Path, concat3("array index \"", tok.as_str(), "\" does not exist"))),
            }
        },
        _ => Err(Error::new(ErrorCode::Path, concat3("cannot descend into a scalar at \"", tok.as_str(), "\""))),
    }
}

/// Applies a `set` edit to `root`: missing parents are created
/// as objects, array steps must exist, and the final token may append with
/// the index equal to the length or `-`. Any failure is `E_PATH`.
pub fn set(root: Json, pointer: &str, value: Json) -> (r: Result<Json, Error>)
    ensures
        r is Ok <==> (pointer_tokens(pointer@) is Some && set_spec(root@, pointer_tokens(pointer@).unwrap(), value@) is Some),
        r matches Ok(j) ==> j@ == set_spec(root@, pointer_tokens(pointer@).unwrap(), value@).unwrap(),
        r matches Err(e) ==> e.spec_code() == ErrorCode::Path,
{
    let toks = parse(pointer)?;
    assert(token_views(toks@).skip(0) == token_views(toks@));
    set_at(root, &toks, 0, value)
}

fn remove_final(node: Json, tok: &String) -> (r: Result<Json, Error>)
    ensures
        r is Ok <==> remove_last(node@, tok@) is Some,
        r matches Ok(j) ==> j@ == remove_last(node@, tok@).unwrap(),
        r matches Err(e) ==> e.spec_code() == ErrorCode::Path,
{
    match node {
        Json::Object(mut es) => {
            let (p, found) = obj_find(&es, tok.as_str());
            let ghost before = jv_entries(es@);
            proof {
                lemma_obj_pos(before, tok@);
            }
            if found {
                es.remove(p);
                assert(jv_entries(es@) =~= before.remove(p as int));
                Ok(Json::Object(es))
            } else {
                Err(Error::new(ErrorCode::Path, concat3("no member \"", tok.as_str(), "\" to remove")))
            }
        },
        Json::Array(mut items) => {
            let ghost before = jv_seq(items@);
            match array_index(tok.as_str()) {
                Some(k) => {
                    if k < items.len() {
                        items.remove(k);
                        assert(jv_seq(items@) =~= before.remove(k as int));
                        Ok(Json::Array(items))
                    } else {
                        Err(Error::new(ErrorCode::Path, concat3("array index \"", tok.as_str(), "\" does not exist")))
                    }
                },
                None => Err(Error::new(ErrorCode::Path, concat3("array index \"", tok.as_str(), "\" does not exist"))),
            }
        },
        _ => Err(Error::new(ErrorCode::Path, owned("cannot remove a member of a scalar"))),
    }
}

fn remove_at(node: Json, toks: &Vec<String>, i: usize) -> (r: Result<Json, Error>)
    requires
        i < toks.len(),
    ensures
        r is Ok <==> remove_spec(node@, token_views(toks@).skip(i as int)) is Some,
        r matches Ok(j) ==> j@ == remove_spec(node@, token_views(toks@).skip(i as int)).unwrap(),
        r matches Err(e) ==> e.spec_code() == ErrorCode::Path,
    decreases toks.len() - i,
{
    let ghost ts = token_views(toks@).skip(i as int);
    assert(ts.len() == toks.len() - i);
    let tok = &toks[i];
    assert(ts[0] == tok@);
    assert(ts.drop_first() == token_views(toks@).skip(i + 1));
    if i + 1 == toks.len() {
        return remove_final(node, tok);
    }
    match node {
        Json::Object(mut es) => {
            let ghost before = jv_entries(es@);
            let (p, found) = obj_find(&es, tok.as_str());
            proof {
                lemma_obj_pos(before, tok@);
            }
            if !found {
                return Err(Error::new(ErrorCode::Path, concat3("no member \"", tok.as_str(), "\"")));
            }
            let (_, child) = es.remove(p);
            let c2 = remove_at(child, toks, i + 1)?;
            es.insert(p, (tok.clone(), c2));
            assert(jv_entries(es@) =~= obj_insert(before, tok@, c2@));
            Ok(Json::Object(es))
        },
        Json::Array(mut items) => {
            let ghost before = jv_seq(items@);
            match array_index(tok.as_str()) {
                Some(k) => {
                    if k < items.len() {
                        let child = items.remove(k);
                        let c2 = remove_at(child, toks, i + 1)?;
                        items.insert(k, c2);
                        assert(jv_seq(items@) =~= before.update(k as int, c2@));
                        Ok(Json::Array(items))
                    } else {
                        Err(Error::new(ErrorCode::Path, concat3("array index \"", tok.as_str(), "\" does not exist")))
                    }
                },
                None => Err(Error::new(ErrorCode::Path, concat3("array index \"", tok.as_str(), "\" does not exist"))),
            }
        },
        _ => Err(Error::new(ErrorCode::Path, concat3("cannot descend into a scalar at \"", tok.as_str(), "\""))),
    }
}

/// Applies a `remove` edit to `root`: every step must exist,
/// the root cannot be removed, and array elements shift down. Any failure is
/// `E_PATH`.
pub fn remove(root: Json, pointer: &str) -> (r: Result<Json, Error>)
    ensures
        r is Ok <==> (pointer_tokens(pointer@) is Some && remove_spec(root@, pointer_tokens(pointer@).unwrap()) is Some),
        r matches Ok(j) ==> j@ == remove_spec(root@, pointer_tokens(pointer@).unwrap()).unwrap(),
        r matches Err(e) ==> e.spec_code() == ErrorCode::Path,
{
    let toks = parse(pointer)?;
    if toks.len() == 0 {
        return Err(Error::new(ErrorCode::Path, owned("the root value cannot be removed")));
    }
    assert(token_views(toks@).skip(0) == token_views(toks@));
    remove_at(root, &toks, 0)
}

} // verus!

verus! {

/// Law: after a `set` succeeds, the same pointer reads back the
/// value that was set. The one exception is a final `-` on an array, which
/// appends and so names no element afterwards.
pub proof fn law_set_then_get(v: JV, toks: Seq<Seq<char>>, x: JV)
    requires
        jv_wf(v),
        set_spec(v, toks, x) is Some,
        !(toks.len() > 0 && toks.last() == seq!['-'] && get_spec(v, toks.drop_last()) matches Some(JV::Arr(_))),
    ensures
        get_spec(set_spec(v, toks, x).unwrap(), toks) == Some(x),
    decreases toks.len(),
{
    if toks.len() == 0 {
    } else if toks.len() == 1 {
        assert(toks.drop_last() == Seq::<Seq<char>>::empty());
        assert(toks.drop_first() == Seq::<Seq<char>>::empty());
        match v {
            JV::Obj(es) => {
                lemma_obj_insert_sorted(es, toks[0], x);
                assert(get_spec(x, toks.drop_first()) == Some(x));
            },
            JV::Arr(items) => {
                assert(toks.last() == toks[0]);
                assert(get_spec(x, toks.drop_first()) == Some(x));
                assert(get_spec(set_spec(v, toks, x).unwrap(), toks) == Some(x));
            },
            _ => {},
        }
    } else {
        let rest = toks.drop_first();
        assert(toks.drop_last().drop_first() == rest.drop_last());
        assert(toks.drop_last()[0] == toks[0]);
        assert(rest.last() == toks.last());
        match v {
            JV::Obj(es) => {
                lemma_obj_pos(es, toks[0]);
                let child = match obj_get(es, toks[0]) {
                    Some(c) => c,
                    None => JV::Obj(Seq::empty()),
                };
                if obj_get(es, toks[0]) is None {
                    if rest.drop_last().len() > 0 {
                        lemma_obj_pos(Seq::<(Seq<char>, JV)>::empty(), rest.drop_last()[0]);
                    }
                }
                law_set_then_get(child, rest, x);
                let c2 = set_spec(child, rest, x).unwrap();
                lemma_obj_insert_sorted(es, toks[0], c2);
                assert(set_spec(v, toks, x).unwrap() == JV::Obj(obj_insert(es, toks[0], c2)));
                assert(get_spec(c2, rest) == Some(x));
            },
            JV::Arr(items) => {
                let i = array_index_spec(toks[0]).unwrap();
                law_set_then_get(items[i as int], rest, x);
                let c2 = set_spec(items[i as int], rest, x).unwrap();
                assert(set_spec(v, toks, x).unwrap() == JV::Arr(items.update(i as int, c2)));
            },
            _ => {},
        }
    }
}

/// Every member value of `obj_insert(es, k, x)` is `x` or a member value of
/// `es`.
proof fn lemma_insert_values_wf(es: Entries, k: Seq<char>, x: JV)
    requires
        forall|i: int| 0 <= i < es.len() ==> jv_wf(#[trigger] es[i].1),
        jv_wf(x),
    ensures
        forall|i: int| 0 <= i < obj_insert(es, k, x).len() ==> jv_wf(#[trigger] obj_insert(es, k, x)[i].1),
{
    lemma_obj_pos(es, k);
    let p = obj_pos(es, k);
    let r = obj_insert(es, k, x);
    assert forall|i: int| 0 <= i < r.len() implies jv_wf(#[trigger] r[i].1) by {
        if p < es.len() && es[p].0 == k {
            if i != p {
                assert(r[i] == es[i]);
            }
        } else if i < p {
            assert(r[i] == es[i]);
        } else if i > p {
            assert(r[i] == es[i - 1]);
        }
    }
}

/// Law: a `set` of a well-formed value into a well-formed tree leaves every
/// object of the tree sorted by key, each key once.
pub proof fn law_set_keeps_objects_sorted(v: JV, toks: Seq<Seq<char>>, x: JV)
    requires
        jv_wf(v),
        jv_wf(x),
        set_spec(v, toks, x) is Some,
    ensures
        jv_wf(set_spec(v, toks, x).unwrap()),
    decreases toks.len(),
{
    if toks.len() == 0 {
    } else if toks.len() == 1 {
        match v {
            JV::Obj(es) => {
                lemma_obj_insert_sorted(es, toks[0], x);
                lemma_insert_values_wf(es, toks[0], x);
            },
            JV::Arr(items) => {
                let r = set_spec(v, toks, x).unwrap()->Arr_0;
                assert forall|i: int| 0 <= i < r.len() implies jv_wf(#[trigger] r[i]) by {
                    if i < items.len() && r[i] != x {
                        assert(r[i] == items[i]);
                    }
                }
            },
            _ => {},
        }
    } else {
        let rest = toks.drop_first();
        match v {
            JV::Obj(es) => {
                lemma_obj_pos(es, toks[0]);
                let child = match obj_get(es, toks[0]) {
                    Some(c) => c,
                    None => JV::Obj(Seq::empty()),
                };
                law_set_keeps_objects_sorted(child, rest, x);
                let c2 = set_spec(child, rest, x).unwrap();
                lemma_obj_insert_sorted(es, toks[0], c2);
                lemma_insert_values_wf(es, toks[0], c2);
            },
            JV::Arr(items) => {
                let i = array_index_spec(toks[0]).unwrap();
                law_set_keeps_objects_sorted(items[i as int], rest, x);
                let c2 = set_spec(items[i as int], rest, x).unwrap();
                let r = items.update(i as int, c2);
                assert forall|j: int| 0 <= j < r.len() implies jv_wf(#[trigger] r[j]) by {
                    if j != i {
                        assert(r[j] == items[j]);
                    }
                }
            },
            _ => {},
        }
    }
}

/// Law: a `remove` from a well-formed tree leaves every object of the tree
/// sorted by key, each key once.
pub proof fn law_remove_keeps_objects_sorted(v: JV, toks: Seq<Seq<char>>)
    requires
        jv_wf(v),
        remove_spec(v, toks) is Some,
    ensures
        jv_wf(remove_spec(v, toks).unwrap()),
    decreases toks.len(),
{
    if toks.len() == 1 {
        match v {
            JV::Obj(es) => {
                lemma_obj_remove_sorted(es, toks[0]);
                lemma_obj_pos(es, toks[0]);
                let p = obj_pos(es, toks[0]);
                let r = es.remove(p);
                assert forall|i: int| 0 <= i < r.len() implies jv_wf(#[trigger] r[i].1) by {
                    if i < p {
                        assert(r[i] == es[i]);
                    } else {
                        assert(r[i] == es[i + 1]);
                    }
                }
            },
            JV::Arr(items) => {
                let k = array_index_spec(toks[0]).unwrap();
                let r = items.remove(k as int);
                assert forall|i: int| 0 <= i < r.len() implies jv_wf(#[trigger] r[i]) by {
                    if i < k {
                        assert(r[i] == items[i]);
                    } else {
                        assert(r[i] == items[i + 1]);
                    }
                }
            },
            _ => {},
        }
    } else if toks.len() > 1 {
        let rest = toks.drop_first();
        match v {
            JV::Obj(es) => {
                lemma_obj_pos(es, toks[0]);
                let c = obj_get(es, toks[0]).unwrap();
                law_remove_keeps_objects_sorted(c, rest);
                let c2 = remove_spec(c, rest).unwrap();
                lemma_obj_insert_sorted(es, toks[0], c2);
                lemma_insert_values_wf(es, toks[0], c2);
            },
            JV::Arr(items) => {
                let i = array_index_spec(toks[0]).unwrap();
                law_remove_keeps_objects_sorted(items[i as int], rest);
                let c2 = remove_spec(items[i as int], rest).unwrap();
                let r = items.update(i as int, c2);
                assert forall|j: int| 0 <= j < r.len() implies jv_wf(#[trigger] r[j]) by {
                    if j != i {
                        assert(r[j] == items[j]);
                    }
                }
            },
            _ => {},
        }
    }
}

/// In sorted members, setting one key leaves every other key's value as it
/// was.
proof fn lemma_obj_insert_other(es: Entries, k: Seq<char>, x: JV, k2: Seq<char>)
    requires
        keys_sorted(es),
        k2 != k,
    ensures
        obj_get(obj_insert(es, k, x), k2) == obj_get(es, k2),
{
    lemma_obj_pos(es, k);
    lemma_obj_insert_sorted(es, k, x);
    lemma_obj_pos(es, k2);
    let p = obj_pos(es, k);
    let r = obj_insert(es, k, x);
    let replaced = p < es.len() && es[p].0 == k;
    lemma_obj_pos(r, k2);
    let m = obj_pos(es, k2);
    if m < es.len() && es[m].0 == k2 {
        let m2 = if replaced || m < p { m } else { m + 1 };
        assert(r[m2] == es[m]);
        lemma_obj_get_at(r, m2);
    } else {
        let q = obj_pos(r, k2);
        if q < r.len() && r[q].0 == k2 {
            let q2 = if replaced || q < p { q } else { q - 1 };
            assert(es[q2] == r[q]);
            lemma_obj_get_at(es, q2);
        }
    }
}

/// In well-formed members, a value found under a key is well formed.
proof fn lemma_obj_get_wf(es: Entries, k: Seq<char>)
    requires
        forall|i: int| 0 <= i < es.len() ==> jv_wf(#[trigger] es[i].1),
    ensures
        obj_get(es, k) matches Some(c) ==> jv_wf(c),
{
    lemma_obj_pos(es, k);
    if obj_get(es, k) is Some {
        assert(jv_wf(es[obj_pos(es, k)].1));
    }
}

/// Law: a `set` changes nothing but the value it sets. Any
/// existing value whose pointer parts from the set's pointer (after a
/// common prefix, the two name different members or elements) is still
/// there, unchanged.
pub proof fn law_set_leaves_other_values(v: JV, p: Seq<Seq<char>>, q: Seq<Seq<char>>, x: JV, i: int)
    requires
        jv_wf(v),
        0 <= i < p.len(),
        i < q.len(),
        p.take(i) == q.take(i),
        p[i] != q[i],
        set_spec(v, p, x) is Some,
        get_spec(v, q) is Some,
    ensures
        get_spec(set_spec(v, p, x).unwrap(), q) == get_spec(v, q),
    decreases i,
{
    let r = set_spec(v, p, x).unwrap();
    if i == 0 {
        match v {
            JV::Obj(es) => {
                let c2 = if p.len() == 1 {
                    x
                } else {
                    set_spec(
                        match obj_get(es, p[0]) {
                            Some(c) => c,
                            None => JV::Obj(Seq::empty()),
                        },
                        p.drop_first(),
                        x,
                    ).unwrap()
                };
                assert(r == JV::Obj(obj_insert(es, p[0], c2)));
                lemma_obj_insert_other(es, p[0], c2, q[0]);
            },
            JV::Arr(items) => {
                let k = array_index_spec(q[0]).unwrap();
                if p[0] == seq!['-'] {
                    assert(r == JV::Arr(items.push(x)));
                    assert(items.push(x)[k as int] == items[k as int]);
                } else {
                    let j = array_index_spec(p[0]).unwrap();
                    if j == k {
                        lemma_index_injective(p[0], q[0]);
                    }
                    if p.len() == 1 && j == items.len() {
                        assert(items.push(x)[k as int] == items[k as int]);
                    } else {
                        let c2 = if p.len() == 1 {
                            x
                        } else {
                            set_spec(items[j as int], p.drop_first(), x).unwrap()
                        };
                        assert(r == JV::Arr(items.update(j as int, c2)));
                        assert(items.update(j as int, c2)[k as int] == items[k as int]);
                    }
                }
            },
            _ => {},
        }
    } else {
        assert(p[0] == p.take(i)[0] && q[0] == q.take(i)[0]);
        let pt = p.drop_first().take(i - 1);
        let qt = q.drop_first().take(i - 1);
        assert(pt =~= qt) by {
            assert forall|n: int| 0 <= n < i - 1 implies #[trigger] pt[n] == qt[n] by {
                assert(p.take(i)[n + 1] == q.take(i)[n + 1]);
            }
        }
        match v {
            JV::Obj(es) => {
                let c = obj_get(es, p[0]).unwrap();
                lemma_obj_get_wf(es, p[0]);
                law_set_leaves_other_values(c, p.drop_first(), q.drop_first(), x, i - 1);
                let c2 = set_spec(c, p.drop_first(), x).unwrap();
                lemma_obj_insert_sorted(es, p[0], c2);
            },
            JV::Arr(items) => {
                let j = array_index_spec(p[0]).unwrap();
                law_set_leaves_other_values(items[j as int], p.drop_first(), q.drop_first(), x, i - 1);
            },
            _ => {},
        }
    }
}

/// In sorted members, removing one key leaves every other key's value as it
/// was.
proof fn lemma_obj_remove_other(es: Entries, k: Seq<char>, k2: Seq<char>)
    requires
        keys_sorted(es),
        obj_remove(es, k) is Some,
        k2 != k,
    ensures
        obj_get(obj_remove(es, k).unwrap(), k2) == obj_get(es, k2),
{
    lemma_obj_pos(es, k);
    lemma_obj_remove_sorted(es, k);
    lemma_obj_pos(es, k2);
    let p = obj_pos(es, k);
    let r = obj_remove(es, k).unwrap();
    lemma_obj_pos(r, k2);
    let m = obj_pos(es, k2);
    if m < es.len() && es[m].0 == k2 {
        let m2 = if m < p { m } else { m - 1 };
        assert(r[m2] == es[m]);
        lemma_obj_get_at(r, m2);
    } else {
        let q = obj_pos(r, k2);
        if q < r.len() && r[q].0 == k2 {
            let q2 = if q < p { q } else { q + 1 };
            assert(es[q2] == r[q]);
            lemma_obj_get_at(es, q2);
        }
    }
}

/// Law: a `remove` deletes the one member or element it names
/// and changes nothing else, except that the later elements of the array it
/// removes from shift down by one. Any existing value whose pointer parts
/// from the removed pointer is still there, unchanged, unless it is such a
/// later element (or inside one).
pub proof fn law_remove_leaves_other_values(v: JV, p: Seq<Seq<char>>, q: Seq<Seq<char>>, i: int)
    requires
        jv_wf(v),
        0 <= i < p.len(),
        i < q.len(),
        p.take(i) == q.take(i),
        p[i] != q[i],
        remove_spec(v, p) is Some,
        get_spec(v, q) is Some,
        !(i == p.len() - 1 && get_spec(v, p.take(i)) is Some && get_spec(v, p.take(i)).unwrap() is Arr
            && array_index_spec(p[i]).unwrap() < array_index_spec(q[i]).unwrap()),
    ensures
        get_spec(remove_spec(v, p).unwrap(), q) == get_spec(v, q),
    decreases i,
{
    let r = remove_spec(v, p).unwrap();
    if i == 0 {
        assert(p.take(0) =~= Seq::<Seq<char>>::empty());
        match v {
            JV::Obj(es) => {
                if p.len() == 1 {
                    lemma_obj_remove_other(es, p[0], q[0]);
                } else {
                    let c2 = remove_spec(obj_get(es, p[0]).unwrap(), p.drop_first()).unwrap();
                    lemma_obj_insert_other(es, p[0], c2, q[0]);
                }
            },
            JV::Arr(items) => {
                let k = array_index_spec(q[0]).unwrap();
                let j = array_index_spec(p[0]).unwrap();
                if j == k {
                    lemma_index_injective(p[0], q[0]);
                }
                if p.len() == 1 {
                    assert(k < j);
                    assert(items.remove(j as int)[k as int] == items[k as int]);
                } else {
                    let c2 = remove_spec(items[j as int], p.drop_first()).unwrap();
                    assert(items.update(j as int, c2)[k as int] == items[k as int]);
                }
            },
            _ => {},
        }
    } else {
        assert(p[0] == p.take(i)[0] && q[0] == q.take(i)[0]);
        let pt = p.drop_first().take(i - 1);
        let qt = q.drop_first().take(i - 1);
        assert(pt =~= qt) by {
            assert forall|n: int| 0 <= n < i - 1 implies #[trigger] pt[n] == qt[n] by {
                assert(p.take(i)[n + 1] == q.take(i)[n + 1]);
            }
        }
        assert(p.drop_first().take(i - 1) =~= p.take(i).drop_first());
        match v {
            JV::Obj(es) => {
                let c = obj_get(es, p[0]).unwrap();
                lemma_obj_get_wf(es, p[0]);
                assert(get_spec(v, p.take(i)) == get_spec(c, p.drop_first().take(i - 1)));
                law_remove_leaves_other_values(c, p.drop_first(), q.drop_first(), i - 1);
                let c2 = remove_spec(c, p.drop_first()).unwrap();
                lemma_obj_insert_sorted(es, p[0], c2);
            },
            JV::Arr(items) => {
                let j = array_index_spec(p[0]).unwrap();
                assert(get_spec(v, p.take(i)) == get_spec(items[j as int], p.drop_first().take(i - 1)));
                law_remove_leaves_other_values(items[j as int], p.drop_first(), q.drop_first(), i - 1);
            },
            _ => {},
        }
    }
}

/// Law: a `remove` undoes a `set` that added a new member. When the
/// pointer's parent is an object without the pointer's last token, the
/// `set` succeeds, and removing the same pointer afterwards gives back the
/// value as it was.
pub proof fn law_remove_undoes_new_member(v: JV, toks: Seq<Seq<char>>, x: JV)
    requires
        jv_wf(v),
        toks.len() > 0,
        get_spec(v, toks.drop_last()) is Some,
        get_spec(v, toks.drop_last()).unwrap() is Obj,
        obj_get(get_spec(v, toks.drop_last()).unwrap()->Obj_0, toks.last()) is None,
    ensures
        set_spec(v, toks, x) is Some,
        remove_spec(set_spec(v, toks, x).unwrap(), toks) == Some(v),
    decreases toks.len(),
{
    let t = toks[0];
    if toks.len() == 1 {
        assert(toks.drop_last() =~= Seq::<Seq<char>>::empty());
        assert(toks.last() == t);
        let es = v->Obj_0;
        lemma_obj_pos(es, t);
        let p = obj_pos(es, t);
        lemma_obj_insert_sorted(es, t, x);
        let r = obj_insert(es, t, x);
        assert(r == es.insert(p, (t, x)));
        assert(r[p] == (t, x));
        lemma_obj_get_at(r, p);
        assert(r.remove(p) =~= es);
    } else {
        let rest = toks.drop_first();
        let pre = toks.drop_last();
        assert(pre[0] == t);
        assert(pre.drop_first() =~= rest.drop_last());
        assert(rest.last() == toks.last());
        match v {
            JV::Obj(es) => {
                let c = obj_get(es, t).unwrap();
                lemma_obj_get_wf(es, t);
                law_remove_undoes_new_member(c, rest, x);
                let c2 = set_spec(c, rest, x).unwrap();
                lemma_obj_pos(es, t);
                let p = obj_pos(es, t);
                lemma_obj_insert_sorted(es, t, c2);
                let r1 = obj_insert(es, t, c2);
                assert(r1 == es.update(p, (t, c2)));
                assert(r1[p] == (t, c2));
                lemma_obj_get_at(r1, p);
                assert(obj_insert(r1, t, c) =~= es);
            },
            JV::Arr(items) => {
                let i = array_index_spec(t).unwrap();
                law_remove_undoes_new_member(items[i as int], rest, x);
                let c2 = set_spec(items[i as int], rest, x).unwrap();
                assert(items.update(i as int, c2).update(i as int, items[i as int]) =~= items);
            },
            _ => {},
        }
    }
}

/// Escaping never writes a `/`.
pub(crate) proof fn lemma_escape_no_slash(t: Seq<char>)
    ensures
        forall|i: int| 0 <= i < escape_spec(t).len() ==> escape_spec(t)[i] != '/',
    decreases t.len(),
{
    if t.len() > 0 {
        lemma_escape_no_slash(t.drop_first());
        let rest = escape_spec(t.drop_first());
        let e = escape_spec(t);
        assert forall|i: int| 0 <= i < e.len() implies e[i] != '/' by {
            if t[0] == '~' || t[0] == '/' {
                if i >= 2 {
                    assert(e[i] == rest[i - 2]);
                }
            } else if i >= 1 {
                assert(e[i] == rest[i - 1]);
            }
        }
    }
}

/// Unescaping undoes escaping.
pub(crate) proof fn lemma_unescape_escape(t: Seq<char>)
    ensures
        unescape_spec(escape_spec(t)) == Some(t),
    decreases t.len(),
{
    if t.len() > 0 {
        lemma_unescape_escape(t.drop_first());
        let rest = escape_spec(t.drop_first());
        let e = escape_spec(t);
        if t[0] == '~' || t[0] == '/' {
            assert(e.skip(2) =~= rest);
        } else {
            assert(e.drop_first() =~= rest);
        }
        assert(seq![t[0]] + t.drop_first() =~= t);
    } else {
        assert(escape_spec(t) =~= Seq::<char>::empty());
    }
}

/// Each token escaped.
pub open spec fn escaped_all(toks: Seq<Seq<char>>) -> Seq<Seq<char>>
    decreases toks.len(),
{
    if toks.len() == 0 {
        Seq::empty()
    } else {
        seq![escape_spec(toks[0])] + escaped_all(toks.drop_first())
    }
}

/// Text without a `/` joins the piece being split.
proof fn lemma_split_piece(a: Seq<char>, s: Seq<char>, cur: Seq<char>)
    requires
        forall|i: int| 0 <= i < a.len() ==> a[i] != '/',
    ensures
        split_from(a + s, cur) == split_from(s, cur + a),
    decreases a.len(),
{
    if a.len() == 0 {
        assert(a + s =~= s);
        assert(cur + a =~= cur);
    } else {
        assert((a + s)[0] == a[0]);
        assert((a + s).drop_first() =~= a.drop_first() + s);
        lemma_split_piece(a.drop_first(), s, cur.push(a[0]));
        assert(cur.push(a[0]) + a.drop_first() =~= cur + a);
    }
}

proof fn lemma_split_pointer(toks: Seq<Seq<char>>)
    requires
        toks.len() > 0,
    ensures
        split_slash(pointer_of(toks).drop_first()) == escaped_all(toks),
    decreases toks.len(),
{
    let rest = toks.drop_first();
    let e = escape_spec(toks[0]);
    assert(pointer_of(toks).drop_first() =~= e + pointer_of(rest));
    lemma_escape_no_slash(toks[0]);
    lemma_split_piece(e, pointer_of(rest), Seq::empty());
    assert(Seq::<char>::empty() + e =~= e);
    if rest.len() == 0 {
        assert(pointer_of(rest) =~= Seq::<char>::empty());
        assert(escaped_all(rest) =~= Seq::<Seq<char>>::empty());
        assert(escaped_all(toks) =~= seq![e]);
    } else {
        assert(pointer_of(rest)[0] == '/');
        lemma_split_pointer(rest);
    }
}

proof fn lemma_unescape_escaped(toks: Seq<Seq<char>>)
    ensures
        unescape_all(escaped_all(toks)) == Some(toks),
    decreases toks.len(),
{
    if toks.len() > 0 {
        let ea = escaped_all(toks);
        assert(ea[0] == escape_spec(toks[0]));
        assert(ea.drop_first() =~= escaped_all(toks.drop_first()));
        lemma_unescape_escape(toks[0]);
        lemma_unescape_escaped(toks.drop_first());
        assert(seq![toks[0]] + toks.drop_first() =~= toks);
    } else {
        assert(escaped_all(toks) =~= Seq::<Seq<char>>::empty());
        assert(toks =~= Seq::<Seq<char>>::empty());
    }
}

/// Law: parsing a pointer built from escaped tokens gives the tokens back,
/// whatever they hold (`~` and `/` included); the empty list is the root
/// pointer `""`.
pub proof fn law_parse_escaped_tokens(toks: Seq<Seq<char>>)
    ensures
        pointer_tokens(pointer_of(toks)) == Some(toks),
{
    if toks.len() == 0 {
        assert(pointer_of(toks) =~= Seq::<char>::empty());
        assert(toks =~= Seq::<Seq<char>>::empty());
    } else {
        assert(pointer_of(toks)[0] == '/');
        lemma_split_pointer(toks);
        lemma_unescape_escaped(toks);
    }
}

} // verus!
