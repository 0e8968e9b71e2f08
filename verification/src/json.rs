//! The JSON-equivalent data model every document is parsed into,
//! with its mathematical view.

use vstd::prelude::*;

use crate::text::{key_less, key_lt, lemma_key_lt_irreflexive, lemma_key_lt_total, lemma_key_lt_transitive, same_text};

verus! {

/// A number of the data model.
#[derive(Debug, Clone, PartialEq)]
pub enum Number {
    /// An integer that fits an `i64`.
    Int(i64),
    /// An integer above `i64::MAX`.
    UInt(u64),
    /// Any other finite number, by the shortest decimal text (no exponent)
    /// that reads back as the same double, as Rust writes an `f64`.
    Float(String),
}

/// The view of a [`Number`]: integers by value, other numbers by their text.
pub enum NumV {
    /// An integer.
    Int(int),
    /// A non-integer (or out-of-range integral) finite number, by its text.
    Float(Seq<char>),
}

/// A value of the data model: `null`, boolean, number, string, array, or
/// object with string keys. An object holds its members sorted by key, by
/// code point, each key once.
#[derive(Debug, PartialEq)]
pub enum Json {
    /// `null`.
    Null,
    /// A boolean.
    Bool(bool),
    /// A number.
    Number(Number),
    /// A string.
    Str(String),
    /// An array.
    Array(Vec<Json>),
    /// An object: its members in key order.
    Object(Vec<(String, Json)>),
}

/// The mathematical view of a [`Json`] value.
pub enum JV {
    /// `null`.
    Null,
    /// A boolean.
    Bool(bool),
    /// A number.
    Num(NumV),
    /// A string.
    Str(Seq<char>),
    /// An array.
    Arr(Seq<JV>),
    /// An object: key/value pairs in the order held.
    Obj(Seq<(Seq<char>, JV)>),
}

impl View for Number {
    type V = NumV;

    open spec fn view(&self) -> NumV {
        match self {
            Number::Int(i) => NumV::Int(*i as int),
            Number::UInt(u) => NumV::Int(*u as int),
            Number::Float(s) => NumV::Float(s@),
        }
    }
}

/// The view of one value.
pub open spec fn jv_of(j: Json) -> JV
    decreases j,
{
    match j {
        Json::Null => JV::Null,
        Json::Bool(b) => JV::Bool(b),
        Json::Number(n) => JV::Num(n@),
        Json::Str(s) => JV::Str(s@),
        Json::Array(items) => JV::Arr(jv_seq(items@)),
        Json::Object(entries) => JV::Obj(jv_entries(entries@)),
    }
}

/// The view of a sequence of values, element by element.
pub open spec fn jv_seq(s: Seq<Json>) -> Seq<JV>
    decreases s,
{
    if s.len() == 0 {
        Seq::empty()
    } else {
        jv_seq(s.drop_last()).push(jv_of(s.last()))
    }
}

/// The view of a sequence of object members, member by member.
pub open spec fn jv_entries(s: Seq<(String, Json)>) -> Seq<(Seq<char>, JV)>
    decreases s,
{
    if s.len() == 0 {
        Seq::empty()
    } else {
        jv_entries(s.drop_last()).push((s.last().0@, jv_of(s.last().1)))
    }
}

impl View for Json {
    type V = JV;

    open spec fn view(&self) -> JV {
        jv_of(*self)
    }
}

/// `jv_seq` maps element by element.
pub broadcast proof fn lemma_jv_seq(s: Seq<Json>)
    ensures
        #[trigger] jv_seq(s).len() == s.len(),
        forall|i: int| 0 <= i < s.len() ==> #[trigger] jv_seq(s)[i] == jv_of(s[i]),
    decreases s.len(),
{
    if s.len() > 0 {
        lemma_jv_seq(s.drop_last());
    }
}

/// `jv_entries` maps member by member.
pub broadcast proof fn lemma_jv_entries(s: Seq<(String, Json)>)
    ensures
        #[trigger] jv_entries(s).len() == s.len(),
        forall|i: int|
            0 <= i < s.len() ==> #[trigger] jv_entries(s)[i] == (s[i].0@, jv_of(s[i].1)),
    decreases s.len(),
{
    if s.len() > 0 {
        lemma_jv_entries(s.drop_last());
    }
}

} // verus!

verus! {

/// The members of an object view, by key.
pub type Entries = Seq<(Seq<char>, JV)>;

/// Where `k` sits among the members: the number of leading members whose
/// keys sort before it.
pub open spec fn obj_pos(es: Entries, k: Seq<char>) -> int
    decreases es.len(),
{
    if es.len() == 0 {
        0
    } else if key_lt(es[0].0, k) {
        1 + obj_pos(es.drop_first(), k)
    } else {
        0
    }
}

/// The members are sorted strictly by key, so each key occurs once.
pub open spec fn keys_sorted(es: Entries) -> bool {
    forall|i: int, j: int| 0 <= i < j < es.len() ==> key_lt(#[trigger] es[i].0, #[trigger] es[j].0)
}

/// The member value stored under `k`, if any.
pub open spec fn obj_get(es: Entries, k: Seq<char>) -> Option<JV> {
    let p = obj_pos(es, k);
    if p < es.len() && es[p].0 == k {
        Some(es[p].1)
    } else {
        None
    }
}

/// The members with `k` set to `v`: replaced in place when present,
/// otherwise inserted where it sorts.
pub open spec fn obj_insert(es: Entries, k: Seq<char>, v: JV) -> Entries {
    let p = obj_pos(es, k);
    if p < es.len() && es[p].0 == k {
        es.update(p, (k, v))
    } else {
        es.insert(p, (k, v))
    }
}

/// The members without `k`; `None` when `k` is absent.
pub open spec fn obj_remove(es: Entries, k: Seq<char>) -> Option<Entries> {
    let p = obj_pos(es, k);
    if p < es.len() && es[p].0 == k {
        Some(es.remove(p))
    } else {
        None
    }
}

/// `obj_pos` is the boundary between the keys below `k` and the rest.
pub proof fn lemma_obj_pos(es: Entries, k: Seq<char>)
    ensures
        0 <= obj_pos(es, k) <= es.len(),
        forall|j: int| 0 <= j < obj_pos(es, k) ==> key_lt(#[trigger] es[j].0, k),
        obj_pos(es, k) < es.len() ==> !key_lt(es[obj_pos(es, k)].0, k),
    decreases es.len(),
{
    if es.len() > 0 && key_lt(es[0].0, k) {
        lemma_obj_pos(es.drop_first(), k);
        assert forall|j: int| 0 <= j < obj_pos(es, k) implies key_lt(#[trigger] es[j].0, k) by {
            if j > 0 {
                assert(es[j] == es.drop_first()[j - 1]);
            }
        }
    }
}

/// In sorted members, a key found at any index is the one `obj_get` finds.
pub proof fn lemma_obj_get_at(es: Entries, i: int)
    requires
        keys_sorted(es),
        0 <= i < es.len(),
    ensures
        obj_pos(es, es[i].0) == i,
        obj_get(es, es[i].0) == Some(es[i].1),
{
    let k = es[i].0;
    lemma_obj_pos(es, k);
    let p = obj_pos(es, k);
    if p < i {
        assert(key_lt(es[p].0, es[i].0));
    } else if p > i {
        assert(key_lt(es[i].0, k));
        lemma_key_lt_irreflexive(k);
    }
}

/// Setting a member keeps the members sorted.
pub proof fn lemma_obj_insert_sorted(es: Entries, k: Seq<char>, v: JV)
    requires
        keys_sorted(es),
    ensures
        keys_sorted(obj_insert(es, k, v)),
        obj_get(obj_insert(es, k, v), k) == Some(v),
{
    lemma_obj_pos(es, k);
    let p = obj_pos(es, k);
    let r = obj_insert(es, k, v);
    if p < es.len() && es[p].0 == k {
        assert forall|i: int, j: int| 0 <= i < j < r.len() implies key_lt(
            #[trigger] r[i].0,
            #[trigger] r[j].0,
        ) by {
            assert(es[i].0 == r[i].0 && es[j].0 == r[j].0);
        }
        lemma_obj_get_at(r, p);
    } else {
        assert forall|i: int, j: int| 0 <= i < j < r.len() implies key_lt(
            #[trigger] r[i].0,
            #[trigger] r[j].0,
        ) by {
            if j < p {
                assert(r[i] == es[i] && r[j] == es[j]);
            } else if j == p {
                assert(r[i] == es[i]);
            } else if i < p {
                assert(r[i] == es[i] && r[j] == es[j - 1]);
                if p < es.len() {
                    lemma_key_lt_total(es[p].0, k);
                    if j - 1 > p {
                        assert(key_lt(es[p].0, es[j - 1].0));
                        lemma_key_lt_transitive(k, es[p].0, es[j - 1].0);
                    }
                }
                lemma_key_lt_transitive(es[i].0, k, es[j - 1].0);
            } else if i == p {
                assert(r[j] == es[j - 1]);
                lemma_key_lt_total(es[p].0, k);
                if j - 1 > p {
                    assert(key_lt(es[p].0, es[j - 1].0));
                    lemma_key_lt_transitive(k, es[p].0, es[j - 1].0);
                }
            } else {
                assert(r[i] == es[i - 1] && r[j] == es[j - 1]);
            }
        }
        lemma_obj_get_at(r, p);
    }
}

/// Removing a member keeps the members sorted.
pub proof fn lemma_obj_remove_sorted(es: Entries, k: Seq<char>)
    requires
        keys_sorted(es),
        obj_remove(es, k) is Some,
    ensures
        keys_sorted(obj_remove(es, k).unwrap()),
{
    lemma_obj_pos(es, k);
    let p = obj_pos(es, k);
    let r = es.remove(p);
    assert forall|i: int, j: int| 0 <= i < j < r.len() implies key_lt(
        #[trigger] r[i].0,
        #[trigger] r[j].0,
    ) by {
        let a = if i < p { i } else { i + 1 };
        let b = if j < p { j } else { j + 1 };
        assert(r[i] == es[a] && r[j] == es[b]);
    }
}

/// The position of `key` among `entries` and whether it is present there.
pub fn obj_find(entries: &Vec<(String, Json)>, key: &str) -> (r: (usize, bool))
    ensures
        r.0 == obj_pos(jv_entries(entries@), key@),
        r.1 == (r.0 < entries@.len() && entries@[r.0 as int].0@ == key@),
{
    let ghost es = jv_entries(entries@);
    proof {
        lemma_jv_entries(entries@);
        lemma_obj_pos(es, key@);
    }
    let mut i: usize = 0;
    while i < entries.len() && key_less(entries[i].0.as_str(), key)
        invariant
            i <= entries.len(),
            es == jv_entries(entries@),
            es.len() == entries@.len(),
            forall|j: int| 0 <= j < es.len() ==> #[trigger] es[j] == (entries@[j].0@, jv_of(entries@[j].1)),
            forall|j: int| 0 <= j < i ==> key_lt(#[trigger] es[j].0, key@),
        decreases entries.len() - i,
    {
        i = i + 1;
    }
    proof {
        let p = obj_pos(es, key@);
        if (p as int) < (i as int) {
            assert(key_lt(es[p].0, key@));
        } else if (p as int) > (i as int) {
            assert(key_lt(es[i as int].0, key@));
        }
    }
    let found = i < entries.len() && same_text(entries[i].0.as_str(), key);
    (i, found)
}

} // verus!

verus! {

/// JSON's number grammar: `-? (0 | [1-9][0-9]*) (\. [0-9]+)? ([eE] [+-]? [0-9]+)?`.
pub open spec fn json_number_grammar(t: Seq<char>) -> bool {
    exists|a: int, b: int, c: int|
        #![trigger t.subrange(0, a), t.subrange(a, b), t.subrange(b, c)]
        0 <= a <= b <= c == t.len() && sign_part(t.subrange(0, a)) && int_part(t.subrange(a, b))
            && frac_exp_part(t.subrange(b, c))
}

/// An optional leading `-`.
pub open spec fn sign_part(s: Seq<char>) -> bool {
    s.len() == 0 || s == seq!['-']
}

/// All decimal digits, at least one.
pub open spec fn all_digits(s: Seq<char>) -> bool {
    s.len() > 0 && forall|i: int| 0 <= i < s.len() ==> '0' <= #[trigger] s[i] && s[i] <= '9'
}

/// `0` or a digit run without a leading zero.
pub open spec fn int_part(s: Seq<char>) -> bool {
    all_digits(s) && (s.len() == 1 || s[0] != '0')
}

/// An optional fraction then an optional exponent.
pub open spec fn frac_exp_part(s: Seq<char>) -> bool {
    exists|k: int|
        #![trigger s.subrange(0, k), s.subrange(k, s.len() as int)]
        0 <= k <= s.len() && (k == 0 || (s[0] == '.' && all_digits(s.subrange(1, k))))
            && exp_part(s.subrange(k, s.len() as int))
}

/// An optional exponent: `e` or `E`, an optional sign, and digits.
pub open spec fn exp_part(s: Seq<char>) -> bool {
    s.len() == 0 || ((s[0] == 'e' || s[0] == 'E') && (all_digits(s.drop_first()) || (s.len() > 1 && (
    s[1] == '+' || s[1] == '-') && all_digits(s.skip(2)))))
}

/// The number serde_json parses from exactly `text`, when it is a JSON number
/// whose value is a finite double: integers by value, others by the shortest
/// decimal text that reads back as the same double.
pub uninterp spec fn json_number_value(text: Seq<char>) -> Option<NumV>;

/// Canonical decimal digits: at least one, and no leading zero unless the
/// text is `0`.
pub open spec fn canonical_digits(t: Seq<char>) -> bool {
    t.len() > 0 && (forall|i: int| 0 <= i < t.len() ==> crate::pointer::is_digit(#[trigger] t[i])) && !(t.len() > 1
        && t[0] == '0')
}

/// The integer a plain integer text denotes where serde_json reads it as one:
/// canonical digits up to `u64::MAX`, or `-` and canonical digits from 1 to
/// 2^63.
pub open spec fn plain_int_text(t: Seq<char>) -> Option<int> {
    if canonical_digits(t) && crate::pointer::digits_value(t) <= u64::MAX {
        Some(crate::pointer::digits_value(t) as int)
    } else if t.len() > 1 && t[0] == '-' && canonical_digits(t.skip(1)) && 1 <= crate::pointer::digits_value(t.skip(1))
        <= 0x8000_0000_0000_0000 {
        Some(-crate::pointer::digits_value(t.skip(1)))
    } else {
        None
    }
}

/// Parses exactly `text` as a JSON number with serde_json
/// (`serde_json::Number`'s `FromStr`). The contract claims that a result
/// comes only from text in JSON's number grammar, and that the result is a
/// function of the text alone, and that a plain integer text (canonical
/// digits up to `u64::MAX`, or `-` and canonical digits from 1 to 2^63) gives
/// that integer. Which double any other in-grammar text gives is not stated
/// (that is floating point).
#[verifier::external_body]
pub fn json_number(text: &str) -> (r: Option<Number>)
    ensures
        r is Some ==> json_number_grammar(text@),
        r matches Some(n) ==> json_number_value(text@) == Some(n@),
        r is None ==> json_number_value(text@) is None,
        plain_int_text(text@) matches Some(v) ==> r is Some && r.unwrap()@ == NumV::Int(v),
{
    match text.parse::<serde_json::Number>() {
        Ok(n) => Some(match (n.as_i64(), n.as_u64()) {
            (Some(i), _) => Number::Int(i),
            (None, Some(u)) => Number::UInt(u),
            _ => Number::Float(n.as_f64().unwrap_or_default().to_string()),
        }),
        Err(_) => None,
    }
}

} // verus!

verus! {

/// A copy of a number.
pub fn copy_number(n: &Number) -> (r: Number)
    ensures
        r@ == n@,
{
    match n {
        Number::Int(i) => Number::Int(*i),
        Number::UInt(u) => Number::UInt(*u),
        Number::Float(s) => Number::Float(s.clone()),
    }
}

/// A deep copy of a value.
pub fn copy_json(j: &Json) -> (r: Json)
    ensures
        r@ == j@,
    decreases jv_of(*j),
{
    broadcast use lemma_jv_seq, lemma_jv_entries;
    match j {
        Json::Null => Json::Null,
        Json::Bool(b) => Json::Bool(*b),
        Json::Number(n) => Json::Number(copy_number(n)),
        Json::Str(s) => Json::Str(s.clone()),
        Json::Array(items) => {
            let mut out: Vec<Json> = Vec::new();
            let mut i: usize = 0;
            while i < items.len()
                invariant
                    i <= items.len(),
                    out@.len() == i,
                    forall|k: int| 0 <= k < i ==> jv_of(#[trigger] out@[k]) == jv_of(items@[k]),
                    *j == Json::Array(*items),
                decreases items.len() - i,
            {
                proof {
                    lemma_jv_seq(items@);
                    assert(jv_seq(items@)[i as int] == jv_of(items@[i as int]));
                    let ghost s = jv_seq(items@);
                    assert(0 <= i < s.len());
                    assert(decreases_to!(s => s[i as int]));
                    let a = JV::Arr(s);
                    assert(decreases_to!(a => a->Arr_0));
                }
                let c = copy_json(&items[i]);
                out.push(c);
                i = i + 1;
            }
            assert(jv_seq(out@) =~= jv_seq(items@));
            Json::Array(out)
        },
        Json::Object(entries) => {
            let mut out: Vec<(String, Json)> = Vec::new();
            let mut i: usize = 0;
            while i < entries.len()
                invariant
                    i <= entries.len(),
                    out@.len() == i,
                    forall|k: int| 0 <= k < i ==> (#[trigger] out@[k]).0@ == entries@[k].0@ && jv_of(out@[k].1) == jv_of(entries@[k].1),
                    *j == Json::Object(*entries),
                decreases entries.len() - i,
            {
                proof {
                    lemma_jv_entries(entries@);
                    let es = jv_entries(entries@);
                    assert(es[i as int] == (entries@[i as int].0@, jv_of(entries@[i as int].1)));
                    assert(0 <= i < es.len());
                    assert(decreases_to!(es => es[i as int]));
                    let o = JV::Obj(es);
                    assert(decreases_to!(o => o->Obj_0));
                    assert(decreases_to!(es[i as int] => es[i as int].1));
                }
                let c = copy_json(&entries[i].1);
                out.push((entries[i].0.clone(), c));
                i = i + 1;
            }
            assert(jv_entries(out@) =~= jv_entries(entries@));
            Json::Object(out)
        },
    }
}

} // verus!
