//! TOML documents: the `toml` crate's tree, converted into the data model.
//! Tables become objects (members sorted by key), datetimes become their
//! text, and a non-finite float makes the document unparsable.

use vstd::prelude::*;

use crate::error::{Error, ErrorCode};
use crate::json::{jv_entries, jv_seq, lemma_jv_entries, lemma_jv_seq, lemma_obj_pos, obj_find, obj_insert, Entries, Json, NumV, Number, JV};
use crate::parse::toml_fmt::{datetime_text, render_datetime, TomlDate, TomlDatetime, TomlOffset, TomlTime};
use crate::text::same_text;

verus! {

/// One node of a TOML document's tree.
#[derive(Debug)]
pub enum TomlNode {
    /// A string.
    Str(String),
    /// An integer.
    Int(i64),
    /// A float, as Rust writes an `f64` (`inf`, `-inf` and `NaN` included).
    Float(String),
    /// A boolean.
    Bool(bool),
    /// An offset date-time, local date-time, date or time.
    Datetime(TomlDatetime),
    /// An array.
    Array(Vec<TomlNode>),
    /// A table: its keys and values.
    Table(Vec<(String, TomlNode)>),
}

/// The view of a [`TomlNode`].
pub enum TomlV {
    /// A string.
    Str(Seq<char>),
    /// An integer.
    Int(int),
    /// A float's text.
    Float(Seq<char>),
    /// A boolean.
    Bool(bool),
    /// A datetime's fields.
    Datetime(TomlDatetime),
    /// An array.
    Array(Seq<TomlV>),
    /// A table.
    Table(Seq<(Seq<char>, TomlV)>),
}

/// The view of one node.
pub open spec fn tv_of(t: TomlNode) -> TomlV
    decreases t,
{
    match t {
        TomlNode::Str(s) => TomlV::Str(s@),
        TomlNode::Int(i) => TomlV::Int(i as int),
        TomlNode::Float(s) => TomlV::Float(s@),
        TomlNode::Bool(b) => TomlV::Bool(b),
        TomlNode::Datetime(d) => TomlV::Datetime(d),
        TomlNode::Array(items) => TomlV::Array(tv_seq(items@)),
        TomlNode::Table(es) => TomlV::Table(tv_entries(es@)),
    }
}

/// The views of a sequence of nodes.
pub open spec fn tv_seq(s: Seq<TomlNode>) -> Seq<TomlV>
    decreases s,
{
    if s.len() == 0 {
        Seq::empty()
    } else {
        tv_seq(s.drop_last()).push(tv_of(s.last()))
    }
}

/// The views of a table's members.
pub open spec fn tv_entries(s: Seq<(String, TomlNode)>) -> Seq<(Seq<char>, TomlV)>
    decreases s,
{
    if s.len() == 0 {
        Seq::empty()
    } else {
        tv_entries(s.drop_last()).push((s.last().0@, tv_of(s.last().1)))
    }
}

impl View for TomlNode {
    type V = TomlV;

    open spec fn view(&self) -> TomlV {
        tv_of(*self)
    }
}

/// `tv_seq` maps node by node.
pub broadcast proof fn lemma_tv_seq(s: Seq<TomlNode>)
    ensures
        #[trigger] tv_seq(s).len() == s.len(),
        forall|i: int| 0 <= i < s.len() ==> #[trigger] tv_seq(s)[i] == tv_of(s[i]),
    decreases s.len(),
{
    if s.len() > 0 {
        lemma_tv_seq(s.drop_last());
    }
}

/// `tv_entries` maps member by member.
pub broadcast proof fn lemma_tv_entries(s: Seq<(String, TomlNode)>)
    ensures
        #[trigger] tv_entries(s).len() == s.len(),
        forall|i: int| 0 <= i < s.len() ==> #[trigger] tv_entries(s)[i] == (s[i].0@, tv_of(s[i].1)),
    decreases s.len(),
{
    if s.len() > 0 {
        lemma_tv_entries(s.drop_last());
    }
}

/// Whether a float's text is not a finite number.
pub open spec fn non_finite_text(t: Seq<char>) -> bool {
    t == "inf"@ || t == "-inf"@ || t == "NaN"@
}

/// Whether the tree holds a float that is not finite (JSON has none).
pub open spec fn has_non_finite(t: TomlV) -> bool
    decreases t,
{
    match t {
        TomlV::Float(s) => non_finite_text(s),
        TomlV::Array(items) => exists|i: int| 0 <= i < items.len() && has_non_finite(#[trigger] items[i]),
        TomlV::Table(es) => exists|i: int| 0 <= i < es.len() && has_non_finite(#[trigger] es[i].1),
        _ => false,
    }
}

/// A TOML tree in the data model: strings, integers, floats and booleans as
/// themselves, datetimes as their text, arrays element by element, and
/// tables as objects with each member set in turn.
pub open spec fn toml_json_spec(t: TomlV) -> JV
    decreases t,
{
    match t {
        TomlV::Str(s) => JV::Str(s),
        TomlV::Int(i) => JV::Num(NumV::Int(i)),
        TomlV::Float(s) => JV::Num(NumV::Float(s)),
        TomlV::Bool(b) => JV::Bool(b),
        TomlV::Datetime(d) => JV::Str(datetime_text(d)),
        TomlV::Array(items) => JV::Arr(toml_items_json(items)),
        TomlV::Table(es) => JV::Obj(toml_table_json(es)),
    }
}

/// An array's elements in the data model.
pub open spec fn toml_items_json(s: Seq<TomlV>) -> Seq<JV>
    decreases s,
{
    if s.len() == 0 {
        Seq::empty()
    } else {
        toml_items_json(s.drop_last()).push(toml_json_spec(s.last()))
    }
}

/// A table's members in the data model, set in turn.
pub open spec fn toml_table_json(s: Seq<(Seq<char>, TomlV)>) -> Entries
    decreases s,
{
    if s.len() == 0 {
        Seq::empty()
    } else {
        obj_insert(toml_table_json(s.drop_last()), s.last().0, toml_json_spec(s.last().1))
    }
}

/// Converts a TOML tree into the data model; a float that is not finite is
/// `E_PARSE`.
pub fn toml_to_json(t: &TomlNode) -> (r: Result<Json, Error>)
    ensures
        r is Err <==> has_non_finite(t@),
        r matches Ok(j) ==> j@ == toml_json_spec(t@),
        r matches Err(e) ==> e.spec_code() == ErrorCode::Parse,
    decreases tv_of(*t),
{
    broadcast use lemma_tv_seq, lemma_tv_entries, lemma_jv_seq, lemma_jv_entries;
    match t {
        TomlNode::Str(s) => Ok(Json::Str(s.clone())),
        TomlNode::Int(i) => Ok(Json::Number(Number::Int(*i))),
        TomlNode::Float(s) => {
            proof {
                reveal_strlit("inf");
                reveal_strlit("-inf");
                reveal_strlit("NaN");
            }
            if same_text(s.as_str(), "inf") || same_text(s.as_str(), "-inf") || same_text(s.as_str(), "NaN") {
                Err(Error::new(ErrorCode::Parse, crate::text::concat3("float ", s.as_str(), " is not representable in JSON")))
            } else {
                Ok(Json::Number(Number::Float(s.clone())))
            }
        },
        TomlNode::Bool(b) => Ok(Json::Bool(*b)),
        TomlNode::Datetime(d) => Ok(Json::Str(render_datetime(d))),
        TomlNode::Array(items) => {
            let ghost iv = tv_seq(items@);
            let mut out: Vec<Json> = Vec::new();
            let mut i: usize = 0;
            while i < items.len()
                invariant
                    i <= items.len(),
                    iv == tv_seq(items@),
                    iv.len() == items.len(),
                    *t == TomlNode::Array(*items),
                    jv_seq(out@) == toml_items_json(iv.take(i as int)),
                    forall|k: int| 0 <= k < i ==> !has_non_finite(#[trigger] iv[k]),
                decreases items.len() - i,
            {
                proof {
                    lemma_tv_seq(items@);
                    assert(iv[i as int] == tv_of(items@[i as int]));
                    assert(tv_of(*t) == TomlV::Array(iv));
                    assert(decreases_to!(iv => iv[i as int]));
                    let a = TomlV::Array(iv);
                    assert(decreases_to!(a => a->Array_0));
                }
                match toml_to_json(&items[i]) {
                    Ok(j) => {
                        let ghost old_out = out@;
                        out.push(j);
                        assert(out@.drop_last() =~= old_out);
                        assert(jv_seq(out@) == jv_seq(old_out).push(j@));
                        assert(iv.take(i + 1).drop_last() =~= iv.take(i as int));
                    },
                    Err(e) => {
                        assert(has_non_finite(iv[i as int]));
                        return Err(e);
                    },
                }
                i = i + 1;
            }
            assert(iv.take(i as int) =~= iv);
            Ok(Json::Array(out))
        },
        TomlNode::Table(es) => {
            let ghost ev = tv_entries(es@);
            let mut out: Vec<(String, Json)> = Vec::new();
            let mut i: usize = 0;
            while i < es.len()
                invariant
                    i <= es.len(),
                    ev == tv_entries(es@),
                    ev.len() == es.len(),
                    *t == TomlNode::Table(*es),
                    jv_entries(out@) == toml_table_json(ev.take(i as int)),
                    forall|k: int| 0 <= k < i ==> !has_non_finite(#[trigger] ev[k].1),
                decreases es.len() - i,
            {
                proof {
                    lemma_tv_entries(es@);
                    assert(ev[i as int] == (es@[i as int].0@, tv_of(es@[i as int].1)));
                    assert(tv_of(*t) == TomlV::Table(ev));
                    let e = ev[i as int];
                    assert(decreases_to!(ev => ev[i as int]));
                    assert(decreases_to!(e => e.1));
                    let a = TomlV::Table(ev);
                    assert(decreases_to!(a => a->Table_0));
                }
                match toml_to_json(&es[i].1) {
                    Ok(j) => {
                        let ghost jv = j@;
                        let key = es[i].0.clone();
                        let ghost before = jv_entries(out@);
                        let (p, found) = obj_find(&out, key.as_str());
                        proof {
                            lemma_obj_pos(before, key@);
                            lemma_jv_entries(out@);
                        }
                        if found {
                            out.set(p, (key, j));
                        } else {
                            out.insert(p, (key, j));
                        }
                        assert(key@ == ev[i as int].0);
                        assert(jv == toml_json_spec(ev[i as int].1));
                        proof {
                            lemma_jv_entries(out@);
                        }
                        assert(jv_entries(out@) =~= obj_insert(before, ev[i as int].0, toml_json_spec(ev[i as int].1)));
                        assert(ev.take(i + 1).drop_last() =~= ev.take(i as int));
                    },
                    Err(e) => {
                        assert(has_non_finite(ev[i as int].1));
                        return Err(e);
                    },
                }
                i = i + 1;
            }
            assert(ev.take(i as int) =~= ev);
            Ok(Json::Object(out))
        },
    }
}

#[verifier::external_type_specification]
#[verifier::external_body]
pub struct ExTomlValue(toml::Value);

#[verifier::external_type_specification]
#[verifier::external_body]
pub struct ExTomlDatetime(toml::value::Datetime);

/// The tree the `toml` crate parses from a text, node by node; `None` when
/// the text is not a TOML document.
pub uninterp spec fn toml_tree(text: Seq<char>) -> Option<TomlV>;

/// Converts a `toml` datetime's fields, for [`toml_node`].
#[verifier::external_body]
fn toml_datetime(d: toml::value::Datetime) -> TomlDatetime {
    TomlDatetime {
        date: d.date.map(|x| TomlDate { year: x.year, month: x.month, day: x.day }),
        time: d.time.map(|x| TomlTime { hour: x.hour, minute: x.minute, second: x.second, nanosecond: x.nanosecond }),
        offset: d.offset.map(|o| match o {
            toml::value::Offset::Z => TomlOffset::Z,
            toml::value::Offset::Custom { minutes } => TomlOffset::Custom(minutes),
        }),
    }
}

/// Converts a `toml` tree into a [`TomlNode`], variant by variant, for
/// [`toml_value`]; a float becomes its `f64` text.
#[verifier::external_body]
fn toml_node(v: toml::Value) -> TomlNode {
    match v {
        toml::Value::String(s) => TomlNode::Str(s),
        toml::Value::Integer(i) => TomlNode::Int(i),
        toml::Value::Float(f) => TomlNode::Float(f.to_string()),
        toml::Value::Boolean(b) => TomlNode::Bool(b),
        toml::Value::Datetime(d) => TomlNode::Datetime(toml_datetime(d)),
        toml::Value::Array(a) => TomlNode::Array(a.into_iter().map(toml_node).collect()),
        toml::Value::Table(t) => TomlNode::Table(t.into_iter().map(|(k, x)| (k, toml_node(x))).collect()),
    }
}

/// Runs `toml::from_str` into `toml::Value`. The contract claims that the
/// tree, or the failure, is a function of the text alone, named
/// [`toml_tree`]; which tree a text gives is the TOML grammar and not
/// stated.
#[verifier::external_body]
pub(crate) fn toml_value(text: &str) -> (r: Result<TomlNode, String>)
    ensures
        r matches Ok(t) ==> toml_tree(text@) == Some(t@),
        r is Err ==> toml_tree(text@) is None,
{
    match toml::from_str::<toml::Value>(text) {
        Ok(v) => Ok(toml_node(v)),
        Err(e) => Err(e.to_string()),
    }
}

/// The value a TOML text denotes in the data model; `None` when it does not
/// parse or holds a float that is not finite.
pub open spec fn toml_doc_value(text: Seq<char>) -> Option<JV> {
    match toml_tree(text) {
        Some(t) => if has_non_finite(t) {
            None
        } else {
            Some(toml_json_spec(t))
        },
        None => None,
    }
}

/// Parses a TOML document into the data model, or says why it has none.
pub fn parse_toml(text: &str) -> (r: Result<Json, String>)
    ensures
        r is Ok <==> toml_doc_value(text@) is Some,
        r matches Ok(j) ==> toml_doc_value(text@) == Some(j@),
{
    match toml_value(text) {
        Err(m) => Err(m),
        Ok(t) => match toml_to_json(&t) {
            Ok(j) => Ok(j),
            Err(e) => Err(crate::text::owned(e.message())),
        },
    }
}

} // verus!
