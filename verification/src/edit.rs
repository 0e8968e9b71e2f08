//! Documents, provenance, edit requests, plans, and commits.

use sha2::Digest;
use vstd::prelude::*;

use crate::envfile::{is_name_char, is_name_start, name_char, name_start};
use crate::error::{Error, ErrorCode};
use crate::interp::{interp_items, interp_members, interp_spec, interp_string_spec, interp_tree, lemma_name_run, name_run};
use crate::json::{jv_entries, jv_of, jv_seq, lemma_jv_entries, lemma_jv_seq, Json, NumV, JV};
use crate::load::{include_prefix, resolve_items, resolve_members, resolve_spec, step_walk, FileV, Out, RecV, WalkV};
use crate::text::{chars_of, first_index, lemma_first_index, owned, slice_vec, string_of};

verus! {

/// A source document's format. Only [`Format::Json`] is
/// writable.
#[derive(Debug, Clone, Copy, PartialEq, Eq, Structural, Hash)]
pub enum Format {
    /// A `.json` document.
    Json,
    /// A `.yaml` or `.yml` document.
    Yaml,
    /// A `.toml` document.
    Toml,
    /// A `*.env` variable file.
    Env,
}

/// The wire form of a format.
pub open spec fn format_text(f: Format) -> Seq<char> {
    match f {
        Format::Json => "json"@,
        Format::Yaml => "yaml"@,
        Format::Toml => "toml"@,
        Format::Env => "env"@,
    }
}

impl Format {
    /// The wire form: `"json"`, `"yaml"`, `"toml"`, or `"env"`.
    pub fn as_str(self) -> (s: &'static str)
        ensures
            s@ == format_text(self),
    {
        match self {
            Format::Json => "json",
            Format::Yaml => "yaml",
            Format::Toml => "toml",
            Format::Env => "env",
        }
    }

    /// Whether documents of this format can be edited: JSON
    /// only.
    pub fn writable(self) -> (r: bool)
        ensures
            r == (self == Format::Json),
    {
        match self {
            Format::Json => true,
            _ => false,
        }
    }
}

/// An `@file:` string: the document holding it and its pointer there.
#[derive(Debug, Clone, PartialEq)]
pub struct Reference {
    /// The key of the document holding the reference.
    pub document: String,
    /// The reference's source pointer within that document.
    pub pointer: String,
}

/// One position a document's root value occupies in the effective tree, with
/// the `@file:` references traversed to reach it, outermost first.
#[derive(Debug, Clone, PartialEq)]
pub struct Graft {
    /// The effective pointer of the grafted root.
    pub effective: String,
    /// The references from the entrypoint down to this graft.
    pub chain: Vec<Reference>,
}

/// One source file of a snapshot.
#[derive(Debug, Clone, PartialEq)]
pub struct Document {
    /// The document key: its path relative to the config directory,
    /// `/`-separated.
    pub key: String,
    /// The path the document was read from.
    pub path: String,
    /// The document's format.
    pub format: Format,
    /// `sha256:` plus the lowercase hex SHA-256 of the file's bytes.
    pub revision: String,
    /// True iff `format` is JSON.
    pub writable: bool,
    /// Every position of the effective tree the document's root occupies,
    /// sorted by effective pointer. A `*.env` file has none.
    pub grafts: Vec<Graft>,
}

/// Which layer of the namespace supplies a variable's value.
#[derive(Debug, Clone, Copy, PartialEq, Eq, Structural)]
pub enum VariableOrigin {
    /// The process environment.
    Process,
    /// A `*.env` file (named in [`Variable::file`]).
    File,
    /// The variable is unset and the `${NAME:-default}` default applies.
    Default,
}

/// One `$` reference of an authored string and where its value comes from.
#[derive(Debug, Clone, PartialEq)]
pub struct Variable {
    /// The variable name.
    pub name: String,
    /// The layer supplying its value.
    pub origin: VariableOrigin,
    /// The `*.env` document key, when `origin` is [`VariableOrigin::File`].
    pub file: Option<String>,
}

/// The provenance of one effective value.
#[derive(Debug, PartialEq)]
pub struct Origin {
    /// The effective pointer asked about.
    pub effective: String,
    /// The key of the document whose authored value produces the effective
    /// one.
    pub document: String,
    /// The source pointer of the authored value within `document`.
    pub pointer: String,
    /// The authored value, as parsed, before includes and interpolation.
    pub authored: Json,
    /// The references traversed from the entrypoint to `document`.
    pub chain: Vec<Reference>,
    /// The `$` references the authored string makes, in order of appearance.
    pub variables: Vec<Variable>,
    /// Whether `document` is writable.
    pub writable: bool,
}

/// An edit operation.
#[derive(Debug, Clone, Copy, PartialEq, Eq, Structural)]
pub enum Op {
    /// Add or replace the value at the pointer (the wire form `set`).
    Put,
    /// Delete the member or element at the pointer.
    Remove,
}

/// How a `set` value is authored.
#[derive(Debug, Clone, Copy, PartialEq, Eq, Structural)]
pub enum Mode {
    /// Strings are escaped so they load back as themselves.
    Literal,
    /// A string is written verbatim as an entryconf expression.
    Expression,
}

/// One operation on one source document.
#[derive(Debug, PartialEq)]
pub struct Edit {
    /// The key of the document to edit. Required; there is no default.
    pub document: String,
    /// `set` or `remove`.
    pub op: Op,
    /// An RFC 6901 pointer within `document`; `""` is the root.
    pub pointer: String,
    /// The value to set (`Some(Json::Null)` sets JSON null); ignored for
    /// `remove`.
    pub value: Option<Json>,
    /// Literal (the default) or expression.
    pub mode: Mode,
}

impl Edit {
    /// A literal `set`: `value` loads back as itself.
    pub fn set(document: &str, pointer: &str, value: Json) -> (e: Edit)
        ensures
            e.document@ == document@,
            e.op == Op::Put,
            e.pointer@ == pointer@,
            e.value == Some(value),
            e.mode == Mode::Literal,
    {
        Edit {
            document: crate::text::owned(document),
            op: Op::Put,
            pointer: crate::text::owned(pointer),
            value: Some(value),
            mode: Mode::Literal,
        }
    }

    /// An expression `set`: `expression` is written verbatim and interpreted
    /// by the load (`$VAR`, `@file:…`).
    pub fn set_expression(document: &str, pointer: &str, expression: &str) -> (e: Edit)
        ensures
            e.document@ == document@,
            e.op == Op::Put,
            e.pointer@ == pointer@,
            e.value matches Some(Json::Str(s)) && s@ == expression@,
            e.mode == Mode::Expression,
    {
        Edit {
            document: crate::text::owned(document),
            op: Op::Put,
            pointer: crate::text::owned(pointer),
            value: Some(Json::Str(crate::text::owned(expression))),
            mode: Mode::Expression,
        }
    }

    /// A `remove`.
    pub fn remove(document: &str, pointer: &str) -> (e: Edit)
        ensures
            e.document@ == document@,
            e.op == Op::Remove,
            e.pointer@ == pointer@,
            e.value is None,
            e.mode == Mode::Literal,
    {
        Edit {
            document: crate::text::owned(document),
            op: Op::Remove,
            pointer: crate::text::owned(pointer),
            value: None,
            mode: Mode::Literal,
        }
    }
}

/// What a successful commit returns.
#[derive(Debug, Clone, PartialEq)]
pub struct Receipt {
    /// The written document's key.
    pub document: String,
    /// Its new revision.
    pub revision: String,
    /// The plan's revisions, with the written document's updated, by key.
    pub revisions: Vec<(String, String)>,
}

/// Tunes a commit.
#[derive(Debug, Clone, Copy, PartialEq, Eq, Structural)]
pub struct CommitOptions {
    /// How long to wait for the directory lock before `E_LOCKED`, in
    /// milliseconds.
    pub lock_timeout_ms: u64,
}

impl CommitOptions {
    /// The default: wait five seconds for the lock.
    pub fn new() -> (o: CommitOptions)
        ensures
            o.lock_timeout_ms == 5000,
    {
        CommitOptions { lock_timeout_ms: 5000 }
    }
}

impl Default for CommitOptions {
    /// Wait five seconds for the lock.
    fn default() -> (o: CommitOptions)
        ensures
            o.lock_timeout_ms == 5000,
    {
        CommitOptions::new()
    }
}

} // verus!

verus! {

/// Each `$` doubled.
pub open spec fn dollar_double(s: Seq<char>) -> Seq<char>
    decreases s.len(),
{
    if s.len() == 0 {
        Seq::empty()
    } else {
        (if s[0] == '$' { seq!['$', '$'] } else { seq![s[0]] }) + dollar_double(s.drop_first())
    }
}

/// A string in literal mode: each `$` doubled, then a leading
/// `@` doubled.
pub open spec fn literal_text(s: Seq<char>) -> Seq<char> {
    let d = dollar_double(s);
    if d.len() > 0 && d[0] == '@' {
        seq!['@'] + d
    } else {
        d
    }
}

/// A value in literal mode: every string, recursively but never a key,
/// escaped; numbers, booleans, and null unchanged.
pub open spec fn literal_value(v: JV) -> JV
    decreases v,
{
    match v {
        JV::Str(s) => JV::Str(literal_text(s)),
        JV::Arr(items) => JV::Arr(literal_items(items)),
        JV::Obj(es) => JV::Obj(literal_members(es)),
        _ => v,
    }
}

/// Array elements in literal mode.
pub open spec fn literal_items(items: Seq<JV>) -> Seq<JV>
    decreases items,
{
    if items.len() == 0 {
        Seq::empty()
    } else {
        seq![literal_value(items[0])] + literal_items(items.drop_first())
    }
}

/// Object members in literal mode; keys unchanged.
pub open spec fn literal_members(es: Seq<(Seq<char>, JV)>) -> Seq<(Seq<char>, JV)>
    decreases es,
{
    if es.len() == 0 {
        Seq::empty()
    } else {
        seq![(es[0].0, literal_value(es[0].1))] + literal_members(es.drop_first())
    }
}

fn escape_text(s: &str) -> (r: String)
    ensures
        r@ == literal_text(s@),
{
    let c = chars_of(s);
    let mut out: Vec<char> = Vec::new();
    let mut i: usize = c.len();
    assert(c@.skip(i as int) =~= Seq::<char>::empty());
    while i > 0
        invariant
            i <= c.len(),
            c@ == s@,
            out@ == dollar_double(c@.skip(i as int)),
        decreases i,
    {
        i = i - 1;
        let ghost tail = out@;
        assert(c@.skip(i as int).drop_first() =~= c@.skip(i + 1));
        assert(c@.skip(i as int)[0] == c@[i as int]);
        if c[i] == '$' {
            out.insert(0, '$');
            out.insert(0, '$');
            assert(out@ =~= seq!['$', '$'] + tail);
        } else {
            out.insert(0, c[i]);
            assert(out@ =~= seq![c@[i as int]] + tail);
        }
    }
    assert(c@.skip(0) =~= c@);
    if out.len() > 0 && out[0] == '@' {
        let ghost d = out@;
        out.insert(0, '@');
        assert(out@ =~= seq!['@'] + d);
    }
    string_of(out.as_slice())
}

fn escape_ref(value: &Json) -> (r: Json)
    ensures
        r@ == literal_value(value@),
    decreases jv_of(*value),
{
    broadcast use lemma_jv_seq, lemma_jv_entries;
    match value {
        Json::Str(s) => Json::Str(escape_text(s.as_str())),
        Json::Array(items) => {
            let ghost iv = jv_seq(items@);
            let mut out: Vec<Json> = Vec::new();
            let mut i: usize = 0;
            assert(iv.skip(0) =~= iv);
            assert(jv_seq(out@) =~= Seq::<JV>::empty());
            while i < items.len()
                invariant
                    i <= items.len(),
                    iv == jv_seq(items@),
                    iv.len() == items.len(),
                    forall|k: int| 0 <= k < iv.len() ==> #[trigger] iv[k] == jv_of(items@[k]),
                    *value == Json::Array(*items),
                    literal_items(iv) == jv_seq(out@) + literal_items(iv.skip(i as int)),
                decreases items.len() - i,
            {
                proof {
                    let a = JV::Arr(iv);
                    assert(decreases_to!(a => a->Arr_0));
                    assert(decreases_to!(iv => iv[i as int]));
                    assert(iv.skip(i as int)[0] == iv[i as int]);
                    assert(iv.skip(i as int).drop_first() =~= iv.skip(i + 1));
                }
                let x = escape_ref(&items[i]);
                let ghost prev = out@;
                out.push(x);
                assert(out@.drop_last() =~= prev);
                assert(jv_seq(out@) + literal_items(iv.skip(i + 1)) =~= jv_seq(prev) + literal_items(iv.skip(i as int)));
                i = i + 1;
            }
            assert(iv.skip(i as int) =~= Seq::<JV>::empty());
            assert(jv_seq(out@) + Seq::<JV>::empty() =~= jv_seq(out@));
            Json::Array(out)
        },
        Json::Object(entries) => {
            let ghost es = jv_entries(entries@);
            let mut out: Vec<(String, Json)> = Vec::new();
            let mut i: usize = 0;
            assert(es.skip(0) =~= es);
            assert(jv_entries(out@) =~= Seq::<(Seq<char>, JV)>::empty());
            while i < entries.len()
                invariant
                    i <= entries.len(),
                    es == jv_entries(entries@),
                    es.len() == entries.len(),
                    forall|k: int| 0 <= k < es.len() ==> #[trigger] es[k] == (entries@[k].0@, jv_of(entries@[k].1)),
                    *value == Json::Object(*entries),
                    literal_members(es) == jv_entries(out@) + literal_members(es.skip(i as int)),
                decreases entries.len() - i,
            {
                proof {
                    let o = JV::Obj(es);
                    assert(decreases_to!(o => o->Obj_0));
                    assert(decreases_to!(es => es[i as int]));
                    assert(decreases_to!(es[i as int] => es[i as int].1));
                    assert(es.skip(i as int)[0] == es[i as int]);
                    assert(es.skip(i as int).drop_first() =~= es.skip(i + 1));
                }
                let x = escape_ref(&entries[i].1);
                let ghost prev = out@;
                out.push((entries[i].0.clone(), x));
                assert(out@.drop_last() =~= prev);
                assert(jv_entries(out@) + literal_members(es.skip(i + 1)) =~= jv_entries(prev) + literal_members(es.skip(i as int)));
                i = i + 1;
            }
            assert(es.skip(i as int) =~= Seq::<(Seq<char>, JV)>::empty());
            assert(jv_entries(out@) + Seq::<(Seq<char>, JV)>::empty() =~= jv_entries(out@));
            Json::Object(out)
        },
        Json::Null => Json::Null,
        Json::Bool(b) => Json::Bool(*b),
        Json::Number(n) => Json::Number(crate::json::copy_number(n)),
    }
}

/// Literal mode: every string, recursively but never a key,
/// has each `$` doubled and then a leading `@` doubled, so it loads back as
/// itself.
pub fn escape_literal(value: Json) -> (r: Json)
    ensures
        r@ == literal_value(value@),
{
    escape_ref(&value)
}

proof fn lemma_interp_doubled(s: Seq<char>, vars: spec_fn(Seq<char>) -> Option<Seq<char>>)
    ensures
        interp_spec(dollar_double(s), vars) == Ok::<(Seq<char>, nat, Seq<Seq<char>>), ErrorCode>((s, 0nat, Seq::empty())),
    decreases s.len(),
{
    if s.len() > 0 {
        let d = dollar_double(s);
        let rest = dollar_double(s.drop_first());
        lemma_interp_doubled(s.drop_first(), vars);
        if s[0] == '$' {
            assert(d =~= seq!['$', '$'] + rest);
            assert(d.skip(2) =~= rest);
            assert(crate::interp::next_piece(d) == Ok::<(crate::interp::Piece, int), ErrorCode>((crate::interp::Piece::Dollar, 2)));
            assert(seq!['$'] + s.drop_first() =~= s);
        } else {
            assert(d =~= seq![s[0]] + rest);
            assert(d.skip(1) =~= rest);
            assert(crate::interp::next_piece(d) == Ok::<(crate::interp::Piece, int), ErrorCode>((crate::interp::Piece::Lit(s[0]), 1)));
        }
        assert(seq![s[0]] + s.drop_first() =~= s);
        assert(Seq::<Seq<char>>::empty() + Seq::<Seq<char>>::empty() =~= Seq::<Seq<char>>::empty());
    } else {
        assert(s =~= Seq::<char>::empty());
    }
}

/// Literal mode's promise: a string written in literal mode
/// loads back as itself. The `@` escape is undone when includes are
/// resolved, wherever the string stands and whatever the directory holds,
/// and the `$$` escapes when it is interpolated, whatever the variables
/// hold.
pub proof fn law_literal_loads_back(
    s: Seq<char>,
    files: Seq<FileV>,
    w: WalkV,
    recs: Seq<RecV>,
    fuel: nat,
    vars: spec_fn(Seq<char>) -> Option<Seq<char>>,
)
    ensures
        resolve_spec(files, JV::Str(literal_text(s)), w, recs, fuel) == Out::Done((JV::Str(dollar_double(s)), recs)),
        interp_string_spec(dollar_double(s), vars) == Ok::<JV, ErrorCode>(JV::Str(s)),
{
    lemma_interp_doubled(s, vars);
    reveal_strlit("@file:");
    let d = dollar_double(s);
    if s.len() > 0 {
        assert(d[0] == (if s[0] == '$' { '$' } else { s[0] }));
        if s[0] == '@' {
            let e = seq!['@'] + d;
            assert(literal_text(s) == e);
            assert(e.drop_first() =~= d);
        } else if d.len() >= 6 {
            assert(d.take(6)[0] != include_prefix()[0]);
        }
    } else {
        assert(d.len() == 0);
    }
}

/// A value with each string's `$` doubled: what resolving a literal-mode
/// value's includes leaves for interpolation.
pub open spec fn doubled_value(v: JV) -> JV
    decreases v,
{
    match v {
        JV::Str(s) => JV::Str(dollar_double(s)),
        JV::Arr(items) => JV::Arr(doubled_items(items)),
        JV::Obj(es) => JV::Obj(doubled_members(es)),
        _ => v,
    }
}

/// Array elements with their strings' `$` doubled.
pub open spec fn doubled_items(items: Seq<JV>) -> Seq<JV>
    decreases items,
{
    if items.len() == 0 {
        Seq::empty()
    } else {
        seq![doubled_value(items[0])] + doubled_items(items.drop_first())
    }
}

/// Object members with their strings' `$` doubled; keys unchanged.
pub open spec fn doubled_members(es: Seq<(Seq<char>, JV)>) -> Seq<(Seq<char>, JV)>
    decreases es,
{
    if es.len() == 0 {
        Seq::empty()
    } else {
        seq![(es[0].0, doubled_value(es[0].1))] + doubled_members(es.drop_first())
    }
}

proof fn lemma_literal_resolves(v: JV, files: Seq<FileV>, w: WalkV, recs: Seq<RecV>, fuel: nat)
    ensures
        resolve_spec(files, literal_value(v), w, recs, fuel) == Out::Done((doubled_value(v), recs)),
    decreases v,
{
    match v {
        JV::Str(s) => {
            law_literal_loads_back(s, files, w, recs, fuel, |n: Seq<char>| None::<Seq<char>>);
        },
        JV::Arr(items) => {
            lemma_literal_items_resolve(items, files, w, 0, recs, fuel);
        },
        JV::Obj(es) => {
            lemma_literal_members_resolve(es, files, w, recs, fuel);
        },
        _ => {},
    }
}

proof fn lemma_literal_items_resolve(items: Seq<JV>, files: Seq<FileV>, w: WalkV, start: nat, recs: Seq<RecV>, fuel: nat)
    ensures
        resolve_items(files, literal_items(items), w, start, recs, fuel) == Out::Done((doubled_items(items), recs)),
    decreases items,
{
    if items.len() > 0 {
        let li = literal_items(items);
        assert(li[0] == literal_value(items[0]));
        assert(li.drop_first() =~= literal_items(items.drop_first()));
        lemma_literal_resolves(items[0], files, step_walk(w, crate::text::dec_spec(start)), recs, fuel);
        lemma_literal_items_resolve(items.drop_first(), files, w, start + 1, recs, fuel);
    } else {
        assert(literal_items(items) =~= Seq::<JV>::empty());
    }
}

proof fn lemma_literal_members_resolve(es: Seq<(Seq<char>, JV)>, files: Seq<FileV>, w: WalkV, recs: Seq<RecV>, fuel: nat)
    ensures
        resolve_members(files, literal_members(es), w, recs, fuel) == Out::Done((doubled_members(es), recs)),
    decreases es,
{
    if es.len() > 0 {
        let lm = literal_members(es);
        assert(lm[0] == (es[0].0, literal_value(es[0].1)));
        assert(lm.drop_first() =~= literal_members(es.drop_first()));
        lemma_literal_resolves(es[0].1, files, step_walk(w, es[0].0), recs, fuel);
        lemma_literal_members_resolve(es.drop_first(), files, w, recs, fuel);
    } else {
        assert(literal_members(es) =~= Seq::<(Seq<char>, JV)>::empty());
    }
}

proof fn lemma_doubled_interp(v: JV, vars: spec_fn(Seq<char>) -> Option<Seq<char>>)
    ensures
        interp_tree(doubled_value(v), vars) == Ok::<(JV, Seq<Seq<char>>), ErrorCode>((v, Seq::empty())),
    decreases v,
{
    match v {
        JV::Str(s) => {
            lemma_interp_doubled(s, vars);
            law_literal_loads_back(s, Seq::empty(), WalkV {
                doc: Seq::empty(),
                dir: Seq::empty(),
                src: Seq::empty(),
                eff: Seq::empty(),
                stack: Seq::empty(),
                chain: Seq::empty(),
            }, Seq::empty(), 0, vars);
        },
        JV::Arr(items) => {
            lemma_doubled_items_interp(items, vars);
        },
        JV::Obj(es) => {
            lemma_doubled_members_interp(es, vars);
        },
        _ => {},
    }
}

proof fn lemma_doubled_items_interp(items: Seq<JV>, vars: spec_fn(Seq<char>) -> Option<Seq<char>>)
    ensures
        interp_items(doubled_items(items), vars) == Ok::<(Seq<JV>, Seq<Seq<char>>), ErrorCode>((items, Seq::empty())),
    decreases items,
{
    if items.len() > 0 {
        let di = doubled_items(items);
        assert(di[0] == doubled_value(items[0]));
        assert(di.drop_first() =~= doubled_items(items.drop_first()));
        lemma_doubled_interp(items[0], vars);
        lemma_doubled_items_interp(items.drop_first(), vars);
        assert(seq![items[0]] + items.drop_first() =~= items);
        assert(Seq::<Seq<char>>::empty() + Seq::<Seq<char>>::empty() =~= Seq::<Seq<char>>::empty());
    } else {
        assert(doubled_items(items) =~= Seq::<JV>::empty());
        assert(items =~= Seq::<JV>::empty());
    }
}

proof fn lemma_doubled_members_interp(es: Seq<(Seq<char>, JV)>, vars: spec_fn(Seq<char>) -> Option<Seq<char>>)
    ensures
        interp_members(doubled_members(es), vars) == Ok::<(Seq<(Seq<char>, JV)>, Seq<Seq<char>>), ErrorCode>((es, Seq::empty())),
    decreases es,
{
    if es.len() > 0 {
        let dm = doubled_members(es);
        assert(dm[0] == (es[0].0, doubled_value(es[0].1)));
        assert(dm.drop_first() =~= doubled_members(es.drop_first()));
        lemma_doubled_interp(es[0].1, vars);
        lemma_doubled_members_interp(es.drop_first(), vars);
        assert(seq![(es[0].0, es[0].1)] + es.drop_first() =~= es);
        assert(Seq::<Seq<char>>::empty() + Seq::<Seq<char>>::empty() =~= Seq::<Seq<char>>::empty());
    } else {
        assert(doubled_members(es) =~= Seq::<(Seq<char>, JV)>::empty());
        assert(es =~= Seq::<(Seq<char>, JV)>::empty());
    }
}

/// Literal mode's promise for a whole value: a value written in literal
/// mode, wherever it stands and whatever the directory holds, resolves its
/// includes to the value with each string's `$` doubled (reading no file,
/// recording no document), and interpolating that gives back exactly the
/// value, whatever the variables hold and looking none of them up: every
/// string inside arrays and objects loads back as itself, and keys,
/// numbers, booleans and nulls stay as they are.
pub proof fn law_literal_value_loads_back(
    v: JV,
    files: Seq<FileV>,
    w: WalkV,
    recs: Seq<RecV>,
    fuel: nat,
    vars: spec_fn(Seq<char>) -> Option<Seq<char>>,
)
    ensures
        resolve_spec(files, literal_value(v), w, recs, fuel) == Out::Done((doubled_value(v), recs)),
        interp_tree(doubled_value(v), vars) == Ok::<(JV, Seq<Seq<char>>), ErrorCode>((v, Seq::empty())),
{
    lemma_literal_resolves(v, files, w, recs, fuel);
    lemma_doubled_interp(v, vars);
}

/// A literal-mode `set` on a document, read back at its pointer, is the
/// literal form of the value, and that form resolves and interpolates to
/// exactly the value (the document-level half of a literal write loading
/// back as itself; where the document is grafted in the tree is not part of
/// this statement).
pub proof fn law_literal_set_reads_back(
    doc: JV,
    toks: Seq<Seq<char>>,
    v: JV,
    files: Seq<FileV>,
    w: WalkV,
    recs: Seq<RecV>,
    fuel: nat,
    vars: spec_fn(Seq<char>) -> Option<Seq<char>>,
)
    requires
        crate::pointer::jv_wf(doc),
        crate::pointer::set_spec(doc, toks, literal_value(v)) is Some,
        !(toks.len() > 0 && toks.last() == seq!['-'] && crate::pointer::get_spec(doc, toks.drop_last()) matches Some(JV::Arr(_))),
    ensures
        crate::pointer::get_spec(crate::pointer::set_spec(doc, toks, literal_value(v)).unwrap(), toks) == Some(literal_value(v)),
        resolve_spec(files, literal_value(v), w, recs, fuel) == Out::Done((doubled_value(v), recs)),
        interp_tree(doubled_value(v), vars) == Ok::<(JV, Seq<Seq<char>>), ErrorCode>((v, Seq::empty())),
{
    crate::pointer::law_set_then_get(doc, toks, literal_value(v));
    law_literal_value_loads_back(v, files, w, recs, fuel, vars);
}

} // verus!

verus! {

/// The `$` references of a well-formed authored string, as (name, whether a
/// default is given), in order of appearance; `$$` is no reference, and an
/// unclosed `${` ends the scan.
pub open spec fn references(s: Seq<char>) -> Seq<(Seq<char>, bool)>
    decreases s.len(),
{
    if s.len() == 0 {
        Seq::empty()
    } else if s[0] != '$' || s.len() == 1 {
        references(s.drop_first())
    } else if s[1] == '$' {
        references(s.skip(2))
    } else if s[1] == '{' {
        proof {
            lemma_first_index(s.skip(2), '}');
        }
        match first_index(s.skip(2), '}') {
            None => Seq::empty(),
            Some(c) => {
                let inner = s.subrange(2, 2 + c);
                let r = match first_index(inner, ':') {
                    Some(a) => (inner.take(a), true),
                    None => (inner, false),
                };
                seq![r] + references(s.skip(c + 3))
            },
        }
    } else if is_name_start(s[1]) {
        proof {
            lemma_name_run(s.skip(1));
        }
        let n = name_run(s.skip(1));
        seq![(s.subrange(1, 1 + n as int), false)] + references(s.skip(1 + n as int))
    } else {
        references(s.drop_first())
    }
}

/// The views of scanned references.
pub open spec fn ref_views(v: Seq<(String, bool)>) -> Seq<(Seq<char>, bool)> {
    v.map_values(|p: (String, bool)| (p.0@, p.1))
}

/// The `$` references of an authored string (name, has_default), in order
/// of appearance.
pub fn scan_references(s: &str) -> (r: Vec<(String, bool)>)
    ensures
        ref_views(r@) == references(s@),
{
    let c = chars_of(s);
    let mut out: Vec<(String, bool)> = Vec::new();
    let mut i: usize = 0;
    assert(c@.skip(0) =~= c@);
    assert(ref_views(out@) =~= Seq::<(Seq<char>, bool)>::empty());
    while i < c.len()
        invariant
            i <= c.len(),
            c@ == s@,
            references(s@) == ref_views(out@) + references(c@.skip(i as int)),
        decreases c.len() - i,
    {
        let ghost t = c@.skip(i as int);
        assert(t[0] == c@[i as int]);
        if c[i] != '$' || i + 1 >= c.len() {
            assert(t.drop_first() =~= c@.skip(i + 1));
            i = i + 1;
        } else if c[i + 1] == '$' {
            assert(t[1] == c@[i + 1]);
            assert(t.skip(2) =~= c@.skip(i + 2));
            i = i + 2;
        } else if c[i + 1] == '{' {
            assert(t[1] == c@[i + 1]);
            assert(t.skip(2) =~= c@.skip(i + 2));
            match crate::text::find_from(&c, i + 2, '}') {
                None => {
                    assert(references(t) =~= Seq::<(Seq<char>, bool)>::empty());
                    assert(ref_views(out@) + Seq::<(Seq<char>, bool)>::empty() =~= ref_views(out@));
                    return out;
                },
                Some(end) => {
                    let inner = slice_vec(&c, i + 2, end);
                    let ghost cc = (end - (i + 2)) as int;
                    assert(first_index(t.skip(2), '}') == Some(cc));
                    assert(inner@ =~= t.subrange(2, 2 + cc));
                    let ghost before = ref_views(out@);
                    proof {
                        lemma_first_index(inner@, ':');
                    }
                    match crate::text::find_char(&inner, ':') {
                        Some(a) => {
                            let name = slice_vec(&inner, 0, a);
                            assert(name@ =~= inner@.take(a as int));
                            out.push((string_of(name.as_slice()), true));
                        },
                        None => {
                            out.push((string_of(inner.as_slice()), false));
                        },
                    }
                    assert(ref_views(out@) =~= before.push(references(t)[0]));
                    assert(t.skip(cc + 3) =~= c@.skip(end + 1));
                    assert(before + references(t) =~= ref_views(out@) + references(c@.skip(end + 1)));
                    i = end + 1;
                },
            }
        } else if name_start(c[i + 1]) {
            assert(t[1] == c@[i + 1]);
            let mut end = i + 1;
            proof {
                lemma_name_run(t.skip(1));
            }
            while end < c.len() && name_char(c[end])
                invariant
                    i + 1 <= end <= c.len(),
                    c@ == s@,
                    t == c@.skip(i as int),
                    forall|j: int| i + 1 <= j < end ==> is_name_char(#[trigger] c@[j]),
                decreases c.len() - end,
            {
                end = end + 1;
            }
            let ghost n = name_run(t.skip(1));
            proof {
                assert forall|j: int| 0 <= j < (end - i - 1) implies is_name_char(#[trigger] t.skip(1)[j]) by {
                    assert(t.skip(1)[j] == c@[i + 1 + j]);
                }
                if end < c.len() {
                    assert(t.skip(1)[end - i - 1] == c@[end as int]);
                }
                lemma_name_run_exact(t.skip(1), end - i - 1);
            }
            let name = slice_vec(&c, i + 1, end);
            assert(name@ =~= t.subrange(1, 1 + n as int));
            let ghost before = ref_views(out@);
            out.push((string_of(name.as_slice()), false));
            assert(ref_views(out@) =~= before.push(references(t)[0]));
            assert(t.skip(1 + n as int) =~= c@.skip(end as int));
            assert(before + references(t) =~= ref_views(out@) + references(c@.skip(end as int)));
            i = end;
        } else {
            assert(t[1] == c@[i + 1]);
            assert(t.drop_first() =~= c@.skip(i + 1));
            i = i + 1;
        }
    }
    assert(c@.skip(i as int) =~= Seq::<char>::empty());
    assert(ref_views(out@) + Seq::<(Seq<char>, bool)>::empty() =~= ref_views(out@));
    out
}

proof fn lemma_name_run_exact(s: Seq<char>, k: int)
    requires
        0 <= k <= s.len(),
        forall|j: int| 0 <= j < k ==> is_name_char(#[trigger] s[j]),
        k < s.len() ==> !is_name_char(s[k]),
    ensures
        name_run(s) == k,
    decreases k,
{
    if k > 0 {
        assert forall|j: int| 0 <= j < k - 1 implies is_name_char(#[trigger] s.drop_first()[j]) by {
            assert(s.drop_first()[j] == s[j + 1]);
        }
        if k - 1 < s.drop_first().len() {
            assert(s.drop_first()[k - 1] == s[k]);
        }
        lemma_name_run_exact(s.drop_first(), k - 1);
    }
}

} // verus!

verus! {

/// The SHA-256 digest of some bytes.
pub uninterp spec fn sha256(data: Seq<u8>) -> Seq<u8>;

/// Runs sha2's `Sha256::digest`. The contract claims that the digest is a
/// function of the bytes, named [`sha256`], and is 32 bytes long; which
/// bytes it is, is SHA-256 (FIPS 180-4) and not stated here.
#[verifier::external_body]
fn sha256_digest(data: &[u8]) -> (r: Vec<u8>)
    ensures
        r@ == sha256(data@),
        r@.len() == 32,
{
    sha2::Sha256::digest(data).to_vec()
}

/// Bytes in lowercase hex, two digits each.
pub open spec fn hex_text(b: Seq<u8>) -> Seq<char>
    decreases b.len(),
{
    if b.len() == 0 {
        Seq::empty()
    } else {
        hex_text(b.drop_last()) + seq![
            crate::jsonfmt::hex_digit((b.last() / 16) as int),
            crate::jsonfmt::hex_digit((b.last() % 16) as int),
        ]
    }
}

/// A revision: `sha256:` and the lowercase hex SHA-256 of the
/// bytes.
pub open spec fn revision_text(data: Seq<u8>) -> Seq<char> {
    "sha256:"@ + hex_text(sha256(data))
}

/// The revision of some bytes.
pub fn revision_of(data: &[u8]) -> (r: String)
    ensures
        r@ == revision_text(data@),
{
    let digest = sha256_digest(data);
    let mut out: Vec<char> = chars_of("sha256:");
    let ghost head = out@;
    let mut i: usize = 0;
    assert(digest@.take(0) =~= Seq::<u8>::empty());
    while i < digest.len()
        invariant
            i <= digest.len(),
            out@ == head + hex_text(digest@.take(i as int)),
        decreases digest.len() - i,
    {
        let b = digest[i];
        let hi = crate::jsonfmt::hex_char_of((b / 16) as u32);
        let lo = crate::jsonfmt::hex_char_of((b % 16) as u32);
        out.push(hi);
        out.push(lo);
        assert(digest@.take(i + 1).drop_last() =~= digest@.take(i as int));
        assert(digest@.take(i + 1).last() == b);
        i = i + 1;
    }
    assert(digest@.take(i as int) =~= digest@);
    string_of(out.as_slice())
}

/// The variables' fingerprint text: for each name, `=NAME=VALUE` and a newline
/// when it has a value, `-NAME` and a newline when it is unset.
pub open spec fn fingerprint_text(names: Seq<Seq<char>>, vars: spec_fn(Seq<char>) -> Option<Seq<char>>) -> Seq<char>
    decreases names.len(),
{
    if names.len() == 0 {
        Seq::empty()
    } else {
        let n = names.last();
        fingerprint_text(names.drop_last(), vars) + match vars(n) {
            Some(v) => seq!['='] + n + seq!['='] + v + seq!['\n'],
            None => seq!['-'] + n + seq!['\n'],
        }
    }
}

/// The fingerprint over the named variables: the revision of the
/// fingerprint text's UTF-8 bytes.
pub fn variables_revision(names: &Vec<String>, vars: &mut crate::envfile::Vars) -> (r: String)
    ensures
        r@ == revision_text(vstd::utf8::encode_utf8(
            fingerprint_text(crate::envfile::name_views(names@), crate::interp::value_fn(old(vars).process@, old(vars).files@)),
        )),
        final(vars).process == old(vars).process,
        final(vars).files == old(vars).files,
        final(vars).origins == old(vars).origins,
{
    let ghost vf = crate::interp::value_fn(vars.process@, vars.files@);
    let ghost nv = crate::envfile::name_views(names@);
    let mut text: Vec<char> = Vec::new();
    let mut i: usize = 0;
    assert(nv.take(0) =~= Seq::<Seq<char>>::empty());
    while i < names.len()
        invariant
            i <= names.len(),
            nv == crate::envfile::name_views(names@),
            nv.len() == names.len(),
            vf == crate::interp::value_fn(vars.process@, vars.files@),
            vars.process == old(vars).process,
            vars.files == old(vars).files,
            vars.origins == old(vars).origins,
            vf == crate::interp::value_fn(old(vars).process@, old(vars).files@),
            text@ == fingerprint_text(nv.take(i as int), vf),
        decreases names.len() - i,
    {
        let name = &names[i];
        let ghost before = text@;
        assert(nv.take(i + 1).drop_last() =~= nv.take(i as int));
        assert(nv.take(i + 1).last() == name@);
        let nc = chars_of(name.as_str());
        match vars.get(name.as_str()) {
            Some(v) => {
                let vc = chars_of(v.as_str());
                text.push('=');
                crate::jsonfmt::push_chars(&mut text, &nc);
                text.push('=');
                crate::jsonfmt::push_chars(&mut text, &vc);
                text.push('\n');
                assert(text@ =~= before + (seq!['='] + name@ + seq!['='] + v@ + seq!['\n']));
            },
            None => {
                text.push('-');
                crate::jsonfmt::push_chars(&mut text, &nc);
                text.push('\n');
                assert(text@ =~= before + (seq!['-'] + name@ + seq!['\n']));
            },
        }
        i = i + 1;
    }
    assert(nv.take(i as int) =~= nv);
    let s = string_of(text.as_slice());
    revision_of(s.as_str().as_bytes())
}

} // verus!

verus! {

/// The view of an edit.
pub struct EditV {
    /// The document key.
    pub document: Seq<char>,
    /// The operation.
    pub op: Op,
    /// The source pointer.
    pub pointer: Seq<char>,
    /// The value, if any.
    pub value: Option<JV>,
    /// The mode.
    pub mode: Mode,
}

/// The view of an edit.
pub open spec fn edit_view(e: Edit) -> EditV {
    EditV {
        document: e.document@,
        op: e.op,
        pointer: e.pointer@,
        value: match e.value {
            Some(v) => Some(v@),
            None => None,
        },
        mode: e.mode,
    }
}

/// The views of edits.
pub open spec fn edit_views(es: Seq<Edit>) -> Seq<EditV> {
    es.map_values(|e: Edit| edit_view(e))
}

/// A member that must be a string.
pub open spec fn string_member(es: Seq<(Seq<char>, JV)>, name: Seq<char>) -> Option<Seq<char>> {
    match crate::json::obj_get(es, name) {
        Some(JV::Str(s)) => Some(s),
        _ => None,
    }
}

/// One entry of a request's `edits` array: an object with
/// string `document`, `op` (`set` or `remove`), and `pointer`, an optional
/// `value`, and an optional `mode` (`literal`, the default, or
/// `expression`).
pub open spec fn edit_of(item: JV) -> Option<EditV> {
    match item {
        JV::Obj(m) => match string_member(m, "op"@) {
            None => None,
            Some(op_text) => {
                let op = if op_text == "set"@ { Some(Op::Put) } else if op_text == "remove"@ { Some(Op::Remove) } else { None };
                let mode = match crate::json::obj_get(m, "mode"@) {
                    None => Some(Mode::Literal),
                    Some(JV::Str(t)) => if t == "literal"@ { Some(Mode::Literal) } else if t == "expression"@ { Some(Mode::Expression) } else { None },
                    _ => None,
                };
                match (op, mode, string_member(m, "document"@), string_member(m, "pointer"@)) {
                    (Some(o), Some(md), Some(d), Some(p)) => Some(EditV { document: d, op: o, pointer: p, value: crate::json::obj_get(m, "value"@), mode: md }),
                    _ => None,
                }
            },
        },
        _ => None,
    }
}

/// Every entry of the list, in order; `None` if any is not an edit.
pub open spec fn edits_of(items: Seq<JV>) -> Option<Seq<EditV>>
    decreases items.len(),
{
    if items.len() == 0 {
        Some(Seq::empty())
    } else {
        match (edit_of(items[0]), edits_of(items.drop_first())) {
            (Some(e), Some(rest)) => Some(seq![e] + rest),
            _ => None,
        }
    }
}

pub(crate) fn member<'a>(entries: &'a Vec<(String, Json)>, name: &str) -> (r: Option<&'a Json>)
    ensures
        r matches Some(j) ==> crate::json::obj_get(jv_entries(entries@), name@) == Some(j@),
        r is None ==> crate::json::obj_get(jv_entries(entries@), name@) is None,
{
    proof {
        lemma_jv_entries(entries@);
    }
    let (p, found) = crate::json::obj_find(entries, name);
    if found {
        Some(&entries[p].1)
    } else {
        None
    }
}

fn string_field(entries: &Vec<(String, Json)>, name: &str) -> (r: Option<String>)
    ensures
        r matches Some(s) ==> string_member(jv_entries(entries@), name@) == Some(s@),
        r is None ==> string_member(jv_entries(entries@), name@) is None,
{
    match member(entries, name) {
        Some(Json::Str(s)) => Some(s.clone()),
        _ => None,
    }
}

fn bad_edit(i: usize, detail: &str) -> (e: Error)
    ensures
        e.spec_code() == ErrorCode::Edit,
{
    Error::new(ErrorCode::Edit, crate::text::concat3("edit ", crate::text::count_text(i).as_str(), detail))
}

/// Decodes the `edits` array of an edit request into [`Edit`]s. Anything
/// that is not a well-formed edit list is `E_EDIT`.
pub fn parse_edits(edits: &Json) -> (r: Result<Vec<Edit>, Error>)
    ensures
        r is Ok <==> (edits@ is Arr && edits_of(edits@->Arr_0) is Some),
        r matches Ok(es) ==> edit_views(es@) == edits_of(edits@->Arr_0)->Some_0,
        r matches Err(e) ==> e.spec_code() == ErrorCode::Edit,
{
    broadcast use lemma_jv_seq;
    let items = match edits {
        Json::Array(items) => items,
        _ => {
            return Err(Error::new(ErrorCode::Edit, owned("\"edits\" must be an array")));
        },
    };
    let ghost iv = jv_seq(items@);
    let mut out: Vec<Edit> = Vec::new();
    let mut i: usize = 0;
    assert(iv.skip(0) =~= iv);
    proof {
        reveal_strlit("set");
        reveal_strlit("remove");
        reveal_strlit("literal");
        reveal_strlit("expression");
    }
    while i < items.len()
        invariant
            i <= items.len(),
            iv == jv_seq(items@),
            iv.len() == items.len(),
            edits@ == JV::Arr(iv),
            edits_of(iv) == match edits_of(iv.skip(i as int)) {
                Some(rest) => Some(edit_views(out@) + rest),
                None => None::<Seq<EditV>>,
            },
        decreases items.len() - i,
    {
        let ghost t = iv.skip(i as int);
        proof {
            lemma_jv_seq(items@);
        }
        assert(iv[i as int] == jv_of(items@[i as int]));
        assert(t[0] == iv[i as int]);
        assert(t.drop_first() =~= iv.skip(i + 1));
        let m = match &items[i] {
            Json::Object(m) => m,
            _ => {
                return Err(bad_edit(i, " is not an object"));
            },
        };
        let op_text = match string_field(m, "op") {
            Some(s) => s,
            None => {
                return Err(bad_edit(i, " lacks a string \"op\""));
            },
        };
        let op = if crate::text::same_text(op_text.as_str(), "set") {
            Op::Put
        } else if crate::text::same_text(op_text.as_str(), "remove") {
            Op::Remove
        } else {
            return Err(bad_edit(i, ": unknown op (want \"set\" or \"remove\")"));
        };
        let mode = match member(m, "mode") {
            None => Mode::Literal,
            Some(Json::Str(t)) => {
                if crate::text::same_text(t.as_str(), "literal") {
                    Mode::Literal
                } else if crate::text::same_text(t.as_str(), "expression") {
                    Mode::Expression
                } else {
                    return Err(bad_edit(i, ": unknown mode"));
                }
            },
            Some(_) => {
                return Err(bad_edit(i, ": unknown mode"));
            },
        };
        let document = match string_field(m, "document") {
            Some(s) => s,
            None => {
                return Err(bad_edit(i, " lacks a string \"document\""));
            },
        };
        let pointer = match string_field(m, "pointer") {
            Some(s) => s,
            None => {
                return Err(bad_edit(i, " lacks a string \"pointer\""));
            },
        };
        let value = match member(m, "value") {
            Some(v) => Some(crate::json::copy_json(v)),
            None => None,
        };
        let e = Edit { document, op, pointer, value, mode };
        assert(edit_of(t[0]) == Some(edit_view(e)));
        let ghost prev = out@;
        out.push(e);
        assert(edit_views(out@) =~= edit_views(prev).push(edit_view(e)));
        proof {
            match edits_of(iv.skip(i + 1)) {
                Some(rest) => {
                    assert(edit_views(prev) + (seq![edit_view(e)] + rest) =~= edit_views(out@) + rest);
                },
                None => {},
            }
        }
        i = i + 1;
    }
    assert(iv.skip(i as int) =~= Seq::<JV>::empty());
    assert(edit_views(out@) + Seq::<EditV>::empty() =~= edit_views(out@));
    Ok(out)
}

} // verus!

verus! {

/// Numbers compare numerically: integers by value, an integer with an
/// integral number by that number's value (at any size), other numbers by
/// their shortest round-trip text, and integral values below 2^53 by value,
/// whichever way they are written (both zeros alike).
pub open spec fn num_eq(a: NumV, b: NumV) -> bool {
    match (a, b) {
        (NumV::Int(i), NumV::Int(j)) => i == j,
        (NumV::Float(t), NumV::Float(u)) => t == u || (crate::jsonfmt::integral_float(t) is Some
            && crate::jsonfmt::integral_float(t) == crate::jsonfmt::integral_float(u)),
        (NumV::Int(i), NumV::Float(t)) => crate::jsonfmt::integral_value(t) == Some(i),
        (NumV::Float(t), NumV::Int(i)) => crate::jsonfmt::integral_value(t) == Some(i),
    }
}

/// A pointer one token deeper.
pub open spec fn child_pointer(ptr: Seq<char>, token: Seq<char>) -> Seq<char> {
    ptr + seq!['/'] + crate::pointer::escape_spec(token)
}

/// The shallowest pointers at which two values differ, in
/// traversal order: objects member by member (a member present in only one
/// is affected at its own pointer), arrays of equal length element by
/// element, and anything else (arrays of different lengths, values of
/// different kinds, unequal scalars) at its own pointer.
pub open spec fn diff_spec(a: JV, b: JV, ptr: Seq<char>) -> Seq<Seq<char>>
    decreases a,
{
    match a {
        JV::Obj(x) => match b {
            JV::Obj(y) => members_diff(x, y, ptr) + missing_members(y, x, ptr),
            _ => seq![ptr],
        },
        JV::Arr(x) => match b {
            JV::Arr(y) => if x.len() == y.len() { items_diff(x, y, ptr, 0) } else { seq![ptr] },
            _ => seq![ptr],
        },
        JV::Num(m) => match b {
            JV::Num(n) => if num_eq(m, n) { Seq::empty() } else { seq![ptr] },
            _ => seq![ptr],
        },
        _ => if a == b { Seq::empty() } else { seq![ptr] },
    }
}

/// The differences of `x`'s members against `y`'s.
pub open spec fn members_diff(x: Seq<(Seq<char>, JV)>, y: Seq<(Seq<char>, JV)>, ptr: Seq<char>) -> Seq<Seq<char>>
    decreases x,
{
    if x.len() == 0 {
        Seq::empty()
    } else {
        (match crate::json::obj_get(y, x[0].0) {
            Some(w) => diff_spec(x[0].1, w, child_pointer(ptr, x[0].0)),
            None => seq![child_pointer(ptr, x[0].0)],
        }) + members_diff(x.drop_first(), y, ptr)
    }
}

/// The pointers of `y`'s members that `x` lacks.
pub open spec fn missing_members(y: Seq<(Seq<char>, JV)>, x: Seq<(Seq<char>, JV)>, ptr: Seq<char>) -> Seq<Seq<char>>
    decreases y.len(),
{
    if y.len() == 0 {
        Seq::empty()
    } else {
        (if crate::json::obj_get(x, y[0].0) is None { seq![child_pointer(ptr, y[0].0)] } else { Seq::empty() })
            + missing_members(y.drop_first(), x, ptr)
    }
}

/// The differences of equal-length arrays, element `start + i` under its
/// index.
pub open spec fn items_diff(x: Seq<JV>, y: Seq<JV>, ptr: Seq<char>, start: nat) -> Seq<Seq<char>>
    decreases x,
{
    if x.len() == 0 || y.len() == 0 {
        Seq::empty()
    } else {
        diff_spec(x[0], y[0], child_pointer(ptr, crate::text::dec_spec(start))) + items_diff(x.drop_first(), y.drop_first(), ptr, start + 1)
    }
}

/// The affected pointers: the differences, sorted by code
/// point.
pub open spec fn affected_spec(before: JV, after: JV) -> Seq<Seq<char>> {
    crate::load::sort_names(diff_spec(before, after, Seq::empty()))
}

fn num_equal(a: &crate::json::Number, b: &crate::json::Number) -> (r: bool)
    ensures
        r == num_eq(a@, b@),
{
    match (a, b) {
        (crate::json::Number::Float(t), crate::json::Number::Float(u)) => {
            if crate::text::same_text(t.as_str(), u.as_str()) {
                return true;
            }
            let x = crate::jsonfmt::integral_float_value(&chars_of(t.as_str()));
            let y = crate::jsonfmt::integral_float_value(&chars_of(u.as_str()));
            match (x, y) {
                (Some(i), Some(j)) => i == j,
                _ => false,
            }
        },
        (crate::json::Number::Float(t), _) => {
            let c = chars_of(t.as_str());
            match crate::jsonfmt::integral_magnitude(&c) {
                Some((neg, m)) => int_equals(b, neg, m),
                None => false,
            }
        },
        (_, crate::json::Number::Float(u)) => {
            let c = chars_of(u.as_str());
            match crate::jsonfmt::integral_magnitude(&c) {
                Some((neg, m)) => int_equals(a, neg, m),
                None => false,
            }
        },
        (crate::json::Number::Int(i), crate::json::Number::Int(j)) => *i == *j,
        (crate::json::Number::UInt(i), crate::json::Number::UInt(j)) => *i == *j,
        (crate::json::Number::Int(i), crate::json::Number::UInt(j)) => *i >= 0 && (*i as u64) == *j,
        (crate::json::Number::UInt(i), crate::json::Number::Int(j)) => *j >= 0 && (*j as u64) == *i,
    }
}

fn int_equals(n: &crate::json::Number, neg: bool, m: u64) -> (r: bool)
    requires
        !(n@ is Float),
    ensures
        r == (n@ == NumV::Int(if neg { -(m as int) } else { m as int })),
{
    let v: i128 = if neg { 0 - (m as i128) } else { m as i128 };
    match n {
        crate::json::Number::Int(i) => (*i as i128) == v,
        crate::json::Number::UInt(u) => (*u as i128) == v,
        crate::json::Number::Float(_) => false,
    }
}

} // verus!

verus! {

fn scalar_equal(a: &Json, b: &Json) -> (r: bool)
    requires
        !(a@ is Obj || a@ is Arr || a@ is Num),
    ensures
        r == (a@ == b@),
{
    match (a, b) {
        (Json::Null, Json::Null) => true,
        (Json::Bool(x), Json::Bool(y)) => *x == *y,
        (Json::Str(s), Json::Str(t)) => crate::text::same_text(s.as_str(), t.as_str()),
        _ => false,
    }
}

fn child(ptr: &str, token: &str) -> (r: String)
    ensures
        r@ == child_pointer(ptr@, token@),
{
    let t = crate::pointer::escape_token(token);
    proof {
        reveal_strlit("/");
    }
    crate::text::concat3(ptr, "/", t.as_str())
}

fn push_name(out: &mut Vec<String>, s: String)
    ensures
        crate::envfile::name_views(final(out)@) == crate::envfile::name_views(old(out)@).push(s@),
{
    let ghost before = crate::envfile::name_views(out@);
    out.push(s);
    assert(crate::envfile::name_views(out@) =~= before.push(s@));
}

/// Appends the shallowest pointers at which `a` and `b` differ.
pub fn diff_into(a: &Json, b: &Json, ptr: &str, out: &mut Vec<String>)
    ensures
        crate::envfile::name_views(final(out)@) == crate::envfile::name_views(old(out)@) + diff_spec(a@, b@, ptr@),
    decreases jv_of(*a),
{
    broadcast use lemma_jv_seq, lemma_jv_entries;
    let ghost base = crate::envfile::name_views(out@);
    match (a, b) {
        (Json::Object(x), Json::Object(y)) => {
            let ghost xv = jv_entries(x@);
            let ghost yv = jv_entries(y@);
            let mut i: usize = 0;
            assert(xv.skip(0) =~= xv);
            assert(base + Seq::<Seq<char>>::empty() =~= base);
            while i < x.len()
                invariant
                    i <= x.len(),
                    xv == jv_entries(x@),
                    yv == jv_entries(y@),
                    xv.len() == x.len(),
                    forall|k: int| 0 <= k < xv.len() ==> #[trigger] xv[k] == (x@[k].0@, jv_of(x@[k].1)),
                    *a == Json::Object(*x),
                    *b == Json::Object(*y),
                    base == crate::envfile::name_views(old(out)@),
                    base + members_diff(xv, yv, ptr@) == crate::envfile::name_views(out@) + members_diff(xv.skip(i as int), yv, ptr@),
                decreases x.len() - i,
            {
                proof {
                    let o = JV::Obj(xv);
                    assert(decreases_to!(o => o->Obj_0));
                    assert(decreases_to!(xv => xv[i as int]));
                    assert(decreases_to!(xv[i as int] => xv[i as int].1));
                    assert(xv.skip(i as int)[0] == xv[i as int]);
                    assert(xv.skip(i as int).drop_first() =~= xv.skip(i + 1));
                }
                let ghost mid = crate::envfile::name_views(out@);
                let cp = child(ptr, x[i].0.as_str());
                match member(y, x[i].0.as_str()) {
                    Some(w) => {
                        diff_into(&x[i].1, w, cp.as_str(), out);
                    },
                    None => {
                        push_name(out, cp);
                        assert(seq![child_pointer(ptr@, xv[i as int].0)] =~= Seq::<Seq<char>>::empty().push(child_pointer(ptr@, xv[i as int].0)));
                    },
                }
                proof {
                    let d = match crate::json::obj_get(yv, xv[i as int].0) {
                        Some(w) => diff_spec(xv[i as int].1, w, child_pointer(ptr@, xv[i as int].0)),
                        None => seq![child_pointer(ptr@, xv[i as int].0)],
                    };
                    assert(crate::envfile::name_views(out@) =~= mid + d);
                    assert(mid + members_diff(xv.skip(i as int), yv, ptr@) =~= (mid + d) + members_diff(xv.skip(i + 1), yv, ptr@));
                }
                i = i + 1;
            }
            assert(xv.skip(i as int) =~= Seq::<(Seq<char>, JV)>::empty());
            let ghost after_members = crate::envfile::name_views(out@);
            assert(after_members =~= base + members_diff(xv, yv, ptr@));
            let mut j: usize = 0;
            assert(yv.skip(0) =~= yv);
            while j < y.len()
                invariant
                    j <= y.len(),
                    xv == jv_entries(x@),
                    yv == jv_entries(y@),
                    yv.len() == y.len(),
                    forall|k: int| 0 <= k < yv.len() ==> #[trigger] yv[k] == (y@[k].0@, jv_of(y@[k].1)),
                    after_members + missing_members(yv, xv, ptr@) == crate::envfile::name_views(out@) + missing_members(yv.skip(j as int), xv, ptr@),
                decreases y.len() - j,
            {
                assert(yv.skip(j as int)[0] == yv[j as int]);
                assert(yv.skip(j as int).drop_first() =~= yv.skip(j + 1));
                let ghost mid = crate::envfile::name_views(out@);
                match member(x, y[j].0.as_str()) {
                    Some(_) => {
                        assert(mid + missing_members(yv.skip(j as int), xv, ptr@) =~= mid + missing_members(yv.skip(j + 1), xv, ptr@));
                    },
                    None => {
                        let cp = child(ptr, y[j].0.as_str());
                        push_name(out, cp);
                        assert(mid + missing_members(yv.skip(j as int), xv, ptr@) =~= mid.push(child_pointer(ptr@, yv[j as int].0)) + missing_members(yv.skip(j + 1), xv, ptr@));
                    },
                }
                j = j + 1;
            }
            assert(yv.skip(j as int) =~= Seq::<(Seq<char>, JV)>::empty());
            assert(crate::envfile::name_views(out@) =~= base + (members_diff(xv, yv, ptr@) + missing_members(yv, xv, ptr@)));
        },
        (Json::Array(x), Json::Array(y)) => {
            proof {
                lemma_jv_seq(x@);
                lemma_jv_seq(y@);
            }
            if x.len() != y.len() {
                push_name(out, owned(ptr));
                assert(crate::envfile::name_views(out@) =~= base + seq![ptr@]);
                return;
            }
            let ghost xv = jv_seq(x@);
            let ghost yv = jv_seq(y@);
            let mut i: usize = 0;
            assert(xv.skip(0) =~= xv);
            assert(yv.skip(0) =~= yv);
            assert(base + Seq::<Seq<char>>::empty() =~= base);
            while i < x.len()
                invariant
                    i <= x.len(),
                    x.len() == y.len(),
                    xv == jv_seq(x@),
                    yv == jv_seq(y@),
                    xv.len() == x.len(),
                    yv.len() == y.len(),
                    forall|k: int| 0 <= k < xv.len() ==> #[trigger] xv[k] == jv_of(x@[k]),
                    forall|k: int| 0 <= k < yv.len() ==> #[trigger] yv[k] == jv_of(y@[k]),
                    *a == Json::Array(*x),
                    base == crate::envfile::name_views(old(out)@),
                    base + items_diff(xv, yv, ptr@, 0) == crate::envfile::name_views(out@) + items_diff(xv.skip(i as int), yv.skip(i as int), ptr@, i as nat),
                decreases x.len() - i,
            {
                proof {
                    let o = JV::Arr(xv);
                    assert(decreases_to!(o => o->Arr_0));
                    assert(decreases_to!(xv => xv[i as int]));
                    assert(xv.skip(i as int)[0] == xv[i as int]);
                    assert(yv.skip(i as int)[0] == yv[i as int]);
                    assert(xv.skip(i as int).drop_first() =~= xv.skip(i + 1));
                    assert(yv.skip(i as int).drop_first() =~= yv.skip(i + 1));
                }
                let ghost mid = crate::envfile::name_views(out@);
                let tok = crate::text::count_text(i);
                let cp = child(ptr, tok.as_str());
                diff_into(&x[i], &y[i], cp.as_str(), out);
                assert(mid + items_diff(xv.skip(i as int), yv.skip(i as int), ptr@, i as nat) =~= crate::envfile::name_views(out@)
                    + items_diff(xv.skip(i + 1), yv.skip(i + 1), ptr@, (i + 1) as nat));
                i = i + 1;
            }
            assert(xv.skip(i as int) =~= Seq::<JV>::empty());
            assert(crate::envfile::name_views(out@) + Seq::<Seq<char>>::empty() =~= crate::envfile::name_views(out@));
        },
        (Json::Number(m), Json::Number(n)) => {
            if !num_equal(m, n) {
                push_name(out, owned(ptr));
                assert(crate::envfile::name_views(out@) =~= base + seq![ptr@]);
            } else {
                assert(base + Seq::<Seq<char>>::empty() =~= base);
            }
        },
        (Json::Object(_), _) | (Json::Array(_), _) | (Json::Number(_), _) => {
            push_name(out, owned(ptr));
            assert(crate::envfile::name_views(out@) =~= base + seq![ptr@]);
        },
        _ => {
            if !scalar_equal(a, b) {
                push_name(out, owned(ptr));
                assert(crate::envfile::name_views(out@) =~= base + seq![ptr@]);
            } else {
                assert(base + Seq::<Seq<char>>::empty() =~= base);
            }
        },
    }
}

/// The diff of two trees: the shallowest effective pointers at which `before`
/// and `after` differ, sorted by code point.
pub fn affected_pointers(before: &Json, after: &Json) -> (r: Vec<String>)
    ensures
        crate::envfile::name_views(r@) == affected_spec(before@, after@),
{
    let mut out: Vec<String> = Vec::new();
    assert(crate::envfile::name_views(out@) =~= Seq::<Seq<char>>::empty());
    proof {
        reveal_strlit("");
    }
    diff_into(before, after, "", &mut out);
    assert(Seq::<Seq<char>>::empty() + diff_spec(before@, after@, ""@) =~= diff_spec(before@, after@, ""@));
    assert(""@ =~= Seq::<char>::empty());
    crate::load::sorted(&out)
}

} // verus!

verus! {

/// A measure that lets a collection's proof step into its members.
pub open spec fn width(a: JV) -> nat {
    match a {
        JV::Obj(x) => x.len() + 1,
        JV::Arr(x) => x.len() + 1,
        _ => 0,
    }
}

proof fn lemma_missing_self(full: Seq<(Seq<char>, JV)>, k: int, p: Seq<char>)
    requires
        crate::json::keys_sorted(full),
        0 <= k <= full.len(),
    ensures
        missing_members(full.skip(k), full, p) == Seq::<Seq<char>>::empty(),
    decreases full.len() - k,
{
    if k < full.len() {
        assert(full.skip(k)[0] == full[k]);
        assert(full.skip(k).drop_first() =~= full.skip(k + 1));
        crate::json::lemma_obj_get_at(full, k);
        lemma_missing_self(full, k + 1, p);
        assert(Seq::<Seq<char>>::empty() + Seq::<Seq<char>>::empty() =~= Seq::<Seq<char>>::empty());
    } else {
        assert(full.skip(k) =~= Seq::<(Seq<char>, JV)>::empty());
    }
}

proof fn lemma_members_self(a: JV, full: Seq<(Seq<char>, JV)>, k: int, p: Seq<char>)
    requires
        a == JV::Obj(full),
        crate::pointer::jv_wf(a),
        0 <= k <= full.len(),
    ensures
        members_diff(full.skip(k), full, p) == Seq::<Seq<char>>::empty(),
    decreases a, full.len() - k,
{
    if k < full.len() {
        assert(full.skip(k)[0] == full[k]);
        assert(full.skip(k).drop_first() =~= full.skip(k + 1));
        crate::json::lemma_obj_get_at(full, k);
        assert(decreases_to!(a => a->Obj_0));
        assert(decreases_to!(full => full[k]));
        assert(decreases_to!(full[k] => full[k].1));
        lemma_diff_self(full[k].1, child_pointer(p, full[k].0));
        lemma_members_self(a, full, k + 1, p);
        assert(Seq::<Seq<char>>::empty() + Seq::<Seq<char>>::empty() =~= Seq::<Seq<char>>::empty());
    } else {
        assert(full.skip(k) =~= Seq::<(Seq<char>, JV)>::empty());
    }
}

proof fn lemma_items_self(a: JV, full: Seq<JV>, k: int, p: Seq<char>)
    requires
        a == JV::Arr(full),
        crate::pointer::jv_wf(a),
        0 <= k <= full.len(),
    ensures
        items_diff(full.skip(k), full.skip(k), p, k as nat) == Seq::<Seq<char>>::empty(),
    decreases a, full.len() - k,
{
    if k < full.len() {
        assert(full.skip(k)[0] == full[k]);
        assert(full.skip(k).drop_first() =~= full.skip(k + 1));
        assert(decreases_to!(a => a->Arr_0));
        assert(decreases_to!(full => full[k]));
        lemma_diff_self(full[k], child_pointer(p, crate::text::dec_spec(k as nat)));
        lemma_items_self(a, full, k + 1, p);
        assert(Seq::<Seq<char>>::empty() + Seq::<Seq<char>>::empty() =~= Seq::<Seq<char>>::empty());
    } else {
        assert(full.skip(k) =~= Seq::<JV>::empty());
    }
}

proof fn lemma_diff_self(a: JV, p: Seq<char>)
    requires
        crate::pointer::jv_wf(a),
    ensures
        diff_spec(a, a, p) == Seq::<Seq<char>>::empty(),
    decreases a, width(a),
{
    match a {
        JV::Obj(x) => {
            lemma_members_self(a, x, 0, p);
            lemma_missing_self(x, 0, p);
            assert(x.skip(0) =~= x);
            assert(Seq::<Seq<char>>::empty() + Seq::<Seq<char>>::empty() =~= Seq::<Seq<char>>::empty());
        },
        JV::Arr(x) => {
            lemma_items_self(a, x, 0, p);
            assert(x.skip(0) =~= x);
        },
        _ => {},
    }
}

/// Two values are the same value: objects with the same member names whose
/// values are the same, arrays of the same length whose elements are the same,
/// numbers equal numerically, other scalars equal.
pub open spec fn same_value(a: JV, b: JV) -> bool
    decreases a,
{
    match a {
        JV::Obj(x) => match b {
            JV::Obj(y) => same_members(x, y) && covers(x, y),
            _ => false,
        },
        JV::Arr(x) => match b {
            JV::Arr(y) => x.len() == y.len() && same_items(x, y),
            _ => false,
        },
        JV::Num(m) => match b {
            JV::Num(n) => num_eq(m, n),
            _ => false,
        },
        _ => a == b,
    }
}

/// Each member of `x` has a member of the same name in `y` with the same value.
pub open spec fn same_members(x: Seq<(Seq<char>, JV)>, y: Seq<(Seq<char>, JV)>) -> bool
    decreases x,
{
    x.len() == 0 || (match crate::json::obj_get(y, x[0].0) {
        Some(w) => same_value(x[0].1, w),
        None => false,
    } && same_members(x.drop_first(), y))
}

/// Each member name of `y` is a member name of `x`.
pub open spec fn covers(x: Seq<(Seq<char>, JV)>, y: Seq<(Seq<char>, JV)>) -> bool {
    forall|j: int| 0 <= j < y.len() ==> crate::json::obj_get(x, #[trigger] y[j].0) is Some
}

/// Elements at equal positions are the same.
pub open spec fn same_items(x: Seq<JV>, y: Seq<JV>) -> bool
    decreases x,
{
    x.len() == 0 || y.len() == 0 || (same_value(x[0], y[0]) && same_items(x.drop_first(), y.drop_first()))
}

proof fn lemma_missing_empty(y: Seq<(Seq<char>, JV)>, x: Seq<(Seq<char>, JV)>, p: Seq<char>)
    ensures
        (missing_members(y, x, p).len() == 0) == covers(x, y),
    decreases y.len(),
{
    if y.len() > 0 {
        lemma_missing_empty(y.drop_first(), x, p);
        if covers(x, y) {
            assert(crate::json::obj_get(x, y[0].0) is Some);
            assert forall|j: int| 0 <= j < y.drop_first().len() implies crate::json::obj_get(x, #[trigger] y.drop_first()[j].0) is Some by {
                assert(y.drop_first()[j] == y[j + 1]);
            }
        } else if crate::json::obj_get(x, y[0].0) is Some {
            let j = choose|j: int| 0 <= j < y.len() && !(crate::json::obj_get(x, #[trigger] y[j].0) is Some);
            assert(j > 0);
            assert(y.drop_first()[j - 1] == y[j]);
        }
    }
}

proof fn lemma_members_empty(x: Seq<(Seq<char>, JV)>, y: Seq<(Seq<char>, JV)>, p: Seq<char>)
    ensures
        (members_diff(x, y, p).len() == 0) == same_members(x, y),
    decreases x,
{
    if x.len() > 0 {
        assert(decreases_to!(x => x[0]));
        assert(decreases_to!(x[0] => x[0].1));
        match crate::json::obj_get(y, x[0].0) {
            Some(w) => lemma_diff_empty(x[0].1, w, child_pointer(p, x[0].0)),
            None => {},
        }
        lemma_members_empty(x.drop_first(), y, p);
    }
}

proof fn lemma_items_empty(x: Seq<JV>, y: Seq<JV>, p: Seq<char>, start: nat)
    ensures
        (items_diff(x, y, p, start).len() == 0) == same_items(x, y),
    decreases x,
{
    if x.len() > 0 && y.len() > 0 {
        assert(decreases_to!(x => x[0]));
        lemma_diff_empty(x[0], y[0], child_pointer(p, crate::text::dec_spec(start)));
        lemma_items_empty(x.drop_first(), y.drop_first(), p, start + 1);
    }
}

proof fn lemma_diff_empty(a: JV, b: JV, p: Seq<char>)
    ensures
        (diff_spec(a, b, p).len() == 0) == same_value(a, b),
    decreases a,
{
    match a {
        JV::Obj(x) => match b {
            JV::Obj(y) => {
                lemma_members_empty(x, y, p);
                lemma_missing_empty(y, x, p);
            },
            _ => {},
        },
        JV::Arr(x) => match b {
            JV::Arr(y) => if x.len() == y.len() {
                lemma_items_empty(x, y, p, 0);
            },
            _ => {},
        },
        _ => {},
    }
}

/// A diff is empty exactly when the two trees are the same value (numbers
/// compared numerically).
pub proof fn law_affected_empty_iff_same(before: JV, after: JV)
    ensures
        (affected_spec(before, after).len() == 0) == same_value(before, after),
{
    lemma_diff_empty(before, after, Seq::empty());
    crate::load::lemma_sort_names_sorted(diff_spec(before, after, Seq::empty()));
}

/// The affected pointers come in code-point order.
pub proof fn law_affected_sorted(before: JV, after: JV)
    ensures
        crate::load::names_sorted(affected_spec(before, after)),
{
    crate::load::lemma_sort_names_sorted(diff_spec(before, after, Seq::empty()));
}

/// The differences of the members that both objects have, in `x`'s order.
spec fn shared_diff(x: Seq<(Seq<char>, JV)>, y: Seq<(Seq<char>, JV)>, ptr: Seq<char>) -> Seq<Seq<char>>
    decreases x,
{
    if x.len() == 0 {
        Seq::empty()
    } else {
        (match crate::json::obj_get(y, x[0].0) {
            Some(w) => diff_spec(x[0].1, w, child_pointer(ptr, x[0].0)),
            None => Seq::empty(),
        }) + shared_diff(x.drop_first(), y, ptr)
    }
}

/// The same differences found by walking both sorted member lists at once.
spec fn merged_diff(x: Seq<(Seq<char>, JV)>, y: Seq<(Seq<char>, JV)>, ptr: Seq<char>) -> Seq<Seq<char>>
    decreases x.len() + y.len(),
{
    if x.len() == 0 || y.len() == 0 {
        Seq::empty()
    } else if x[0].0 == y[0].0 {
        diff_spec(x[0].1, y[0].1, child_pointer(ptr, x[0].0)) + merged_diff(x.drop_first(), y.drop_first(), ptr)
    } else if crate::text::key_lt(x[0].0, y[0].0) {
        merged_diff(x.drop_first(), y, ptr)
    } else {
        merged_diff(x, y.drop_first(), ptr)
    }
}

proof fn lemma_members_split(x: Seq<(Seq<char>, JV)>, y: Seq<(Seq<char>, JV)>, p: Seq<char>)
    ensures
        members_diff(x, y, p).to_multiset() == shared_diff(x, y, p).to_multiset().add(missing_members(x, y, p).to_multiset()),
    decreases x.len(),
{
    broadcast use vstd::seq_lib::lemma_multiset_commutative;
    broadcast use vstd::multiset::group_multiset_axioms;

    if x.len() > 0 {
        lemma_members_split(x.drop_first(), y, p);
        let c = child_pointer(p, x[0].0);
        let m1 = members_diff(x.drop_first(), y, p).to_multiset();
        let s1 = shared_diff(x.drop_first(), y, p).to_multiset();
        let n1 = missing_members(x.drop_first(), y, p).to_multiset();
        match crate::json::obj_get(y, x[0].0) {
            Some(w) => {
                let d = diff_spec(x[0].1, w, c);
                assert(members_diff(x, y, p) == d + members_diff(x.drop_first(), y, p));
                assert(shared_diff(x, y, p) == d + shared_diff(x.drop_first(), y, p));
                assert(missing_members(x, y, p) =~= missing_members(x.drop_first(), y, p));
                vstd::seq_lib::lemma_multiset_commutative(d, members_diff(x.drop_first(), y, p));
                vstd::seq_lib::lemma_multiset_commutative(d, shared_diff(x.drop_first(), y, p));
                assert(members_diff(x, y, p).to_multiset() =~= shared_diff(x, y, p).to_multiset().add(missing_members(x, y, p).to_multiset()));
            },
            None => {
                assert(members_diff(x, y, p) == seq![c] + members_diff(x.drop_first(), y, p));
                assert(shared_diff(x, y, p) =~= shared_diff(x.drop_first(), y, p));
                assert(missing_members(x, y, p) == seq![c] + missing_members(x.drop_first(), y, p));
                vstd::seq_lib::lemma_multiset_commutative(seq![c], members_diff(x.drop_first(), y, p));
                vstd::seq_lib::lemma_multiset_commutative(seq![c], missing_members(x.drop_first(), y, p));
                assert(members_diff(x, y, p).to_multiset() =~= shared_diff(x, y, p).to_multiset().add(missing_members(x, y, p).to_multiset()));
            },
        }
        assert(members_diff(x, y, p).to_multiset() =~= shared_diff(x, y, p).to_multiset().add(missing_members(x, y, p).to_multiset()));
    } else {
        broadcast use vstd::seq_lib::group_to_multiset_ensures;
        let e = Seq::<Seq<char>>::empty();
        assert(members_diff(x, y, p) == e && shared_diff(x, y, p) == e && missing_members(x, y, p) == e);
        assert forall|q: Seq<char>| e.to_multiset().count(q) == 0 by {
            assert(!e.contains(q));
        }
        assert(members_diff(x, y, p).to_multiset() =~= shared_diff(x, y, p).to_multiset().add(missing_members(x, y, p).to_multiset()));
    }
}

proof fn lemma_obj_get_past_first(y: Seq<(Seq<char>, JV)>, k: Seq<char>)
    requires
        y.len() > 0,
        crate::text::key_lt(y[0].0, k),
    ensures
        crate::json::obj_get(y, k) == crate::json::obj_get(y.drop_first(), k),
{
    let q = crate::json::obj_pos(y.drop_first(), k);
    crate::json::lemma_obj_pos(y.drop_first(), k);
    assert(crate::json::obj_pos(y, k) == 1 + q);
    if q < y.drop_first().len() {
        assert(y[1 + q] == y.drop_first()[q]);
    }
}

proof fn lemma_shared_skip(x: Seq<(Seq<char>, JV)>, y: Seq<(Seq<char>, JV)>, p: Seq<char>)
    requires
        y.len() > 0,
        forall|i: int| 0 <= i < x.len() ==> crate::text::key_lt(y[0].0, #[trigger] x[i].0),
    ensures
        shared_diff(x, y, p) == shared_diff(x, y.drop_first(), p),
    decreases x.len(),
{
    if x.len() > 0 {
        lemma_obj_get_past_first(y, x[0].0);
        assert forall|i: int| 0 <= i < x.drop_first().len() implies crate::text::key_lt(y[0].0, #[trigger] x.drop_first()[i].0) by {
            assert(x.drop_first()[i] == x[i + 1]);
        }
        lemma_shared_skip(x.drop_first(), y, p);
    }
}

proof fn lemma_shared_merged(x: Seq<(Seq<char>, JV)>, y: Seq<(Seq<char>, JV)>, p: Seq<char>)
    requires
        crate::json::keys_sorted(x),
    ensures
        shared_diff(x, y, p) == merged_diff(x, y, p),
    decreases x.len() + y.len(),
{
    if x.len() == 0 {
    } else {
        let x1 = x.drop_first();
        assert(crate::json::keys_sorted(x1)) by {
            assert forall|i: int, j: int| 0 <= i < j < x1.len() implies crate::text::key_lt(#[trigger] x1[i].0, #[trigger] x1[j].0) by {
                assert(x1[i] == x[i + 1] && x1[j] == x[j + 1]);
            }
        }
        assert forall|i: int| 0 <= i < x1.len() implies crate::text::key_lt(x[0].0, #[trigger] x1[i].0) by {
            assert(x1[i] == x[i + 1]);
        }
        if y.len() == 0 {
            assert(crate::json::obj_pos(y, x[0].0) == 0);
            lemma_shared_merged(x1, y, p);
            assert(shared_diff(x, y, p) =~= shared_diff(x1, y, p));
        } else if x[0].0 == y[0].0 {
            crate::text::lemma_key_lt_irreflexive(x[0].0);
            assert(crate::json::obj_pos(y, x[0].0) == 0);
            lemma_shared_skip(x1, y, p);
            lemma_shared_merged(x1, y.drop_first(), p);
        } else if crate::text::key_lt(x[0].0, y[0].0) {
            crate::text::lemma_key_lt_total(x[0].0, y[0].0);
            assert(crate::json::obj_pos(y, x[0].0) == 0);
            lemma_shared_merged(x1, y, p);
            assert(shared_diff(x, y, p) =~= shared_diff(x1, y, p));
        } else {
            crate::text::lemma_key_lt_total(x[0].0, y[0].0);
            assert forall|i: int| 0 <= i < x.len() implies crate::text::key_lt(y[0].0, #[trigger] x[i].0) by {
                if i > 0 {
                    assert(x[i] == x1[i - 1]);
                    crate::text::lemma_key_lt_transitive(y[0].0, x[0].0, x[i].0);
                }
            }
            lemma_shared_skip(x, y, p);
            lemma_shared_merged(x, y.drop_first(), p);
        }
    }
}

proof fn lemma_merged_symmetric(x: Seq<(Seq<char>, JV)>, y: Seq<(Seq<char>, JV)>, p: Seq<char>)
    requires
        forall|i: int| 0 <= i < x.len() ==> crate::pointer::jv_wf(#[trigger] x[i].1),
        forall|j: int| 0 <= j < y.len() ==> crate::pointer::jv_wf(#[trigger] y[j].1),
    ensures
        merged_diff(x, y, p).to_multiset() == merged_diff(y, x, p).to_multiset(),
    decreases x, y.len(),
{
    broadcast use vstd::seq_lib::lemma_multiset_commutative;
    broadcast use vstd::multiset::group_multiset_axioms;

    if x.len() > 0 && y.len() > 0 {
        let x1 = x.drop_first();
        let y1 = y.drop_first();
        assert forall|i: int| 0 <= i < x1.len() implies crate::pointer::jv_wf(#[trigger] x1[i].1) by {
            assert(x1[i] == x[i + 1]);
        }
        assert forall|j: int| 0 <= j < y1.len() implies crate::pointer::jv_wf(#[trigger] y1[j].1) by {
            assert(y1[j] == y[j + 1]);
        }
        crate::text::lemma_key_lt_total(x[0].0, y[0].0);
        if x[0].0 == y[0].0 {
            assert(decreases_to!(x => x[0]));
            assert(decreases_to!(x[0] => x[0].1));
            lemma_diff_symmetric(x[0].1, y[0].1, child_pointer(p, x[0].0));
            lemma_merged_symmetric(x1, y1, p);
        } else if crate::text::key_lt(x[0].0, y[0].0) {
            lemma_merged_symmetric(x1, y, p);
        } else {
            lemma_merged_symmetric(x, y1, p);
        }
    }
}

proof fn lemma_items_symmetric(x: Seq<JV>, y: Seq<JV>, p: Seq<char>, start: nat)
    requires
        forall|i: int| 0 <= i < x.len() ==> crate::pointer::jv_wf(#[trigger] x[i]),
        forall|j: int| 0 <= j < y.len() ==> crate::pointer::jv_wf(#[trigger] y[j]),
    ensures
        items_diff(x, y, p, start).to_multiset() == items_diff(y, x, p, start).to_multiset(),
    decreases x, 0nat,
{
    broadcast use vstd::seq_lib::lemma_multiset_commutative;
    broadcast use vstd::multiset::group_multiset_axioms;

    if x.len() > 0 && y.len() > 0 {
        let x1 = x.drop_first();
        let y1 = y.drop_first();
        assert forall|i: int| 0 <= i < x1.len() implies crate::pointer::jv_wf(#[trigger] x1[i]) by {
            assert(x1[i] == x[i + 1]);
        }
        assert forall|j: int| 0 <= j < y1.len() implies crate::pointer::jv_wf(#[trigger] y1[j]) by {
            assert(y1[j] == y[j + 1]);
        }
        assert(decreases_to!(x => x[0]));
        lemma_diff_symmetric(x[0], y[0], child_pointer(p, crate::text::dec_spec(start)));
        lemma_items_symmetric(x1, y1, p, start + 1);
    }
}

proof fn lemma_diff_symmetric(a: JV, b: JV, p: Seq<char>)
    requires
        crate::pointer::jv_wf(a),
        crate::pointer::jv_wf(b),
    ensures
        diff_spec(a, b, p).to_multiset() == diff_spec(b, a, p).to_multiset(),
    decreases a, 0nat,
{
    broadcast use vstd::seq_lib::lemma_multiset_commutative;
    broadcast use vstd::multiset::group_multiset_axioms;

    match (a, b) {
        (JV::Obj(x), JV::Obj(y)) => {
            lemma_members_split(x, y, p);
            lemma_members_split(y, x, p);
            lemma_shared_merged(x, y, p);
            lemma_shared_merged(y, x, p);
            lemma_merged_symmetric(x, y, p);
            assert(diff_spec(a, b, p).to_multiset() =~= diff_spec(b, a, p).to_multiset());
        },
        (JV::Arr(x), JV::Arr(y)) => {
            if x.len() == y.len() {
                lemma_items_symmetric(x, y, p, 0);
            }
        },
        _ => {},
    }
}

/// The affected pointers do not depend on which tree comes first.
pub proof fn law_affected_symmetric(before: JV, after: JV)
    requires
        crate::pointer::jv_wf(before),
        crate::pointer::jv_wf(after),
    ensures
        affected_spec(before, after) == affected_spec(after, before),
{
    lemma_diff_symmetric(before, after, Seq::empty());
    crate::load::lemma_sort_names_same(diff_spec(before, after, Seq::empty()), diff_spec(after, before, Seq::empty()));
}

/// `x` followed by `/` begins `y`: `x` names an ancestor of `y`.
pub open spec fn ancestor_of(x: Seq<char>, y: Seq<char>) -> bool {
    x.len() < y.len() && y.subrange(0, x.len() as int) == x && y[x.len() as int] == '/'
}

/// `e` is `p` or lies below it.
spec fn under(e: Seq<char>, p: Seq<char>) -> bool {
    e == p || (p.len() < e.len() && e.subrange(0, p.len() as int) == p && e[p.len() as int] == '/')
}

proof fn lemma_digits_dec(n: nat)
    ensures
        crate::pointer::digits_value(crate::text::dec_spec(n)) == n,
    decreases n,
{
    let d = crate::text::dec_spec(n);
    lemma_digit_char((n % 10) as nat);
    if n < 10 {
        assert(n % 10 == n);
        assert(d.drop_last() =~= Seq::<char>::empty());
        assert(d.last() == crate::text::digit_char(n));
        assert(crate::pointer::digits_value(d.drop_last()) == 0);
    } else {
        lemma_digits_dec(n / 10);
        assert(d.drop_last() =~= crate::text::dec_spec(n / 10));
        assert(d.last() == crate::text::digit_char(n % 10));
        assert(n == (n / 10) * 10 + n % 10);
    }
    assert(crate::pointer::digits_value(d) == crate::pointer::digits_value(d.drop_last()) * 10 + ((d.last() as int - '0' as int) as nat));
}

pub(crate) proof fn lemma_digit_char(d: nat)
    requires
        d < 10,
    ensures
        crate::text::digit_char(d) as int - '0' as int == d,
{
    if d == 0 {
    } else if d == 1 {
    } else if d == 2 {
    } else if d == 3 {
    } else if d == 4 {
    } else if d == 5 {
    } else if d == 6 {
    } else if d == 7 {
    } else if d == 8 {
    } else {
    }
}

proof fn lemma_token_injective(a: Seq<char>, b: Seq<char>)
    requires
        a != b,
    ensures
        crate::pointer::escape_spec(a) != crate::pointer::escape_spec(b),
{
    crate::pointer::lemma_unescape_escape(a);
    crate::pointer::lemma_unescape_escape(b);
}

proof fn lemma_under_child(e: Seq<char>, p: Seq<char>, k: Seq<char>)
    requires
        under(e, child_pointer(p, k)),
    ensures
        under(e, p),
        e != p,
{
    let c = child_pointer(p, k);
    assert(c[p.len() as int] == '/');
    assert(c.subrange(0, p.len() as int) =~= p);
    if e != c {
        assert(e.subrange(0, c.len() as int)[p.len() as int] == e[p.len() as int]);
        assert(e.subrange(0, p.len() as int) =~= c.subrange(0, p.len() as int)) by {
            assert forall|i: int| 0 <= i < p.len() implies e[i] == c[i] by {
                assert(e.subrange(0, c.len() as int)[i] == e[i]);
            }
        }
    }
}

/// Elements below two different children of `p` are never one the ancestor
/// of the other.
proof fn lemma_siblings(e1: Seq<char>, e2: Seq<char>, p: Seq<char>, k1: Seq<char>, k2: Seq<char>)
    requires
        under(e1, child_pointer(p, k1)),
        under(e2, child_pointer(p, k2)),
        k1 != k2,
    ensures
        !ancestor_of(e1, e2),
        e1 != e2,
{
    let t1 = crate::pointer::escape_spec(k1);
    let t2 = crate::pointer::escape_spec(k2);
    lemma_token_injective(k1, k2);
    crate::pointer::lemma_escape_no_slash(k1);
    crate::pointer::lemma_escape_no_slash(k2);
    let c1 = child_pointer(p, k1);
    let c2 = child_pointer(p, k2);
    let l: int = p.len() as int + 1;
    assert forall|i: int| 0 <= i < t1.len() implies #[trigger] e1[l + i] == t1[i] by {
        assert(c1[l + i] == t1[i]);
        if e1 != c1 {
            assert(e1.subrange(0, c1.len() as int)[l + i] == e1[l + i]);
        }
    }
    assert forall|i: int| 0 <= i < t2.len() implies #[trigger] e2[l + i] == t2[i] by {
        assert(c2[l + i] == t2[i]);
        if e2 != c2 {
            assert(e2.subrange(0, c2.len() as int)[l + i] == e2[l + i]);
        }
    }
    if ancestor_of(e1, e2) {
        assert forall|i: int| 0 <= i < e1.len() implies #[trigger] e2[i] == e1[i] by {
            assert(e2.subrange(0, e1.len() as int)[i] == e2[i]);
        }
        if t1.len() == t2.len() {
            assert(t1 =~= t2) by {
                assert forall|i: int| 0 <= i < t1.len() implies t1[i] == t2[i] by {
                    assert(e1[l + i] == t1[i]);
                    assert(e2[l + i] == t2[i]);
                }
            }
        } else if t1.len() < t2.len() {
            let q: int = l + t1.len() as int;
            assert(e2[q] == t2[t1.len() as int]);
            if e1 == c1 {
                assert(e1.len() == q);
            } else {
                assert(e1[q] == '/');
            }
        } else {
            let q: int = l + t2.len() as int;
            assert(e1[q] == t1[t2.len() as int]);
            if e2 == c2 {
                assert(e2.len() == q);
            } else {
                assert(e2[q] == '/');
                assert(e2[q] == e1[q]);
            }
        }
    }
    if e1 == e2 {
        if t1.len() == t2.len() {
            assert(t1 =~= t2) by {
                assert forall|i: int| 0 <= i < t1.len() implies t1[i] == t2[i] by {
                    assert(e1[l + i] == t1[i]);
                    assert(e2[l + i] == t2[i]);
                }
            }
        } else if t1.len() < t2.len() {
            let q: int = l + t1.len() as int;
            assert(e2[q] == t2[t1.len() as int]);
            if e1 == c1 {
                assert(e1.len() == q);
            } else {
                assert(e1[q] == '/');
            }
        } else {
            let q: int = l + t2.len() as int;
            assert(e1[q] == t1[t2.len() as int]);
            if e2 == c2 {
                assert(e2.len() == q);
            } else {
                assert(e2[q] == '/');
            }
        }
    }
}

/// `e` lies at or below the child of `p` for one of the member names of `x`.
spec fn below_member(e: Seq<char>, x: Seq<(Seq<char>, JV)>, p: Seq<char>) -> bool {
    exists|i: int| 0 <= i < x.len() && #[trigger] under(e, child_pointer(p, x[i].0))
}

/// `e` lies at or below the child of `p` for one of the indices from `start`.
spec fn below_index(e: Seq<char>, n: nat, p: Seq<char>, start: nat) -> bool {
    exists|i: nat| i < n && #[trigger] under(e, child_pointer(p, crate::text::dec_spec(start + i)))
}

/// No element names an ancestor of another.
pub open spec fn no_ancestor(s: Seq<Seq<char>>) -> bool {
    forall|i: int, j: int| 0 <= i < s.len() && 0 <= j < s.len() ==> !ancestor_of(#[trigger] s[i], #[trigger] s[j])
}

/// `e` is the child of `p` for a member name of `y` that `x` lacks.
spec fn missing_child(e: Seq<char>, y: Seq<(Seq<char>, JV)>, x: Seq<(Seq<char>, JV)>, p: Seq<char>) -> bool {
    exists|j: int| 0 <= j < y.len() && crate::json::obj_get(x, y[j].0) is None && e == #[trigger] child_pointer(p, y[j].0)
}

proof fn lemma_missing_tree(y: Seq<(Seq<char>, JV)>, x: Seq<(Seq<char>, JV)>, p: Seq<char>)
    ensures
        forall|i: int| 0 <= i < missing_members(y, x, p).len() ==> missing_child(#[trigger] missing_members(y, x, p)[i], y, x, p),
    decreases y.len(),
{
    if y.len() > 0 {
        lemma_missing_tree(y.drop_first(), x, p);
        let m1 = missing_members(y.drop_first(), x, p);
        let h: Seq<Seq<char>> = if crate::json::obj_get(x, y[0].0) is None { seq![child_pointer(p, y[0].0)] } else { Seq::empty() };
        assert(missing_members(y, x, p) == h + m1);
        assert forall|i: int| 0 <= i < missing_members(y, x, p).len() implies missing_child(#[trigger] missing_members(y, x, p)[i], y, x, p) by {
            if i < h.len() {
                assert(missing_members(y, x, p)[i] == child_pointer(p, y[0].0));
            } else {
                assert(missing_members(y, x, p)[i] == m1[i - h.len()]);
                assert(missing_child(m1[i - h.len()], y.drop_first(), x, p));
                let j = choose|j: int| 0 <= j < y.drop_first().len() && crate::json::obj_get(x, y.drop_first()[j].0) is None
                    && m1[i - h.len()] == #[trigger] child_pointer(p, y.drop_first()[j].0);
                assert(y.drop_first()[j] == y[j + 1]);
                assert(missing_members(y, x, p)[i] == child_pointer(p, y[j + 1].0));
            }
        }
    }
}

proof fn lemma_missing_distinct(y: Seq<(Seq<char>, JV)>, x: Seq<(Seq<char>, JV)>, p: Seq<char>)
    requires
        crate::json::keys_sorted(y),
    ensures
        missing_members(y, x, p).no_duplicates(),
    decreases y.len(),
{
    if y.len() > 0 {
        let y1 = y.drop_first();
        assert(crate::json::keys_sorted(y1)) by {
            assert forall|i: int, j: int| 0 <= i < j < y1.len() implies crate::text::key_lt(#[trigger] y1[i].0, #[trigger] y1[j].0) by {
                assert(y1[i] == y[i + 1] && y1[j] == y[j + 1]);
            }
        }
        lemma_missing_distinct(y1, x, p);
        lemma_missing_tree(y1, x, p);
        let m = missing_members(y, x, p);
        let m1 = missing_members(y1, x, p);
        let c = child_pointer(p, y[0].0);
        let h: Seq<Seq<char>> = if crate::json::obj_get(x, y[0].0) is None { seq![c] } else { Seq::empty() };
        assert(m == h + m1);
        assert forall|i: int, j: int| 0 <= i < m.len() && 0 <= j < m.len() && i != j implies m[i] != m[j] by {
            if i >= h.len() && j >= h.len() {
                assert(m[i] == m1[i - h.len()] && m[j] == m1[j - h.len()]);
            } else if i < h.len() && j < h.len() {
            } else {
                let (a, b) = if i < h.len() { (i, j) } else { (j, i) };
                assert(m[a] == c);
                assert(m[b] == m1[b - h.len()]);
                assert(missing_child(m1[b - h.len()], y1, x, p));
                let k = choose|k: int| 0 <= k < y1.len() && crate::json::obj_get(x, y1[k].0) is None
                    && m1[b - h.len()] == #[trigger] child_pointer(p, y1[k].0);
                assert(y1[k] == y[k + 1]);
                crate::text::lemma_key_lt_irreflexive(y[0].0);
                assert(crate::text::key_lt(y[0].0, y[k + 1].0));
                lemma_siblings(m[a], m[b], p, y[0].0, y[k + 1].0);
            }
        }
    }
}

proof fn lemma_members_tree(x: Seq<(Seq<char>, JV)>, y: Seq<(Seq<char>, JV)>, p: Seq<char>)
    requires
        crate::json::keys_sorted(x),
        forall|i: int| 0 <= i < x.len() ==> crate::pointer::jv_wf(#[trigger] x[i].1),
        forall|j: int| 0 <= j < y.len() ==> crate::pointer::jv_wf(#[trigger] y[j].1),
    ensures
        forall|i: int| 0 <= i < members_diff(x, y, p).len() ==> below_member(#[trigger] members_diff(x, y, p)[i], x, p),
        no_ancestor(members_diff(x, y, p)),
        members_diff(x, y, p).no_duplicates(),
    decreases x, 1nat,
{
    if x.len() > 0 {
        let x1 = x.drop_first();
        assert(crate::json::keys_sorted(x1)) by {
            assert forall|i: int, j: int| 0 <= i < j < x1.len() implies crate::text::key_lt(#[trigger] x1[i].0, #[trigger] x1[j].0) by {
                assert(x1[i] == x[i + 1] && x1[j] == x[j + 1]);
            }
        }
        assert forall|i: int| 0 <= i < x1.len() implies crate::pointer::jv_wf(#[trigger] x1[i].1) by {
            assert(x1[i] == x[i + 1]);
        }
        lemma_members_tree(x1, y, p);
        let c = child_pointer(p, x[0].0);
        let h: Seq<Seq<char>> = match crate::json::obj_get(y, x[0].0) {
            Some(w) => diff_spec(x[0].1, w, c),
            None => seq![c],
        };
        match crate::json::obj_get(y, x[0].0) {
            Some(w) => {
                let q = crate::json::obj_pos(y, x[0].0);
                crate::json::lemma_obj_pos(y, x[0].0);
                assert(crate::json::obj_get(y, x[0].0) == Some(w));
                assert(q < y.len());
                assert(w == y[q].1);
                assert(crate::pointer::jv_wf(w));
                assert(decreases_to!(x => x[0]));
                assert(decreases_to!(x[0] => x[0].1));
                lemma_diff_tree(x[0].1, w, c);
            },
            None => {},
        }
        let m = members_diff(x, y, p);
        let m1 = members_diff(x1, y, p);
        assert(m == h + m1);
        assert forall|i: int| 0 <= i < h.len() implies #[trigger] under(h[i], c) by {}
        assert forall|i: int| 0 <= i < m.len() implies below_member(#[trigger] m[i], x, p) by {
            if i < h.len() {
                assert(under(m[i], child_pointer(p, x[0].0)));
            } else {
                assert(m[i] == m1[i - h.len()]);
                assert(below_member(m1[i - h.len()], x1, p));
                let k = choose|k: int| 0 <= k < x1.len() && #[trigger] under(m1[i - h.len()], child_pointer(p, x1[k].0));
                assert(x1[k] == x[k + 1]);
                assert(under(m[i], child_pointer(p, x[k + 1].0)));
            }
        }
        assert forall|i: int, j: int| 0 <= i < m.len() && 0 <= j < m.len() implies !ancestor_of(#[trigger] m[i], #[trigger] m[j]) && (i != j ==> m[i] != m[j]) by {
            if i < h.len() && j < h.len() {
                assert(m[i] == h[i] && m[j] == h[j]);
            } else if i >= h.len() && j >= h.len() {
                assert(m[i] == m1[i - h.len()] && m[j] == m1[j - h.len()]);
            } else {
                let (a, b) = if i < h.len() { (i, j) } else { (j, i) };
                assert(m[a] == h[a]);
                assert(m[b] == m1[b - h.len()]);
                assert(below_member(m1[b - h.len()], x1, p));
                let k = choose|k: int| 0 <= k < x1.len() && #[trigger] under(m1[b - h.len()], child_pointer(p, x1[k].0));
                assert(x1[k] == x[k + 1]);
                crate::text::lemma_key_lt_irreflexive(x[0].0);
                assert(crate::text::key_lt(x[0].0, x[k + 1].0));
                lemma_siblings(m[a], m[b], p, x[0].0, x[k + 1].0);
                lemma_siblings(m[b], m[a], p, x[k + 1].0, x[0].0);
            }
        }
    }
}

proof fn lemma_items_tree(x: Seq<JV>, y: Seq<JV>, p: Seq<char>, start: nat)
    requires
        forall|i: int| 0 <= i < x.len() ==> crate::pointer::jv_wf(#[trigger] x[i]),
        forall|j: int| 0 <= j < y.len() ==> crate::pointer::jv_wf(#[trigger] y[j]),
    ensures
        forall|i: int| 0 <= i < items_diff(x, y, p, start).len() ==> below_index(#[trigger] items_diff(x, y, p, start)[i], x.len(), p, start),
        no_ancestor(items_diff(x, y, p, start)),
        items_diff(x, y, p, start).no_duplicates(),
    decreases x, 1nat,
{
    if x.len() > 0 && y.len() > 0 {
        let x1 = x.drop_first();
        let y1 = y.drop_first();
        assert forall|i: int| 0 <= i < x1.len() implies crate::pointer::jv_wf(#[trigger] x1[i]) by {
            assert(x1[i] == x[i + 1]);
        }
        assert forall|j: int| 0 <= j < y1.len() implies crate::pointer::jv_wf(#[trigger] y1[j]) by {
            assert(y1[j] == y[j + 1]);
        }
        lemma_items_tree(x1, y1, p, start + 1);
        let c = child_pointer(p, crate::text::dec_spec(start));
        assert(decreases_to!(x => x[0]));
        lemma_diff_tree(x[0], y[0], c);
        let h = diff_spec(x[0], y[0], c);
        let m = items_diff(x, y, p, start);
        let m1 = items_diff(x1, y1, p, start + 1);
        assert(m == h + m1);
        assert forall|i: int| 0 <= i < m.len() implies below_index(#[trigger] m[i], x.len(), p, start) by {
            if i < h.len() {
                assert(under(m[i], child_pointer(p, crate::text::dec_spec(start + 0))));
            } else {
                assert(m[i] == m1[i - h.len()]);
                assert(below_index(m1[i - h.len()], x1.len(), p, start + 1));
                let k = choose|k: nat| k < x1.len() && #[trigger] under(m1[i - h.len()], child_pointer(p, crate::text::dec_spec(start + 1 + k)));
                assert(start + 1 + k == start + (k + 1));
                assert(under(m[i], child_pointer(p, crate::text::dec_spec(start + (k + 1) as nat))));
            }
        }
        assert forall|i: int, j: int| 0 <= i < m.len() && 0 <= j < m.len() implies !ancestor_of(#[trigger] m[i], #[trigger] m[j]) && (i != j ==> m[i] != m[j]) by {
            if i < h.len() && j < h.len() {
                assert(m[i] == h[i] && m[j] == h[j]);
            } else if i >= h.len() && j >= h.len() {
                assert(m[i] == m1[i - h.len()] && m[j] == m1[j - h.len()]);
            } else {
                let (a, b) = if i < h.len() { (i, j) } else { (j, i) };
                assert(m[a] == h[a]);
                assert(m[b] == m1[b - h.len()]);
                assert(below_index(m1[b - h.len()], x1.len(), p, start + 1));
                let k = choose|k: nat| k < x1.len() && #[trigger] under(m1[b - h.len()], child_pointer(p, crate::text::dec_spec(start + 1 + k)));
                let t0 = crate::text::dec_spec(start);
                let tk = crate::text::dec_spec(start + 1 + k);
                lemma_digits_dec(start);
                lemma_digits_dec(start + 1 + k);
                assert(t0 != tk);
                lemma_siblings(m[a], m[b], p, t0, tk);
                lemma_siblings(m[b], m[a], p, tk, t0);
            }
        }
    }
}

proof fn lemma_diff_tree(a: JV, b: JV, p: Seq<char>)
    requires
        crate::pointer::jv_wf(a),
        crate::pointer::jv_wf(b),
    ensures
        forall|i: int| 0 <= i < diff_spec(a, b, p).len() ==> under(#[trigger] diff_spec(a, b, p)[i], p),
        no_ancestor(diff_spec(a, b, p)),
        diff_spec(a, b, p).no_duplicates(),
    decreases a, 2nat,
{
    let d = diff_spec(a, b, p);
    match (a, b) {
        (JV::Obj(x), JV::Obj(y)) => {
            lemma_members_tree(x, y, p);
            lemma_missing_tree(y, x, p);
            lemma_missing_distinct(y, x, p);
            let m = members_diff(x, y, p);
            let n = missing_members(y, x, p);
            assert(d == m + n);
            assert forall|i: int| 0 <= i < d.len() implies under(#[trigger] d[i], p) by {
                if i < m.len() {
                    assert(below_member(m[i], x, p));
                    let k = choose|k: int| 0 <= k < x.len() && #[trigger] under(m[i], child_pointer(p, x[k].0));
                    lemma_under_child(m[i], p, x[k].0);
                } else {
                    assert(d[i] == n[i - m.len()]);
                    assert(missing_child(n[i - m.len()], y, x, p));
                    let j = choose|j: int| 0 <= j < y.len() && crate::json::obj_get(x, y[j].0) is None
                        && n[i - m.len()] == #[trigger] child_pointer(p, y[j].0);
                    lemma_under_child(d[i], p, y[j].0);
                }
            }
            assert forall|i: int, j: int| 0 <= i < d.len() && 0 <= j < d.len() implies !ancestor_of(#[trigger] d[i], #[trigger] d[j]) && (i != j ==> d[i] != d[j]) by {
                if i < m.len() && j < m.len() {
                    assert(d[i] == m[i] && d[j] == m[j]);
                } else if i >= m.len() && j >= m.len() {
                    assert(d[i] == n[i - m.len()] && d[j] == n[j - m.len()]);
                    assert(missing_child(n[i - m.len()], y, x, p));
                    assert(missing_child(n[j - m.len()], y, x, p));
                    let ji = choose|jj: int| 0 <= jj < y.len() && crate::json::obj_get(x, y[jj].0) is None
                        && n[i - m.len()] == #[trigger] child_pointer(p, y[jj].0);
                    let jj2 = choose|jj: int| 0 <= jj < y.len() && crate::json::obj_get(x, y[jj].0) is None
                        && n[j - m.len()] == #[trigger] child_pointer(p, y[jj].0);
                    if y[ji].0 != y[jj2].0 {
                        lemma_siblings(d[i], d[j], p, y[ji].0, y[jj2].0);
                    }
                } else {
                    let (a1, b1) = if i < m.len() { (i, j) } else { (j, i) };
                    assert(d[a1] == m[a1]);
                    assert(below_member(m[a1], x, p));
                    let k = choose|k: int| 0 <= k < x.len() && #[trigger] under(m[a1], child_pointer(p, x[k].0));
                    assert(d[b1] == n[b1 - m.len()]);
                    assert(missing_child(n[b1 - m.len()], y, x, p));
                    let jj = choose|jj: int| 0 <= jj < y.len() && crate::json::obj_get(x, y[jj].0) is None
                        && n[b1 - m.len()] == #[trigger] child_pointer(p, y[jj].0);
                    crate::json::lemma_obj_get_at(x, k);
                    assert(x[k].0 != y[jj].0);
                    lemma_siblings(d[a1], d[b1], p, x[k].0, y[jj].0);
                    lemma_siblings(d[b1], d[a1], p, y[jj].0, x[k].0);
                }
            }
        },
        (JV::Arr(x), JV::Arr(y)) => {
            if x.len() == y.len() {
                lemma_items_tree(x, y, p, 0);
                assert forall|i: int| 0 <= i < d.len() implies under(#[trigger] d[i], p) by {
                    assert(below_index(d[i], x.len(), p, 0));
                    let k = choose|k: nat| k < x.len() && #[trigger] under(d[i], child_pointer(p, crate::text::dec_spec(0 + k)));
                    lemma_under_child(d[i], p, crate::text::dec_spec(0 + k));
                }
            }
        },
        _ => {},
    }
}

/// Names in strictly increasing code-point order: sorted, and none twice.
pub open spec fn names_strictly_sorted(s: Seq<Seq<char>>) -> bool {
    forall|i: int, j: int| 0 <= i < j < s.len() ==> crate::text::key_lt(#[trigger] s[i], #[trigger] s[j])
}

/// The affected pointers of well-formed trees come in strictly increasing
/// code-point order, so no pointer is listed twice.
pub proof fn law_affected_strictly_sorted(before: JV, after: JV)
    requires
        crate::pointer::jv_wf(before),
        crate::pointer::jv_wf(after),
    ensures
        names_strictly_sorted(affected_spec(before, after)),
{
    let d = diff_spec(before, after, Seq::empty());
    let r = affected_spec(before, after);
    lemma_diff_tree(before, after, Seq::empty());
    crate::load::lemma_sort_names_multiset(d);
    crate::load::lemma_sort_names_sorted(d);
    d.lemma_multiset_has_no_duplicates();
    r.lemma_multiset_has_no_duplicates_conv();
    assert forall|i: int, j: int| 0 <= i < j < r.len() implies crate::text::key_lt(#[trigger] r[i], #[trigger] r[j]) by {
        assert(!crate::text::key_lt(r[j], r[i]));
        assert(r[i] != r[j]);
        crate::text::lemma_key_lt_total(r[i], r[j]);
    }
}

/// No affected pointer names an ancestor of another: each change is reported
/// once, at the shallowest pointer where the trees part.
pub proof fn law_affected_no_ancestor(before: JV, after: JV)
    requires
        crate::pointer::jv_wf(before),
        crate::pointer::jv_wf(after),
    ensures
        no_ancestor(affected_spec(before, after)),
{
    broadcast use vstd::seq_lib::group_to_multiset_ensures;

    let d = diff_spec(before, after, Seq::empty());
    let r = affected_spec(before, after);
    lemma_diff_tree(before, after, Seq::empty());
    crate::load::lemma_sort_names_multiset(d);
    assert forall|i: int, j: int| 0 <= i < r.len() && 0 <= j < r.len() implies !ancestor_of(#[trigger] r[i], #[trigger] r[j]) by {
        assert(r.contains(r[i]) && r.contains(r[j]));
        assert(r.to_multiset().count(r[i]) > 0 && r.to_multiset().count(r[j]) > 0);
        assert(d.contains(r[i]) && d.contains(r[j]));
        let a = choose|a: int| 0 <= a < d.len() && d[a] == r[i];
        let b = choose|b: int| 0 <= b < d.len() && d[b] == r[j];
        assert(!ancestor_of(d[a], d[b]));
    }
}

/// An edit that leaves the effective tree unchanged affects nothing: a tree compared with itself has no affected pointers.
pub proof fn law_unchanged_tree_affects_nothing(t: JV)
    requires
        crate::pointer::jv_wf(t),
    ensures
        affected_spec(t, t) == Seq::<Seq<char>>::empty(),
{
    lemma_diff_self(t, Seq::empty());
}

} // verus!
