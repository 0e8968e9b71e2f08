//! Loading a config directory: the entrypoint, the `*.env`
//! peers, `@file:` grafting, and interpolation, over a table of what the
//! filesystem holds.
//!
//! The loader reads nothing itself. It works from a [`Disk`]: one
//! [`FileEntry`] per path it has asked about. When it needs a path the table
//! does not hold, it stops with [`Step::Need`]; the caller adds the entry and
//! runs it again. Every document the load reads is recorded, with each
//! position of the effective tree its root occupies.

use vstd::prelude::*;

use crate::edit::Format;
use crate::error::{Error, ErrorCode};
use crate::json::{copy_json, jv_of, Json, JV};
use crate::parse::format_of_path;
use crate::parse::yaml_tree::{parse_yaml, yaml_scan, yaml_value};
use crate::envfile::{name_views, pair_views};
use crate::pointer::{escape_spec, escape_token};
use crate::source::{include_target, include_target_spec, parent, parent_spec};
use crate::text::{concat2, concat3, count_text, dec_spec, owned, same_text};

verus! {

/// What the filesystem says about one path.
#[derive(Debug)]
pub struct FileEntry {
    /// The path, as the loader asked for it.
    pub path: String,
    /// Whether it names a regular file.
    pub is_file: bool,
    /// Its canonical form (symlinks resolved), or why there is none.
    pub canonical: Result<String, String>,
    /// Its bytes, or why they could not be read.
    pub data: Result<Vec<u8>, String>,
    /// The bytes as text, when they are valid UTF-8.
    pub text: Option<String>,
    /// For a JSON file: the text parsed into the data model, or why it does
    /// not parse.
    pub parsed: Option<Result<Json, String>>,
}

/// The filesystem as the loader sees it: the entries asked about so far and
/// the names of the `*.env` files directly in the config directory.
#[derive(Debug)]
pub struct Disk {
    /// One entry per path; the first entry for a path counts.
    pub files: Vec<FileEntry>,
    /// The `*.env` file names in the config directory.
    pub env_names: Vec<String>,
}

/// A result, or the path whose entry the loader needs first.
#[derive(Debug)]
pub enum Step<T> {
    /// The work is done.
    Done(T),
    /// Add an entry for this path to the [`Disk`] and run again.
    Need(String),
}

/// The view of a [`FileEntry`].
pub struct FileV {
    /// The path.
    pub path: Seq<char>,
    /// Whether it is a regular file.
    pub is_file: bool,
    /// Its canonical form, if it has one.
    pub canonical: Option<Seq<char>>,
    /// Its bytes, if readable.
    pub data: Option<Seq<u8>>,
    /// Its text, if valid UTF-8.
    pub text: Option<Seq<char>>,
    /// The caller's parse, if any: a value or a failure.
    pub parsed: Option<Option<JV>>,
}

/// The view of one entry.
pub open spec fn file_view(f: FileEntry) -> FileV {
    FileV {
        path: f.path@,
        is_file: f.is_file,
        canonical: match f.canonical {
            Ok(c) => Some(c@),
            Err(_) => None,
        },
        data: match f.data {
            Ok(d) => Some(d@),
            Err(_) => None,
        },
        text: match f.text {
            Some(t) => Some(t@),
            None => None,
        },
        parsed: match f.parsed {
            Some(Ok(j)) => Some(Some(j@)),
            Some(Err(_)) => Some(None),
            None => None,
        },
    }
}

/// The views of the entries.
pub open spec fn files_view(d: Disk) -> Seq<FileV> {
    d.files@.map_values(|f: FileEntry| file_view(f))
}

/// The first entry for `path`.
pub open spec fn entry_for(files: Seq<FileV>, path: Seq<char>) -> Option<FileV>
    decreases files.len(),
{
    if files.len() == 0 {
        None
    } else if files[0].path == path {
        Some(files[0])
    } else {
        entry_for(files.drop_first(), path)
    }
}

/// Where the first entry for `path` is.
pub fn find_entry(disk: &Disk, path: &str) -> (r: Option<usize>)
    ensures
        r matches Some(i) ==> i < disk.files.len() && entry_for(files_view(*disk), path@) == Some(file_view(disk.files@[i as int])),
        r is None ==> entry_for(files_view(*disk), path@) is None,
{
    let ghost fs = files_view(*disk);
    let mut i: usize = 0;
    assert(fs.skip(0) =~= fs);
    while i < disk.files.len()
        invariant
            i <= disk.files.len(),
            fs == files_view(*disk),
            fs.len() == disk.files.len(),
            entry_for(fs, path@) == entry_for(fs.skip(i as int), path@),
        decreases disk.files.len() - i,
    {
        assert(fs.skip(i as int)[0] == file_view(disk.files@[i as int]));
        assert(fs.skip(i as int).drop_first() =~= fs.skip(i + 1));
        if same_text(disk.files[i].path.as_str(), path) {
            return Some(i);
        }
        i = i + 1;
    }
    None
}

/// A document's value: YAML and TOML are parsed here; JSON comes parsed
/// with the entry. Text that is not UTF-8, text that does not encode to the
/// entry's bytes, or text that does not parse, is `None`.
pub open spec fn doc_value(f: FileV, format: Format) -> Option<JV> {
    match f.text {
        None => None,
        Some(t) => if f.data != Some(vstd::utf8::encode_utf8(t)) {
            None
        } else {
            match format {
            Format::Yaml => match yaml_value(yaml_scan(t).0, yaml_scan(t).1) {
                Ok(v) => Some(v),
                Err(_) => None,
            },
                Format::Toml => crate::parse::toml::toml_doc_value(t),
                _ => match f.parsed {
                    Some(Some(v)) => Some(v),
                    _ => None,
                },
            }
        },
    }
}

/// Whether two byte slices hold the same bytes.
pub(crate) fn same_bytes(a: &[u8], b: &[u8]) -> (r: bool)
    ensures
        r == (a@ == b@),
{
    if a.len() != b.len() {
        return false;
    }
    let mut i: usize = 0;
    while i < a.len()
        invariant
            i <= a.len(),
            a.len() == b.len(),
            forall|k: int| 0 <= k < i ==> a@[k] == b@[k],
        decreases a.len() - i,
    {
        if a[i] != b[i] {
            return false;
        }
        i = i + 1;
    }
    assert(a@ =~= b@);
    true
}

/// Parses one document; every failure is `E_PARSE`.
pub fn parse_document(entry: &FileEntry, format: Format) -> (r: Result<Json, Error>)
    ensures
        r matches Ok(j) ==> doc_value(file_view(*entry), format) == Some(j@),
        r matches Err(e) ==> doc_value(file_view(*entry), format) is None && e.spec_code() == ErrorCode::Parse,
{
    let path = entry.path.as_str();
    match &entry.text {
        None => Err(Error::new(ErrorCode::Parse, concat2(path, " is not valid UTF-8"))),
        Some(t) => {
            let matches = match &entry.data {
                Ok(d) => same_bytes(t.as_str().as_bytes(), d.as_slice()),
                Err(_) => false,
            };
            if !matches {
                return Err(Error::new(ErrorCode::Parse, concat2(path, ": the text is not the file's bytes")));
            }
            match format {
            Format::Yaml => match parse_yaml(t.as_str()) {
                Ok(v) => Ok(v),
                Err(m) => Err(Error::new(ErrorCode::Parse, concat3(path, ": ", m.as_str()))),
            },
            Format::Toml => match crate::parse::toml::parse_toml(t.as_str()) {
                Ok(v) => Ok(v),
                Err(m) => Err(Error::new(ErrorCode::Parse, concat3(path, ": ", m.as_str()))),
            },
            _ => match &entry.parsed {
                Some(Ok(v)) => Ok(copy_json(v)),
                Some(Err(m)) => Err(Error::new(ErrorCode::Parse, concat3(path, ": ", m.as_str()))),
                None => Err(Error::new(ErrorCode::Parse, concat2(path, ": not parsed"))),
            },
            }
        },
    }
}

} // verus!

verus! {

/// One graft as the resolver sees it: the effective pointer of the grafted
/// root and the `@file:` references reaching it, as (document path, source
/// pointer), outermost first.
#[derive(Debug)]
pub struct RawGraft {
    /// The effective pointer.
    pub effective: String,
    /// The references, outermost first.
    pub chain: Vec<(String, String)>,
}

/// One document a load read.
#[derive(Debug)]
pub struct DocRecord {
    /// The path it was read from.
    pub path: String,
    /// Its bytes.
    pub data: Vec<u8>,
    /// Its format.
    pub format: Format,
    /// Its parsed value; none for a `*.env` file.
    pub parsed: Option<Json>,
    /// Every position of the effective tree its root occupies.
    pub grafts: Vec<RawGraft>,
}

/// The view of a graft.
pub struct GraftV {
    /// The effective pointer.
    pub effective: Seq<char>,
    /// The references, outermost first.
    pub chain: Seq<(Seq<char>, Seq<char>)>,
}

/// The view of a document record.
pub struct RecV {
    /// The path.
    pub path: Seq<char>,
    /// The bytes.
    pub data: Seq<u8>,
    /// The format.
    pub format: Format,
    /// The parsed value.
    pub parsed: Option<JV>,
    /// The grafts.
    pub grafts: Seq<GraftV>,
}


/// The view of a graft.
pub open spec fn graft_view(g: RawGraft) -> GraftV {
    GraftV { effective: g.effective@, chain: pair_views(g.chain@) }
}

/// The view of a record.
pub open spec fn rec_view(r: DocRecord) -> RecV {
    RecV {
        path: r.path@,
        data: r.data@,
        format: r.format,
        parsed: match r.parsed {
            Some(j) => Some(j@),
            None => None,
        },
        grafts: r.grafts@.map_values(|g: RawGraft| graft_view(g)),
    }
}

/// The views of the records.
pub open spec fn recs_view(rs: Seq<DocRecord>) -> Seq<RecV> {
    rs.map_values(|r: DocRecord| rec_view(r))
}

/// Where the record for `path` is.
pub open spec fn rec_index(recs: Seq<RecV>, path: Seq<char>) -> Option<int>
    decreases recs.len(),
{
    if recs.len() == 0 {
        None
    } else {
        match rec_index(recs.drop_last(), path) {
            Some(i) => Some(i),
            None => if recs.last().path == path {
                Some(recs.len() - 1)
            } else {
                None
            },
        }
    }
}

/// Records a document the first time it is read; later reads keep the first
/// record.
pub open spec fn record(recs: Seq<RecV>, r: RecV) -> Seq<RecV> {
    match rec_index(recs, r.path) {
        Some(_) => recs,
        None => recs.push(r),
    }
}

/// Records a grafted document and the graft.
pub open spec fn record_graft(recs: Seq<RecV>, r: RecV, g: GraftV) -> Seq<RecV> {
    let rs = record(recs, r);
    let i = rec_index(rs, r.path)->Some_0;
    rs.update(i, RecV { grafts: rs[i].grafts.push(g), ..rs[i] })
}

pub proof fn lemma_rec_index(recs: Seq<RecV>, path: Seq<char>)
    ensures
        rec_index(recs, path) matches Some(i) ==> 0 <= i < recs.len() && recs[i].path == path,
        rec_index(recs, path) is None ==> forall|j: int| 0 <= j < recs.len() ==> #[trigger] recs[j].path != path,
        rec_index(recs.push(RecV { path, data: Seq::empty(), format: Format::Json, parsed: None, grafts: Seq::empty() }), path) is Some,
    decreases recs.len(),
{
    if recs.len() > 0 {
        lemma_rec_index(recs.drop_last(), path);
        assert forall|j: int| 0 <= j < recs.len() - 1 implies recs.drop_last()[j] == #[trigger] recs[j] by {}
    }
    let p = recs.push(RecV { path, data: Seq::empty(), format: Format::Json, parsed: None, grafts: Seq::empty() });
    assert(p.drop_last() =~= recs);
}

/// A copy of some bytes.
pub fn copy_byte_slice(d: &[u8]) -> (r: Vec<u8>)
    ensures
        r@ == d@,
{
    let mut r: Vec<u8> = Vec::new();
    let mut i: usize = 0;
    while i < d.len()
        invariant
            i <= d.len(),
            r@ == d@.take(i as int),
        decreases d.len() - i,
    {
        r.push(d[i]);
        assert(d@.take(i + 1) =~= d@.take(i as int).push(d@[i as int]));
        i = i + 1;
    }
    assert(d@.take(i as int) =~= d@);
    r
}

/// A copy of a list of strings.
pub fn sorted_copy(s: &Vec<String>) -> (r: Vec<String>)
    ensures
        name_views(r@) == name_views(s@),
{
    copy_strings(s)
}

fn copy_bytes(d: &Vec<u8>) -> (r: Vec<u8>)
    ensures
        r@ == d@,
{
    let mut r: Vec<u8> = Vec::new();
    let mut i: usize = 0;
    while i < d.len()
        invariant
            i <= d.len(),
            r@ == d@.take(i as int),
        decreases d.len() - i,
    {
        r.push(d[i]);
        assert(d@.take(i + 1) =~= d@.take(i as int).push(d@[i as int]));
        i = i + 1;
    }
    assert(d@.take(i as int) =~= d@);
    r
}

/// A copy of a list of string pairs.
pub fn copy_pair_list(s: &Vec<(String, String)>) -> (r: Vec<(String, String)>)
    ensures
        pair_views(r@) == pair_views(s@),
{
    copy_pairs(s)
}

fn copy_pairs(s: &Vec<(String, String)>) -> (r: Vec<(String, String)>)
    ensures
        pair_views(r@) == pair_views(s@),
{
    let mut r: Vec<(String, String)> = Vec::new();
    let mut i: usize = 0;
    while i < s.len()
        invariant
            i <= s.len(),
            pair_views(r@) == pair_views(s@.take(i as int)),
        decreases s.len() - i,
    {
        r.push((s[i].0.clone(), s[i].1.clone()));
        assert(pair_views(s@.take(i + 1)) =~= pair_views(s@.take(i as int)).push((s@[i as int].0@, s@[i as int].1@)));
        assert(pair_views(r@) =~= pair_views(s@.take(i as int)).push((s@[i as int].0@, s@[i as int].1@)));
        i = i + 1;
    }
    assert(s@.take(i as int) =~= s@);
    r
}

/// Where the record for `path` is, if any.
pub fn find_record(recs: &Vec<DocRecord>, path: &str) -> (r: Option<usize>)
    ensures
        r matches Some(i) ==> rec_index(recs_view(recs@), path@) == Some(i as int),
        r is None ==> rec_index(recs_view(recs@), path@) is None,
{
    let ghost rv = recs_view(recs@);
    let mut i: usize = 0;
    while i < recs.len()
        invariant
            i <= recs.len(),
            rv == recs_view(recs@),
            rv.len() == recs.len(),
            rec_index(rv.take(i as int), path@) is None,
        decreases recs.len() - i,
    {
        assert(rv.take(i + 1).drop_last() =~= rv.take(i as int));
        if same_text(recs[i].path.as_str(), path) {
            assert(rv.take(i + 1).last() == rv[i as int]);
            proof {
                lemma_rec_index_prefix(rv, i + 1, path@);
            }
            return Some(i);
        }
        i = i + 1;
    }
    assert(rv.take(i as int) =~= rv);
    None
}

proof fn lemma_rec_index_prefix(a: Seq<RecV>, k: int, path: Seq<char>)
    requires
        0 <= k <= a.len(),
        rec_index(a.take(k), path) is Some,
    ensures
        rec_index(a, path) == rec_index(a.take(k), path),
    decreases a.len(),
{
    if k == a.len() {
        assert(a.take(k) =~= a);
    } else {
        assert(a.drop_last().take(k) =~= a.take(k));
        lemma_rec_index_prefix(a.drop_last(), k, path);
    }
}

/// The view of an optional parsed value.
pub open spec fn opt_jv(p: Option<Json>) -> Option<JV> {
    match p {
        Some(j) => Some(j@),
        None => None,
    }
}

/// Records a document the first time it is read.
fn record_doc(recs: &mut Vec<DocRecord>, path: &str, data: &Vec<u8>, format: Format, parsed: Option<Json>)
    ensures
        recs_view(final(recs)@) == record(
            recs_view(old(recs)@),
            RecV { path: path@, data: data@, format, parsed: opt_jv(parsed), grafts: Seq::empty() },
        ),
{
    match find_record(recs, path) {
        Some(_) => {},
        None => {
            let r = DocRecord { path: owned(path), data: copy_bytes(data), format, parsed, grafts: Vec::new() };
            let ghost before = recs_view(recs@);
            recs.push(r);
            assert(rec_view(r).grafts =~= Seq::<GraftV>::empty());
            assert(recs_view(recs@) =~= before.push(rec_view(r)));
        },
    }
}

/// Records a grafted document and the graft.
fn record_grafted(recs: &mut Vec<DocRecord>, path: &str, data: &Vec<u8>, format: Format, parsed: Json, g: RawGraft)
    ensures
        recs_view(final(recs)@) == record_graft(
            recs_view(old(recs)@),
            RecV { path: path@, data: data@, format, parsed: Some(parsed@), grafts: Seq::empty() },
            graft_view(g),
        ),
{
    let ghost r = RecV { path: path@, data: data@, format, parsed: Some(parsed@), grafts: Seq::empty() };
    record_doc(recs, path, data, format, Some(parsed));
    let ghost rs = recs_view(recs@);
    let i = match find_record(recs, path) {
        Some(i) => i,
        None => {
            assert(false);
            0
        },
    };
    proof {
        lemma_rec_index(rs, path@);
    }
    let mut rec = recs.remove(i);
    let ghost gv = graft_view(g);
    let ghost old_grafts = rec_view(rec).grafts;
    rec.grafts.push(g);
    assert(rec_view(rec).grafts =~= old_grafts.push(gv));
    recs.insert(i, rec);
    assert(recs_view(recs@) =~= rs.update(i as int, RecV { grafts: rs[i as int].grafts.push(gv), ..rs[i as int] }));
}

} // verus!

verus! {

/// The resolver's position: the file whose value is being
/// walked and its directory, the pointer within that file and within the
/// effective tree, the canonical paths of the files being resolved
/// (innermost last), and the `@file:` references traversed so far,
/// outermost first.
#[derive(Debug)]
pub struct Walk {
    /// The file being walked, by path.
    pub doc: String,
    /// Its directory, against which its includes resolve.
    pub dir: String,
    /// The source pointer within `doc`.
    pub src: String,
    /// The effective pointer.
    pub eff: String,
    /// The canonical paths of the files being resolved.
    pub stack: Vec<String>,
    /// The references traversed, as (document path, source pointer).
    pub chain: Vec<(String, String)>,
}

/// The view of a [`Walk`].
pub struct WalkV {
    /// The file being walked.
    pub doc: Seq<char>,
    /// Its directory.
    pub dir: Seq<char>,
    /// The source pointer.
    pub src: Seq<char>,
    /// The effective pointer.
    pub eff: Seq<char>,
    /// The canonical paths being resolved.
    pub stack: Seq<Seq<char>>,
    /// The references traversed.
    pub chain: Seq<(Seq<char>, Seq<char>)>,
}

/// The view of a walk.
pub open spec fn walk_view(w: Walk) -> WalkV {
    WalkV { doc: w.doc@, dir: w.dir@, src: w.src@, eff: w.eff@, stack: name_views(w.stack@), chain: pair_views(w.chain@) }
}

/// One token deeper: both pointers gain `/` and the escaped token.
pub open spec fn step_walk(w: WalkV, token: Seq<char>) -> WalkV {
    WalkV {
        src: w.src + seq!['/'] + escape_spec(token),
        eff: w.eff + seq!['/'] + escape_spec(token),
        ..w
    }
}

fn copy_strings(s: &Vec<String>) -> (r: Vec<String>)
    ensures
        name_views(r@) == name_views(s@),
{
    let mut r: Vec<String> = Vec::new();
    let mut i: usize = 0;
    while i < s.len()
        invariant
            i <= s.len(),
            name_views(r@) == name_views(s@.take(i as int)),
        decreases s.len() - i,
    {
        r.push(s[i].clone());
        assert(name_views(s@.take(i + 1)) =~= name_views(s@.take(i as int)).push(s@[i as int]@));
        assert(name_views(r@) =~= name_views(s@.take(i as int)).push(s@[i as int]@));
        i = i + 1;
    }
    assert(s@.take(i as int) =~= s@);
    r
}

impl Walk {
    /// The walk one token deeper.
    pub fn step(&self, token: &str) -> (r: Walk)
        ensures
            walk_view(r) == step_walk(walk_view(*self), token@),
    {
        let t = escape_token(token);
        proof {
            reveal_strlit("/");
        }
        let src = concat3(self.src.as_str(), "/", t.as_str());
        let eff = concat3(self.eff.as_str(), "/", t.as_str());
        let r = Walk {
            doc: self.doc.clone(),
            dir: self.dir.clone(),
            src,
            eff,
            stack: copy_strings(&self.stack),
            chain: copy_pairs(&self.chain),
        };
        assert(walk_view(r).src =~= step_walk(walk_view(*self), token@).src);
        assert(walk_view(r).eff =~= step_walk(walk_view(*self), token@).eff);
        r
    }
}

/// A step of the loader: it needs a path, fails with a code, or yields.
pub enum Out<T> {
    /// The table lacks this path.
    Need(Seq<char>),
    /// The load fails with this code.
    Fail(ErrorCode),
    /// The result.
    Done(T),
}

/// The `@file:` prefix.
pub open spec fn include_prefix() -> Seq<char> {
    "@file:"@
}

/// Whether an authored string is an `@file:` reference.
pub open spec fn is_include_spec(s: Seq<char>) -> bool {
    s.len() >= 6 && s.take(6) == include_prefix()
}

/// Where an include's target is and what it holds: the target
/// resolved against the referencing file's directory must name a supported
/// format, exist as a regular file, not be a file already being resolved
/// (compared by canonical path), be readable, and parse.
pub open spec fn graft_target_spec(files: Seq<FileV>, target: Seq<char>, w: WalkV) -> Out<(Seq<char>, FileV, Format, JV)> {
    if target.len() == 0 {
        Out::Fail(ErrorCode::Include)
    } else {
        let joined = include_target_spec(target, w.dir);
        match format_of_path(joined) {
            None => Out::Fail(ErrorCode::Include),
            Some(fmt) => match entry_for(files, joined) {
                None => Out::Need(joined),
                Some(f) => match f.canonical {
                    None => Out::Fail(ErrorCode::Include),
                    Some(c) => if !f.is_file {
                        Out::Fail(ErrorCode::Include)
                    } else if w.stack.contains(c) {
                        Out::Fail(ErrorCode::IncludeCycle)
                    } else if f.data is None {
                        Out::Fail(ErrorCode::Include)
                    } else {
                        match doc_value(f, fmt) {
                            None => Out::Fail(ErrorCode::Parse),
                            Some(tree) => Out::Done((joined, f, fmt, tree)),
                        }
                    },
                },
            },
        }
    }
}

/// Resolves every `@file:` reference in a value: `@@` unescapes to
/// a literal `@`; an include grafts the target's value, itself resolved, and
/// records the target with this graft; any other string starting with `@` is
/// reserved. `fuel` bounds the include depth.
pub open spec fn resolve_spec(files: Seq<FileV>, v: JV, w: WalkV, recs: Seq<RecV>, fuel: nat) -> Out<(JV, Seq<RecV>)>
    decreases fuel, v,
{
    match v {
        JV::Str(s) => if s.len() >= 2 && s[0] == '@' && s[1] == '@' {
            Out::Done((JV::Str(s.drop_first()), recs))
        } else if is_include_spec(s) {
            match graft_target_spec(files, s.skip(6), w) {
                Out::Need(p) => Out::Need(p),
                Out::Fail(c) => Out::Fail(c),
                Out::Done((joined, f, fmt, tree)) => if fuel == 0 {
                    Out::Fail(ErrorCode::IncludeCycle)
                } else {
                    let refs = w.chain.push((w.doc, w.src));
                    let recs2 = record_graft(
                        recs,
                        RecV { path: joined, data: f.data->Some_0, format: fmt, parsed: Some(tree), grafts: Seq::empty() },
                        GraftV { effective: w.eff, chain: refs },
                    );
                    let w2 = WalkV {
                        doc: joined,
                        dir: parent_spec(joined),
                        src: Seq::empty(),
                        eff: w.eff,
                        stack: w.stack.push(f.canonical->Some_0),
                        chain: refs,
                    };
                    resolve_spec(files, tree, w2, recs2, (fuel - 1) as nat)
                },
            }
        } else if s.len() >= 1 && s[0] == '@' {
            Out::Fail(ErrorCode::Substitution)
        } else {
            Out::Done((v, recs))
        },
        JV::Arr(items) => match resolve_items(files, items, w, 0, recs, fuel) {
            Out::Need(p) => Out::Need(p),
            Out::Fail(c) => Out::Fail(c),
            Out::Done((xs, r)) => Out::Done((JV::Arr(xs), r)),
        },
        JV::Obj(es) => match resolve_members(files, es, w, recs, fuel) {
            Out::Need(p) => Out::Need(p),
            Out::Fail(c) => Out::Fail(c),
            Out::Done((xs, r)) => Out::Done((JV::Obj(xs), r)),
        },
        _ => Out::Done((v, recs)),
    }
}

/// Resolves array elements in order; element `start + i` is walked under
/// its index.
pub open spec fn resolve_items(files: Seq<FileV>, items: Seq<JV>, w: WalkV, start: nat, recs: Seq<RecV>, fuel: nat) -> Out<(Seq<JV>, Seq<RecV>)>
    decreases fuel, items,
{
    if items.len() == 0 {
        Out::Done((Seq::empty(), recs))
    } else {
        match resolve_spec(files, items[0], step_walk(w, dec_spec(start)), recs, fuel) {
            Out::Need(p) => Out::Need(p),
            Out::Fail(c) => Out::Fail(c),
            Out::Done((x, r2)) => match resolve_items(files, items.drop_first(), w, start + 1, r2, fuel) {
                Out::Need(p) => Out::Need(p),
                Out::Fail(c) => Out::Fail(c),
                Out::Done((xs, r3)) => Out::Done((seq![x] + xs, r3)),
            },
        }
    }
}

/// Resolves object members in order, each walked under its key; keys are
/// never touched.
pub open spec fn resolve_members(files: Seq<FileV>, es: Seq<(Seq<char>, JV)>, w: WalkV, recs: Seq<RecV>, fuel: nat) -> Out<(Seq<(Seq<char>, JV)>, Seq<RecV>)>
    decreases fuel, es,
{
    if es.len() == 0 {
        Out::Done((Seq::empty(), recs))
    } else {
        match resolve_spec(files, es[0].1, step_walk(w, es[0].0), recs, fuel) {
            Out::Need(p) => Out::Need(p),
            Out::Fail(c) => Out::Fail(c),
            Out::Done((x, r2)) => match resolve_members(files, es.drop_first(), w, r2, fuel) {
                Out::Need(p) => Out::Need(p),
                Out::Fail(c) => Out::Fail(c),
                Out::Done((xs, r3)) => Out::Done((seq![(es[0].0, x)] + xs, r3)),
            },
        }
    }
}


/// Whether some entry names `c` as its canonical path.
pub open spec fn names_canonical(files: Seq<FileV>, c: Seq<char>) -> bool {
    exists|i: int| 0 <= i < files.len() && files[i].canonical == Some(c)
}

/// How many distinct canonical paths the entries name that are not on
/// `stack`: the includes that can still be entered.
pub open spec fn fresh_count(files: Seq<FileV>, stack: Seq<Seq<char>>) -> nat
    decreases files.len(),
{
    if files.len() == 0 {
        0
    } else {
        let rest = files.drop_last();
        fresh_count(rest, stack) + match files.last().canonical {
            Some(c) => if !stack.contains(c) && !names_canonical(rest, c) {
                1nat
            } else {
                0nat
            },
            None => 0nat,
        }
    }
}

proof fn lemma_fresh_le(files: Seq<FileV>, stack: Seq<Seq<char>>)
    ensures
        fresh_count(files, stack) <= files.len(),
    decreases files.len(),
{
    if files.len() > 0 {
        lemma_fresh_le(files.drop_last(), stack);
    }
}

/// Putting `c` on the stack never adds an enterable include, and removes
/// one when some entry names `c` and it was not on the stack yet.
proof fn lemma_fresh_push(files: Seq<FileV>, stack: Seq<Seq<char>>, c: Seq<char>)
    ensures
        fresh_count(files, stack.push(c)) <= fresh_count(files, stack),
        names_canonical(files, c) && !stack.contains(c) ==> fresh_count(files, stack.push(c)) < fresh_count(files, stack),
    decreases files.len(),
{
    if files.len() > 0 {
        let rest = files.drop_last();
        lemma_fresh_push(rest, stack, c);
        let pushed = stack.push(c);
        match files.last().canonical {
            Some(d) => {
                if stack.contains(d) {
                    let k = choose|k: int| 0 <= k < stack.len() && stack[k] == d;
                    assert(pushed[k] == d);
                }
                if d == c {
                    assert(pushed[stack.len() as int] == c);
                }
            },
            None => {},
        }
        if names_canonical(files, c) && !names_canonical(rest, c) {
            let i = choose|i: int| 0 <= i < files.len() && files[i].canonical == Some(c);
            if i < rest.len() {
                assert(rest[i] == files[i]);
            }
            assert(pushed[stack.len() as int] == c);
        }
    }
}

/// The entry `entry_for` finds is one of the entries.
proof fn lemma_entry_for_in(files: Seq<FileV>, p: Seq<char>)
    ensures
        entry_for(files, p) matches Some(f) ==> exists|i: int| 0 <= i < files.len() && files[i] == f,
    decreases files.len(),
{
    if files.len() > 0 && files[0].path != p {
        lemma_entry_for_in(files.drop_first(), p);
        if entry_for(files, p) is Some {
            let i = choose|i: int| 0 <= i < files.len() - 1 && files.drop_first()[i] == entry_for(files, p).unwrap();
            assert(files[i + 1] == files.drop_first()[i]);
        }
    } else if files.len() > 0 {
        assert(files[0] == entry_for(files, p).unwrap());
    }
}

proof fn lemma_resolve_fuel(files: Seq<FileV>, v: JV, w: WalkV, recs: Seq<RecV>, f1: nat, f2: nat)
    requires
        f1 >= fresh_count(files, w.stack),
        f2 >= fresh_count(files, w.stack),
    ensures
        resolve_spec(files, v, w, recs, f1) == resolve_spec(files, v, w, recs, f2),
    decreases fresh_count(files, w.stack), v,
{
    match v {
        JV::Str(s) => {
            if !(s.len() >= 2 && s[0] == '@' && s[1] == '@') && is_include_spec(s) {
                match graft_target_spec(files, s.skip(6), w) {
                    Out::Done((joined, f, fmt, tree)) => {
                        lemma_entry_for_in(files, include_target_spec(s.skip(6), w.dir));
                        let c = f.canonical->Some_0;
                        let i = choose|i: int| 0 <= i < files.len() && files[i] == f;
                        assert(files[i].canonical == Some(c));
                        lemma_fresh_push(files, w.stack, c);
                        let refs = w.chain.push((w.doc, w.src));
                        let recs2 = record_graft(
                            recs,
                            RecV { path: joined, data: f.data->Some_0, format: fmt, parsed: Some(tree), grafts: Seq::empty() },
                            GraftV { effective: w.eff, chain: refs },
                        );
                        let w2 = WalkV {
                            doc: joined,
                            dir: parent_spec(joined),
                            src: Seq::empty(),
                            eff: w.eff,
                            stack: w.stack.push(c),
                            chain: refs,
                        };
                        lemma_resolve_fuel(files, tree, w2, recs2, (f1 - 1) as nat, (f2 - 1) as nat);
                    },
                    _ => {},
                }
            }
        },
        JV::Arr(items) => {
            lemma_items_fuel(files, items, w, 0, recs, f1, f2);
        },
        JV::Obj(es) => {
            lemma_members_fuel(files, es, w, recs, f1, f2);
        },
        _ => {},
    }
}

proof fn lemma_items_fuel(files: Seq<FileV>, items: Seq<JV>, w: WalkV, start: nat, recs: Seq<RecV>, f1: nat, f2: nat)
    requires
        f1 >= fresh_count(files, w.stack),
        f2 >= fresh_count(files, w.stack),
    ensures
        resolve_items(files, items, w, start, recs, f1) == resolve_items(files, items, w, start, recs, f2),
    decreases fresh_count(files, w.stack), items,
{
    if items.len() > 0 {
        let wi = step_walk(w, dec_spec(start));
        assert(wi.stack == w.stack);
        lemma_resolve_fuel(files, items[0], wi, recs, f1, f2);
        match resolve_spec(files, items[0], wi, recs, f1) {
            Out::Done((x, r2)) => {
                lemma_items_fuel(files, items.drop_first(), w, start + 1, r2, f1, f2);
            },
            _ => {},
        }
    }
}

proof fn lemma_members_fuel(files: Seq<FileV>, es: Seq<(Seq<char>, JV)>, w: WalkV, recs: Seq<RecV>, f1: nat, f2: nat)
    requires
        f1 >= fresh_count(files, w.stack),
        f2 >= fresh_count(files, w.stack),
    ensures
        resolve_members(files, es, w, recs, f1) == resolve_members(files, es, w, recs, f2),
    decreases fresh_count(files, w.stack), es,
{
    if es.len() > 0 {
        let wi = step_walk(w, es[0].0);
        assert(wi.stack == w.stack);
        lemma_resolve_fuel(files, es[0].1, wi, recs, f1, f2);
        match resolve_spec(files, es[0].1, wi, recs, f1) {
            Out::Done((x, r2)) => {
                lemma_members_fuel(files, es.drop_first(), w, r2, f1, f2);
            },
            _ => {},
        }
    }
}

/// Law: the include-depth bound never decides a load. Every include enters
/// a file no include on the way in entered (by canonical path), so any
/// bound of at least the number of entries on the disk resolves a value
/// exactly as any larger one does: as if there were no bound at all.
pub proof fn law_include_bound_never_decides(files: Seq<FileV>, v: JV, w: WalkV, recs: Seq<RecV>, f1: nat, f2: nat)
    requires
        f1 >= files.len(),
        f2 >= files.len(),
    ensures
        resolve_spec(files, v, w, recs, f1) == resolve_spec(files, v, w, recs, f2),
{
    lemma_fresh_le(files, w.stack);
    lemma_resolve_fuel(files, v, w, recs, f1, f2);
}

} // verus!

verus! {

/// The paths, each followed by ` -> `.
pub open spec fn arrow_chain(paths: Seq<Seq<char>>) -> Seq<char>
    decreases paths.len(),
{
    if paths.len() == 0 {
        Seq::empty()
    } else {
        arrow_chain(paths.drop_last()) + paths.last() + " -> "@
    }
}

/// The include-cycle message: the paths on the stack from `at` on, then
/// `canonical`, joined by ` -> `.
fn cycle_message(stack: &Vec<String>, at: usize, canonical: &str) -> (r: String)
    requires
        at <= stack.len(),
    ensures
        r@ == "include cycle: "@ + arrow_chain(name_views(stack@).subrange(at as int, stack.len() as int)) + canonical@,
{
    let ghost st = name_views(stack@);
    let mut m: String = owned("include cycle: ");
    let mut k = at;
    assert(st.subrange(at as int, at as int) =~= Seq::<Seq<char>>::empty());
    while k < stack.len()
        invariant
            at <= k <= stack.len(),
            st == name_views(stack@),
            st.len() == stack.len(),
            m@ == "include cycle: "@ + arrow_chain(st.subrange(at as int, k as int)),
        decreases stack.len() - k,
    {
        assert(st.subrange(at as int, k + 1).drop_last() =~= st.subrange(at as int, k as int));
        assert(st.subrange(at as int, k + 1).last() == stack@[k as int]@);
        m = concat3(m.as_str(), stack[k].as_str(), " -> ");
        k = k + 1;
    }
    concat2(m.as_str(), canonical)
}

/// Where `c` first occurs in `stack`.
fn position_of(stack: &Vec<String>, c: &str) -> (r: Option<usize>)
    ensures
        r matches Some(k) ==> k < stack.len() && name_views(stack@).contains(c@),
        r is None ==> !name_views(stack@).contains(c@),
{
    let ghost st = name_views(stack@);
    let mut k: usize = 0;
    while k < stack.len()
        invariant
            k <= stack.len(),
            st == name_views(stack@),
            st.len() == stack.len(),
            forall|j: int| 0 <= j < k ==> st[j] != c@,
        decreases stack.len() - k,
    {
        if same_text(stack[k].as_str(), c) {
            assert(st[k as int] == c@);
            return Some(k);
        }
        k = k + 1;
    }
    None
}

/// Finds, checks, and parses an include's target: the target's
/// path, where its entry is, its format, and its value.
fn graft_target(disk: &Disk, target: &str, w: &Walk) -> (r: Step<Result<(String, usize, Format, Json), Error>>)
    ensures
        match graft_target_spec(files_view(*disk), target@, walk_view(*w)) {
            Out::Need(p) => r matches Step::Need(q) && q@ == p,
            Out::Fail(c) => r matches Step::Done(Err(e)) && e.spec_code() == c,
            Out::Done((joined, f, fmt, tree)) => r matches Step::Done(Ok((j, i, fm, t))) && j@ == joined && i
                < disk.files.len() && file_view(disk.files@[i as int]) == f && fm == fmt && t@ == tree,
        },
{
    proof {
        reveal_strlit("");
        if target@.len() == 0 {
            assert(target@ =~= ""@);
        }
    }
    if same_text(target, "") {
        return Step::Done(Err(Error::new(ErrorCode::Include, owned("`@file:` with an empty path"))));
    }
    let joined = include_target(target, w.dir.as_str());
    let fmt = match crate::parse::format_for_path(joined.as_str()) {
        Some(f) => f,
        None => {
            return Step::Done(Err(Error::new(ErrorCode::Include, concat3("include ", target,
                ": unsupported extension (want .json, .yaml, .yml, or .toml)"))));
        },
    };
    let i = match find_entry(disk, joined.as_str()) {
        Some(i) => i,
        None => {
            return Step::Need(joined);
        },
    };
    let entry = &disk.files[i];
    let canonical = match &entry.canonical {
        Ok(c) => c,
        Err(m) => {
            return Step::Done(Err(Error::new(ErrorCode::Include, concat3(joined.as_str(), ": ", m.as_str()))));
        },
    };
    if !entry.is_file {
        return Step::Done(Err(Error::new(ErrorCode::Include, concat2(joined.as_str(), " is not a regular file"))));
    }
    match position_of(&w.stack, canonical.as_str()) {
        Some(k) => {
            return Step::Done(Err(Error::new(ErrorCode::IncludeCycle, cycle_message(&w.stack, k, canonical.as_str()))));
        },
        None => {},
    }
    match &entry.data {
        Ok(_) => {},
        Err(m) => {
            return Step::Done(Err(Error::new(ErrorCode::Include, concat3(joined.as_str(), ": ", m.as_str()))));
        },
    }
    match parse_document(entry, fmt) {
        Ok(tree) => Step::Done(Ok((joined, i, fmt, tree))),
        Err(e) => Step::Done(Err(e)),
    }
}

} // verus!

verus! {

/// Prepends finished elements to the outcome for the rest.
pub open spec fn prepend_items(p: Seq<JV>, o: Out<(Seq<JV>, Seq<RecV>)>) -> Out<(Seq<JV>, Seq<RecV>)> {
    match o {
        Out::Done((xs, r)) => Out::Done((p + xs, r)),
        Out::Need(q) => Out::Need(q),
        Out::Fail(c) => Out::Fail(c),
    }
}

/// Prepends finished members to the outcome for the rest.
pub open spec fn prepend_members(p: Seq<(Seq<char>, JV)>, o: Out<(Seq<(Seq<char>, JV)>, Seq<RecV>)>) -> Out<(Seq<(Seq<char>, JV)>, Seq<RecV>)> {
    match o {
        Out::Done((xs, r)) => Out::Done((p + xs, r)),
        Out::Need(q) => Out::Need(q),
        Out::Fail(c) => Out::Fail(c),
    }
}

/// Resolves every `@file:` reference in `value`, recording each
/// grafted document.
pub fn resolve(disk: &Disk, value: &Json, w: &Walk, recs: &mut Vec<DocRecord>, fuel: usize) -> (r: Step<Result<Json, Error>>)
    ensures
        match resolve_spec(files_view(*disk), value@, walk_view(*w), recs_view(old(recs)@), fuel as nat) {
            Out::Need(p) => r matches Step::Need(q) && q@ == p,
            Out::Fail(c) => r matches Step::Done(Err(e)) && e.spec_code() == c,
            Out::Done((v, rs)) => r matches Step::Done(Ok(j)) && j@ == v && recs_view(final(recs)@) == rs,
        },
    decreases fuel, jv_of(*value),
{
    broadcast use crate::json::lemma_jv_seq, crate::json::lemma_jv_entries;
    let ghost files = files_view(*disk);
    let ghost wv = walk_view(*w);
    match value {
        Json::Str(s) => {
            let c = crate::text::chars_of(s.as_str());
            if c.len() >= 2 && c[0] == '@' && c[1] == '@' {
                let rest = crate::text::slice_vec(&c, 1, c.len());
                assert(rest@ =~= s@.drop_first());
                return Step::Done(Ok(Json::Str(crate::text::string_of(rest.as_slice()))));
            }
            let pre = crate::text::chars_of("@file:");
            proof {
                reveal_strlit("@file:");
            }
            let is_inc = c.len() >= 6 && c[0] == pre[0] && c[1] == pre[1] && c[2] == pre[2] && c[3] == pre[3]
                && c[4] == pre[4] && c[5] == pre[5];
            assert(is_inc == is_include_spec(s@)) by {
                if c.len() >= 6 {
                    if is_inc {
                        assert(s@.take(6) =~= include_prefix());
                    }
                    if s@.take(6) == include_prefix() {
                        assert(s@.take(6)[0] == pre@[0]);
                        assert(s@.take(6)[1] == pre@[1]);
                        assert(s@.take(6)[2] == pre@[2]);
                        assert(s@.take(6)[3] == pre@[3]);
                        assert(s@.take(6)[4] == pre@[4]);
                        assert(s@.take(6)[5] == pre@[5]);
                    }
                }
            }
            if is_inc {
                let tv = crate::text::slice_vec(&c, 6, c.len());
                assert(tv@ =~= s@.skip(6));
                let target = crate::text::string_of(tv.as_slice());
                match graft_target(disk, target.as_str(), w) {
                    Step::Need(p) => Step::Need(p),
                    Step::Done(Err(e)) => Step::Done(Err(e)),
                    Step::Done(Ok((joined, idx, fmt, tree))) => {
                        if fuel == 0 {
                            return Step::Done(Err(Error::new(ErrorCode::IncludeCycle, concat2(
                                "include chain deeper than the files read, at ",
                                joined.as_str(),
                            ))));
                        }
                        let entry = &disk.files[idx];
                        let data = match &entry.data {
                            Ok(d) => d,
                            Err(_) => {
                                assert(false);
                                return Step::Need(joined);
                            },
                        };
                        let canonical = match &entry.canonical {
                            Ok(c) => c.clone(),
                            Err(_) => {
                                assert(false);
                                return Step::Need(joined);
                            },
                        };
                        let mut refs = copy_pairs(&w.chain);
                        let ghost rv0 = pair_views(refs@);
                        refs.push((w.doc.clone(), w.src.clone()));
                        assert(pair_views(refs@) =~= wv.chain.push((wv.doc, wv.src)));
                        let g = RawGraft { effective: w.eff.clone(), chain: copy_pairs(&refs) };
                        record_grafted(recs, joined.as_str(), data, fmt, copy_json(&tree), g);
                        let mut stack = copy_strings(&w.stack);
                        let ghost sv0 = name_views(stack@);
                        stack.push(canonical);
                        assert(name_views(stack@) =~= sv0.push(canonical@));
                        let next = Walk {
                            doc: joined.clone(),
                            dir: parent(joined.as_str()),
                            src: String::new(),
                            eff: w.eff.clone(),
                            stack,
                            chain: refs,
                        };
                        resolve(disk, &tree, &next, recs, fuel - 1)
                    },
                }
            } else if c.len() >= 1 && c[0] == '@' {
                Step::Done(Err(Error::new(ErrorCode::Substitution, concat2(s.as_str(),
                    " starts with `@` but is not an include; the `@` namespace is reserved (write `@@` for a literal `@`)"))))
            } else {
                Step::Done(Ok(Json::Str(s.clone())))
            }
        },
        Json::Array(items) => {
            let ghost iv = crate::json::jv_seq(items@);
            let ghost recs0 = recs_view(recs@);
            let mut out: Vec<Json> = Vec::new();
            let mut i: usize = 0;
            assert(iv.skip(0) =~= iv);
            proof {
                match resolve_items(files, iv, wv, 0, recs0, fuel as nat) {
                    Out::Done((xs, r)) => {
                        assert(Seq::<JV>::empty() + xs =~= xs);
                    },
                    _ => {},
                }
            }
            while i < items.len()
                invariant
                    i <= items.len(),
                    iv == crate::json::jv_seq(items@),
                    iv.len() == items.len(),
                    forall|k: int| 0 <= k < iv.len() ==> #[trigger] iv[k] == jv_of(items@[k]),
                    *value == Json::Array(*items),
                    recs0 == recs_view(old(recs)@),
                    files == files_view(*disk),
                    wv == walk_view(*w),
                    out@.len() == i,
                    resolve_items(files, iv, wv, 0, recs0, fuel as nat) == prepend_items(
                        crate::json::jv_seq(out@),
                        resolve_items(files, iv.skip(i as int), wv, i as nat, recs_view(recs@), fuel as nat),
                    ),
                decreases items.len() - i,
            {
                proof {
                    let a = JV::Arr(iv);
                    assert(decreases_to!(a => a->Arr_0));
                    assert(decreases_to!(iv => iv[i as int]));
                }
                let ghost rest = iv.skip(i as int);
                assert(rest[0] == iv[i as int]);
                assert(rest.drop_first() =~= iv.skip(i + 1));
                let tok = count_text(i);
                let wi = w.step(tok.as_str());
                let ghost before = crate::json::jv_seq(out@);
                match resolve(disk, &items[i], &wi, recs, fuel) {
                    Step::Need(p) => {
                        return Step::Need(p);
                    },
                    Step::Done(Err(e)) => {
                        return Step::Done(Err(e));
                    },
                    Step::Done(Ok(x)) => {
                        let ghost prev = out@;
                        out.push(x);
                        assert(out@.drop_last() =~= prev);
                        assert(crate::json::jv_seq(out@) =~= before.push(x@));
                        proof {
                            match resolve_items(files, iv.skip(i + 1), wv, (i + 1) as nat, recs_view(recs@), fuel as nat) {
                                Out::Done((xs, r)) => {
                                    assert(before + (seq![x@] + xs) =~= before.push(x@) + xs);
                                },
                                _ => {},
                            }
                        }
                    },
                }
                i = i + 1;
            }
            assert(iv.skip(i as int) =~= Seq::<JV>::empty());
            assert(crate::json::jv_seq(out@) + Seq::<JV>::empty() =~= crate::json::jv_seq(out@));
            Step::Done(Ok(Json::Array(out)))
        },
        Json::Object(entries) => {
            let ghost es = crate::json::jv_entries(entries@);
            let ghost recs0 = recs_view(recs@);
            let mut out: Vec<(String, Json)> = Vec::new();
            let mut i: usize = 0;
            assert(es.skip(0) =~= es);
            proof {
                match resolve_members(files, es, wv, recs0, fuel as nat) {
                    Out::Done((xs, r)) => {
                        assert(Seq::<(Seq<char>, JV)>::empty() + xs =~= xs);
                    },
                    _ => {},
                }
            }
            while i < entries.len()
                invariant
                    i <= entries.len(),
                    es == crate::json::jv_entries(entries@),
                    es.len() == entries.len(),
                    forall|k: int| 0 <= k < es.len() ==> #[trigger] es[k] == (entries@[k].0@, jv_of(entries@[k].1)),
                    *value == Json::Object(*entries),
                    recs0 == recs_view(old(recs)@),
                    files == files_view(*disk),
                    wv == walk_view(*w),
                    out@.len() == i,
                    resolve_members(files, es, wv, recs0, fuel as nat) == prepend_members(
                        crate::json::jv_entries(out@),
                        resolve_members(files, es.skip(i as int), wv, recs_view(recs@), fuel as nat),
                    ),
                decreases entries.len() - i,
            {
                proof {
                    let o = JV::Obj(es);
                    assert(decreases_to!(o => o->Obj_0));
                    assert(decreases_to!(es => es[i as int]));
                    assert(decreases_to!(es[i as int] => es[i as int].1));
                }
                let ghost rest = es.skip(i as int);
                assert(rest[0] == es[i as int]);
                assert(rest.drop_first() =~= es.skip(i + 1));
                let wi = w.step(entries[i].0.as_str());
                let ghost before = crate::json::jv_entries(out@);
                match resolve(disk, &entries[i].1, &wi, recs, fuel) {
                    Step::Need(p) => {
                        return Step::Need(p);
                    },
                    Step::Done(Err(e)) => {
                        return Step::Done(Err(e));
                    },
                    Step::Done(Ok(x)) => {
                        let k = entries[i].0.clone();
                        let ghost prev = out@;
                        out.push((k, x));
                        assert(out@.drop_last() =~= prev);
                        assert(crate::json::jv_entries(out@) =~= before.push((es[i as int].0, x@)));
                        proof {
                            match resolve_members(files, es.skip(i + 1), wv, recs_view(recs@), fuel as nat) {
                                Out::Done((xs, r)) => {
                                    assert(before + (seq![(es[i as int].0, x@)] + xs) =~= before.push((es[i as int].0, x@)) + xs);
                                },
                                _ => {},
                            }
                        }
                    },
                }
                i = i + 1;
            }
            assert(es.skip(i as int) =~= Seq::<(Seq<char>, JV)>::empty());
            assert(crate::json::jv_entries(out@) + Seq::<(Seq<char>, JV)>::empty() =~= crate::json::jv_entries(out@));
            Step::Done(Ok(Json::Object(out)))
        },
        Json::Null => Step::Done(Ok(Json::Null)),
        Json::Bool(b) => Step::Done(Ok(Json::Bool(*b))),
        Json::Number(n) => Step::Done(Ok(Json::Number(crate::json::copy_number(n)))),
    }
}

} // verus!

verus! {

/// How many leading names sort before `x`.
pub open spec fn names_before(s: Seq<Seq<char>>, x: Seq<char>) -> int
    decreases s.len(),
{
    if s.len() == 0 {
        0
    } else if crate::text::key_lt(s[0], x) {
        1 + names_before(s.drop_first(), x)
    } else {
        0
    }
}

/// Names sorted by code point, each inserted where it sorts.
pub open spec fn sort_names(s: Seq<Seq<char>>) -> Seq<Seq<char>>
    decreases s.len(),
{
    if s.len() == 0 {
        Seq::empty()
    } else {
        let t = sort_names(s.drop_last());
        t.insert(names_before(t, s.last()), s.last())
    }
}

proof fn lemma_names_before(s: Seq<Seq<char>>, x: Seq<char>)
    ensures
        0 <= names_before(s, x) <= s.len(),
    decreases s.len(),
{
    if s.len() > 0 && crate::text::key_lt(s[0], x) {
        lemma_names_before(s.drop_first(), x);
    }
}

proof fn lemma_names_before_bound(s: Seq<Seq<char>>, x: Seq<char>)
    ensures
        0 <= names_before(s, x) <= s.len(),
        forall|j: int| 0 <= j < names_before(s, x) ==> crate::text::key_lt(#[trigger] s[j], x),
        names_before(s, x) < s.len() ==> !crate::text::key_lt(s[names_before(s, x)], x),
    decreases s.len(),
{
    if s.len() > 0 && crate::text::key_lt(s[0], x) {
        lemma_names_before_bound(s.drop_first(), x);
        assert forall|j: int| 0 <= j < names_before(s, x) implies crate::text::key_lt(#[trigger] s[j], x) by {
            if j > 0 {
                assert(s[j] == s.drop_first()[j - 1]);
            }
        }
    }
}

/// Names in code-point order (equal names in any order).
pub open spec fn names_sorted(s: Seq<Seq<char>>) -> bool {
    forall|i: int, j: int| 0 <= i < j < s.len() ==> !crate::text::key_lt(#[trigger] s[j], #[trigger] s[i])
}

/// Sorting names puts them in code-point order and keeps their number.
pub proof fn lemma_sort_names_sorted(s: Seq<Seq<char>>)
    ensures
        names_sorted(sort_names(s)),
        sort_names(s).len() == s.len(),
    decreases s.len(),
{
    if s.len() > 0 {
        lemma_sort_names_sorted(s.drop_last());
        let t = sort_names(s.drop_last());
        let x = s.last();
        lemma_names_before_bound(t, x);
        let p = names_before(t, x);
        let r = t.insert(p, x);
        assert forall|i: int, j: int| 0 <= i < j < r.len() implies !crate::text::key_lt(#[trigger] r[j], #[trigger] r[i]) by {
            if j < p {
                assert(r[i] == t[i] && r[j] == t[j]);
            } else if j == p {
                assert(r[i] == t[i]);
                crate::text::lemma_key_lt_total(t[i], x);
            } else if i < p {
                assert(r[i] == t[i] && r[j] == t[j - 1]);
                crate::text::lemma_key_lt_total(t[p], x);
                crate::text::lemma_key_lt_total(t[p], t[j - 1]);
                // t[i] < x <= t[p] <= t[j - 1]
                if key_lt_or_eq(x, t[p]) && key_lt_or_eq(t[p], t[j - 1]) {
                    if crate::text::key_lt(x, t[p]) {
                        crate::text::lemma_key_lt_transitive(t[i], x, t[p]);
                        if crate::text::key_lt(t[p], t[j - 1]) {
                            crate::text::lemma_key_lt_transitive(t[i], t[p], t[j - 1]);
                        }
                    } else if crate::text::key_lt(t[p], t[j - 1]) {
                        crate::text::lemma_key_lt_transitive(t[i], t[p], t[j - 1]);
                    }
                }
                crate::text::lemma_key_lt_total(t[i], t[j - 1]);
            } else if i == p {
                assert(r[j] == t[j - 1]);
                crate::text::lemma_key_lt_total(t[p], t[j - 1]);
                if crate::text::key_lt(t[j - 1], x) && crate::text::key_lt(t[p], t[j - 1]) {
                    crate::text::lemma_key_lt_transitive(t[p], t[j - 1], x);
                }
            } else {
                assert(r[i] == t[i - 1] && r[j] == t[j - 1]);
            }
        }
    }
}

/// Sorting keeps the names, each as often as it occurs.
pub proof fn lemma_sort_names_multiset(s: Seq<Seq<char>>)
    ensures
        sort_names(s).to_multiset() == s.to_multiset(),
    decreases s.len(),
{
    broadcast use vstd::seq_lib::group_to_multiset_ensures;
    broadcast use vstd::multiset::group_multiset_axioms;

    if s.len() > 0 {
        lemma_sort_names_multiset(s.drop_last());
        let t = sort_names(s.drop_last());
        let x = s.last();
        lemma_names_before_bound(t, x);
        let p = names_before(t, x);
        let r = t.insert(p, x);
        assert(s.drop_last().push(x) =~= s);
        assert(r.remove(p) =~= t);
        assert(r[p] == x);
        assert(r.contains(x));
        assert(r.to_multiset() =~= r.to_multiset().remove(x).insert(x));
    } else {
        assert(sort_names(s) =~= s);
    }
}

/// Names in code-point order, as a total order on names.
pub open spec fn name_leq(a: Seq<char>, b: Seq<char>) -> bool {
    !crate::text::key_lt(b, a)
}

proof fn lemma_name_leq_total()
    ensures
        vstd::relations::total_ordering(|a: Seq<char>, b: Seq<char>| name_leq(a, b)),
{
    let leq = |a: Seq<char>, b: Seq<char>| name_leq(a, b);
    assert forall|x: Seq<char>| #[trigger] leq(x, x) by {
        crate::text::lemma_key_lt_irreflexive(x);
    }
    assert forall|x: Seq<char>, y: Seq<char>| #[trigger] leq(x, y) && #[trigger] leq(y, x) implies x == y by {
        crate::text::lemma_key_lt_total(x, y);
    }
    assert forall|x: Seq<char>, y: Seq<char>, z: Seq<char>| #[trigger] leq(x, y) && #[trigger] leq(y, z) implies leq(x, z) by {
        crate::text::lemma_key_lt_total(x, y);
        if crate::text::key_lt(z, x) {
            if x == y {
            } else {
                crate::text::lemma_key_lt_transitive(z, x, y);
            }
        }
    }
    assert forall|x: Seq<char>, y: Seq<char>| #[trigger] leq(x, y) || #[trigger] leq(y, x) by {
        crate::text::lemma_key_lt_total(x, y);
    }
}

/// Names that are the same up to order sort alike.
pub proof fn lemma_sort_names_same(s1: Seq<Seq<char>>, s2: Seq<Seq<char>>)
    requires
        s1.to_multiset() == s2.to_multiset(),
    ensures
        sort_names(s1) == sort_names(s2),
{
    let leq = |a: Seq<char>, b: Seq<char>| name_leq(a, b);
    lemma_sort_names_sorted(s1);
    lemma_sort_names_sorted(s2);
    lemma_sort_names_multiset(s1);
    lemma_sort_names_multiset(s2);
    lemma_name_leq_total();
    let r1 = sort_names(s1);
    let r2 = sort_names(s2);
    assert forall|i: int, j: int| 0 <= i < j < r1.len() implies #[trigger] leq(r1[i], r1[j]) by {
        assert(!crate::text::key_lt(r1[j], r1[i]));
    }
    assert forall|i: int, j: int| 0 <= i < j < r2.len() implies #[trigger] leq(r2[i], r2[j]) by {
        assert(!crate::text::key_lt(r2[j], r2[i]));
    }
    vstd::seq_lib::lemma_sorted_unique(r1, r2, leq);
}

spec fn key_lt_or_eq(a: Seq<char>, b: Seq<char>) -> bool {
    a == b || crate::text::key_lt(a, b)
}

proof fn lemma_sort_len(s: Seq<Seq<char>>)
    ensures
        sort_names(s).len() == s.len(),
    decreases s.len(),
{
    if s.len() > 0 {
        lemma_sort_len(s.drop_last());
        lemma_names_before(sort_names(s.drop_last()), s.last());
    }
}

/// Sorts names by code point.
pub fn sorted(names: &Vec<String>) -> (r: Vec<String>)
    ensures
        name_views(r@) == sort_names(name_views(names@)),
{
    let ghost nv = name_views(names@);
    let mut out: Vec<String> = Vec::new();
    let mut i: usize = 0;
    assert(nv.take(0) =~= Seq::<Seq<char>>::empty());
    while i < names.len()
        invariant
            i <= names.len(),
            nv == name_views(names@),
            nv.len() == names.len(),
            name_views(out@) == sort_names(nv.take(i as int)),
        decreases names.len() - i,
    {
        let ghost t = name_views(out@);
        let x = &names[i];
        let mut p: usize = 0;
        proof {
            lemma_sort_len(nv.take(i as int));
            lemma_names_before(t, x@);
        }
        assert(t.skip(0) =~= t);
        while p < out.len() && crate::text::key_less(out[p].as_str(), x.as_str())
            invariant
                p <= out.len(),
                t == name_views(out@),
                t.len() == out.len(),
                names_before(t, x@) == p + names_before(t.skip(p as int), x@),
            decreases out.len() - p,
        {
            assert(t.skip(p as int)[0] == t[p as int]);
            assert(t.skip(p as int).drop_first() =~= t.skip(p + 1));
            p = p + 1;
        }
        proof {
            if p < out.len() {
                assert(t.skip(p as int)[0] == t[p as int]);
            }
        }
        out.insert(p, x.clone());
        assert(nv.take(i + 1).drop_last() =~= nv.take(i as int));
        assert(nv.take(i + 1).last() == x@);
        assert(name_views(out@) =~= t.insert(p as int, x@));
        i = i + 1;
    }
    assert(nv.take(i as int) =~= nv);
    out
}

/// The value `m` holds for `k`: the first pair named `k`.
pub open spec fn lookup_view(m: Seq<(Seq<char>, Seq<char>)>, k: Seq<char>) -> Option<Seq<char>>
    decreases m.len(),
{
    if m.len() == 0 {
        None
    } else if m[0].0 == k {
        Some(m[0].1)
    } else {
        lookup_view(m.drop_first(), k)
    }
}

/// `lookup_spec` reads the views only.
pub proof fn lemma_lookup_view_pub(m: Seq<(String, String)>, k: Seq<char>)
    ensures
        crate::envfile::lookup_spec(m, k) == lookup_view(pair_views(m), k),
{
    lemma_lookup_view(m, k);
}

proof fn lemma_lookup_view(m: Seq<(String, String)>, k: Seq<char>)
    ensures
        crate::envfile::lookup_spec(m, k) == lookup_view(pair_views(m), k),
    decreases m.len(),
{
    if m.len() > 0 {
        assert(pair_views(m).drop_first() =~= pair_views(m.drop_first()));
        lemma_lookup_view(m.drop_first(), k);
    }
}

/// The variable namespace: the process environment shadows the
/// `*.env` definitions.
pub open spec fn namespace(process: Seq<(Seq<char>, Seq<char>)>, files: Seq<(Seq<char>, Seq<char>)>) -> spec_fn(Seq<char>) -> Option<Seq<char>> {
    |n: Seq<char>| match lookup_view(process, n) {
        Some(v) => Some(v),
        None => lookup_view(files, n),
    }
}

proof fn lemma_lookup_view_first(m: Seq<(Seq<char>, Seq<char>)>, k: Seq<char>, v: Seq<char>)
    requires
        crate::envfile::first_value(m, k, v),
    ensures
        lookup_view(m, k) == Some(v),
    decreases m.len(),
{
    let i = choose|i: int| 0 <= i < m.len() && m[i] == (k, v) && forall|j: int| 0 <= j < i ==> (#[trigger] m[j]).0 != k;
    if i > 0 {
        assert(m[0].0 != k);
        let m1 = m.drop_first();
        assert(m1[i - 1] == m[i]);
        assert forall|j: int| 0 <= j < i - 1 implies (#[trigger] m1[j]).0 != k by {
            assert(m1[j] == m[j + 1]);
        }
        lemma_lookup_view_first(m1, k, v);
    }
}

proof fn lemma_lookup_view_lacks(m: Seq<(Seq<char>, Seq<char>)>, k: Seq<char>)
    requires
        crate::envfile::lacks_name(m, k),
    ensures
        lookup_view(m, k) is None,
    decreases m.len(),
{
    if m.len() > 0 {
        assert(m[0].0 != k);
        assert forall|j: int| 0 <= j < m.drop_first().len() implies (#[trigger] m.drop_first()[j]).0 != k by {
            assert(m.drop_first()[j] == m[j + 1]);
        }
        lemma_lookup_view_lacks(m.drop_first(), k);
    }
}

/// Law: in the namespace a load interpolates with, the process environment
/// wins over the `*.env` files: a name the process environment defines has
/// the process's (first) value whatever the files say; otherwise the files'
/// (first) value; otherwise none.
pub proof fn law_namespace_process_wins(
    process: Seq<(Seq<char>, Seq<char>)>,
    files: Seq<(Seq<char>, Seq<char>)>,
    name: Seq<char>,
    v: Seq<char>,
)
    ensures
        crate::envfile::first_value(process, name, v) ==> namespace(process, files)(name) == Some(v),
        crate::envfile::lacks_name(process, name) && crate::envfile::first_value(files, name, v)
            ==> namespace(process, files)(name) == Some(v),
        crate::envfile::lacks_name(process, name) && crate::envfile::lacks_name(files, name)
            ==> namespace(process, files)(name) is None,
{
    if crate::envfile::first_value(process, name, v) {
        lemma_lookup_view_first(process, name, v);
    }
    if crate::envfile::lacks_name(process, name) {
        lemma_lookup_view_lacks(process, name);
        if crate::envfile::first_value(files, name, v) {
            lemma_lookup_view_first(files, name, v);
        }
        if crate::envfile::lacks_name(files, name) {
            lemma_lookup_view_lacks(files, name);
        }
    }
}

pub proof fn lemma_namespace(p: Seq<(String, String)>, f: Seq<(String, String)>)
    ensures
        crate::interp::value_fn(p, f) == namespace(pair_views(p), pair_views(f)),
{
    assert forall|n: Seq<char>| #[trigger] crate::interp::value_fn(p, f)(n) == namespace(pair_views(p), pair_views(f))(n) by {
        lemma_lookup_view(p, n);
        lemma_lookup_view(f, n);
    }
    assert(crate::interp::value_fn(p, f) =~= namespace(pair_views(p), pair_views(f)));
}

/// Adds one file's definitions to the namespace; `None` when a name is
/// already defined (the files are unordered peers).
pub open spec fn add_pairs(pairs: Seq<(Seq<char>, Seq<char>)>, path: Seq<char>, values: Seq<(Seq<char>, Seq<char>)>, origins: Seq<(Seq<char>, Seq<char>)>) -> Option<(Seq<(Seq<char>, Seq<char>)>, Seq<(Seq<char>, Seq<char>)>)>
    decreases pairs.len(),
{
    if pairs.len() == 0 {
        Some((values, origins))
    } else if lookup_view(origins, pairs[0].0) is Some {
        None
    } else {
        add_pairs(pairs.drop_first(), path, values.push(pairs[0]), origins.push((pairs[0].0, path)))
    }
}

/// Loads the `*.env` files named, in that order: each must be
/// readable UTF-8 that parses, is recorded, and defines only new names.
pub open spec fn env_files_spec(
    files: Seq<FileV>,
    dir: Seq<char>,
    names: Seq<Seq<char>>,
    values: Seq<(Seq<char>, Seq<char>)>,
    origins: Seq<(Seq<char>, Seq<char>)>,
    recs: Seq<RecV>,
) -> Out<(Seq<(Seq<char>, Seq<char>)>, Seq<(Seq<char>, Seq<char>)>, Seq<RecV>)>
    decreases names.len(),
{
    if names.len() == 0 {
        Out::Done((values, origins, recs))
    } else {
        let path = crate::source::join_path_spec(dir, names[0]);
        match entry_for(files, path) {
            None => Out::Need(path),
            Some(f) => match f.data {
                None => Out::Fail(ErrorCode::Parse),
                Some(d) => match f.text {
                    None => Out::Fail(ErrorCode::Parse),
                    Some(t) => match crate::envfile::parse_env_spec(t) {
                        Err(c) => Out::Fail(c),
                        Ok(pairs) => {
                            let recs2 = record(recs, RecV { path, data: d, format: Format::Env, parsed: None, grafts: Seq::empty() });
                            match add_pairs(pairs, path, values, origins) {
                                None => Out::Fail(ErrorCode::EnvConflict),
                                Some((v2, o2)) => env_files_spec(files, dir, names.drop_first(), v2, o2, recs2),
                            }
                        },
                    },
                },
            },
        }
    }
}

/// The entrypoint file names, in order.
pub open spec fn entrypoint_names() -> Seq<Seq<char>> {
    seq!["entrypoint.json"@, "entrypoint.yaml"@, "entrypoint.yml"@, "entrypoint.toml"@]
}

/// Where an entrypoint name would be in `dir`.
pub open spec fn entrypoint_path(dir: Seq<char>, name: Seq<char>) -> Seq<char> {
    crate::source::lexical_clean_spec(crate::source::join_path_spec(dir, name))
}

/// The entrypoint candidates that exist, in order.
pub open spec fn present_entrypoints(files: Seq<FileV>, dir: Seq<char>, names: Seq<Seq<char>>) -> Out<Seq<Seq<char>>>
    decreases names.len(),
{
    if names.len() == 0 {
        Out::Done(Seq::empty())
    } else {
        let p = entrypoint_path(dir, names[0]);
        match entry_for(files, p) {
            None => Out::Need(p),
            Some(f) => match present_entrypoints(files, dir, names.drop_first()) {
                Out::Need(q) => Out::Need(q),
                Out::Fail(c) => Out::Fail(c),
                Out::Done(rest) => Out::Done(if f.is_file { seq![p] + rest } else { rest }),
            },
        }
    }
}

/// The directory's one entrypoint: none is `E_NO_ENTRYPOINT`,
/// several are `E_MULTIPLE_ENTRYPOINTS`.
pub open spec fn entrypoint_spec(files: Seq<FileV>, dir: Seq<char>) -> Out<Seq<char>> {
    match present_entrypoints(files, dir, entrypoint_names()) {
        Out::Need(p) => Out::Need(p),
        Out::Fail(c) => Out::Fail(c),
        Out::Done(found) => if found.len() == 0 {
            Out::Fail(ErrorCode::NoEntrypoint)
        } else if found.len() == 1 {
            Out::Done(found[0])
        } else {
            Out::Fail(ErrorCode::MultipleEntrypoints)
        },
    }
}

/// What a load yields: the effective tree, the variable names looked up in
/// order, every document read, and the `*.env` definitions with the file
/// defining each name.
pub struct LoadV {
    /// The effective tree.
    pub tree: JV,
    /// The variable names looked up, in order.
    pub used: Seq<Seq<char>>,
    /// The documents read.
    pub recs: Seq<RecV>,
    /// The `*.env` definitions, name to value.
    pub values: Seq<(Seq<char>, Seq<char>)>,
    /// The `*.env` file defining each name.
    pub origins: Seq<(Seq<char>, Seq<char>)>,
}

/// Loads a config directory: find the one entrypoint, build the
/// variable namespace from the `*.env` files (sorted by name) and the
/// process environment, parse the entrypoint (whose root must be an
/// object), graft every include, and interpolate.
pub open spec fn load_spec(files: Seq<FileV>, env_names: Seq<Seq<char>>, dir: Seq<char>, process: Seq<(Seq<char>, Seq<char>)>) -> Out<LoadV> {
    match entrypoint_spec(files, dir) {
        Out::Need(p) => Out::Need(p),
        Out::Fail(c) => Out::Fail(c),
        Out::Done(ep) => match env_files_spec(files, dir, sort_names(env_names), Seq::empty(), Seq::empty(), Seq::empty()) {
            Out::Need(p) => Out::Need(p),
            Out::Fail(c) => Out::Fail(c),
            Out::Done((values, origins, recs1)) => match entry_for(files, ep) {
                None => Out::Need(ep),
                Some(f) => match format_of_path(ep) {
                    None => Out::Fail(ErrorCode::Parse),
                    Some(fmt) => match f.data {
                        None => Out::Fail(ErrorCode::Parse),
                        Some(d) => match doc_value(f, fmt) {
                            None => Out::Fail(ErrorCode::Parse),
                            Some(tree) => if !(tree is Obj) {
                                Out::Fail(ErrorCode::Parse)
                            } else {
                                let canonical = match f.canonical {
                                    Some(c) => c,
                                    None => ep,
                                };
                                let recs2 = record_graft(
                                    recs1,
                                    RecV { path: ep, data: d, format: fmt, parsed: Some(tree), grafts: Seq::empty() },
                                    GraftV { effective: Seq::empty(), chain: Seq::empty() },
                                );
                                let w = WalkV {
                                    doc: ep,
                                    dir: parent_spec(ep),
                                    src: Seq::empty(),
                                    eff: Seq::empty(),
                                    stack: seq![canonical],
                                    chain: Seq::empty(),
                                };
                                match resolve_spec(files, tree, w, recs2, files.len()) {
                                    Out::Need(p) => Out::Need(p),
                                    Out::Fail(c) => Out::Fail(c),
                                    Out::Done((t2, recs3)) => match crate::interp::interp_tree(t2, namespace(process, values)) {
                                        Err(c) => Out::Fail(c),
                                        Ok((t3, used)) => Out::Done(LoadV { tree: t3, used, recs: recs3, values, origins }),
                                    },
                                }
                            },
                        },
                    },
                },
            },
        },
    }
}

} // verus!

verus! {

fn candidate(dir: &str, name: &str) -> (r: String)
    ensures
        r@ == entrypoint_path(dir@, name@),
{
    let j = crate::source::join_path(dir, name);
    crate::source::lexical_clean(j.as_str())
}

/// Finds the directory's one entrypoint.
pub fn find_entrypoint(disk: &Disk, dir: &str) -> (r: Step<Result<String, Error>>)
    ensures
        match entrypoint_spec(files_view(*disk), dir@) {
            Out::Need(p) => r matches Step::Need(q) && q@ == p,
            Out::Fail(c) => r matches Step::Done(Err(e)) && e.spec_code() == c,
            Out::Done(ep) => r matches Step::Done(Ok(s)) && s@ == ep,
        },
{
    let ghost files = files_view(*disk);
    let ghost names = entrypoint_names();
    proof {
        reveal_with_fuel(present_entrypoints, 5);
        assert(names.drop_first().drop_first().drop_first().drop_first() =~= Seq::<Seq<char>>::empty());
    }
    let p0 = candidate(dir, "entrypoint.json");
    let p1 = candidate(dir, "entrypoint.yaml");
    let p2 = candidate(dir, "entrypoint.yml");
    let p3 = candidate(dir, "entrypoint.toml");
    let i0 = match find_entry(disk, p0.as_str()) {
        Some(i) => i,
        None => {
            return Step::Need(p0);
        },
    };
    let i1 = match find_entry(disk, p1.as_str()) {
        Some(i) => i,
        None => {
            return Step::Need(p1);
        },
    };
    let i2 = match find_entry(disk, p2.as_str()) {
        Some(i) => i,
        None => {
            return Step::Need(p2);
        },
    };
    let i3 = match find_entry(disk, p3.as_str()) {
        Some(i) => i,
        None => {
            return Step::Need(p3);
        },
    };
    let mut found: Vec<String> = Vec::new();
    let mut names_found: Vec<&str> = Vec::new();
    if disk.files[i3].is_file {
        found.push(p3);
        names_found.push("entrypoint.toml");
    }
    let ghost f3 = name_views(found@);
    if disk.files[i2].is_file {
        found.insert(0, p2);
        names_found.insert(0, "entrypoint.yml");
    }
    let ghost f2 = name_views(found@);
    if disk.files[i1].is_file {
        found.insert(0, p1);
        names_found.insert(0, "entrypoint.yaml");
    }
    let ghost f1 = name_views(found@);
    if disk.files[i0].is_file {
        found.insert(0, p0);
        names_found.insert(0, "entrypoint.json");
    }
    let ghost f0 = name_views(found@);
    proof {
        let e = names.drop_first().drop_first().drop_first();
        assert(e[0] == names[3]);
        assert(present_entrypoints(files, dir@, e) == Out::<Seq<Seq<char>>>::Done(f3)) by {
            assert(e.drop_first() =~= Seq::<Seq<char>>::empty());
            if disk.files@[i3 as int].is_file {
                assert(f3 =~= seq![entrypoint_path(dir@, names[3])] + Seq::<Seq<char>>::empty());
            } else {
                assert(f3 =~= Seq::<Seq<char>>::empty());
            }
        }
        let d = names.drop_first().drop_first();
        assert(d.drop_first() =~= e);
        assert(present_entrypoints(files, dir@, d) == Out::<Seq<Seq<char>>>::Done(f2)) by {
            if disk.files@[i2 as int].is_file {
                assert(f2 =~= seq![entrypoint_path(dir@, names[2])] + f3);
            } else {
                assert(f2 =~= f3);
            }
        }
        let c = names.drop_first();
        assert(c.drop_first() =~= d);
        assert(present_entrypoints(files, dir@, c) == Out::<Seq<Seq<char>>>::Done(f1)) by {
            if disk.files@[i1 as int].is_file {
                assert(f1 =~= seq![entrypoint_path(dir@, names[1])] + f2);
            } else {
                assert(f1 =~= f2);
            }
        }
        assert(present_entrypoints(files, dir@, names) == Out::<Seq<Seq<char>>>::Done(f0)) by {
            if disk.files@[i0 as int].is_file {
                assert(f0 =~= seq![entrypoint_path(dir@, names[0])] + f1);
            } else {
                assert(f0 =~= f1);
            }
        }
    }
    let n = found.len();
    if n == 0 {
        return Step::Done(Err(Error::new(ErrorCode::NoEntrypoint, concat2("no entrypoint.{json,yaml,yml,toml} in ", dir))));
    }
    if n == 1 {
        let p = found.pop().unwrap();
        return Step::Done(Ok(p));
    }
    let mut list: String = owned(names_found[0]);
    let mut k: usize = 1;
    while k < names_found.len()
        invariant
            1 <= k <= names_found.len(),
        decreases names_found.len() - k,
    {
        list = concat3(list.as_str(), ", ", names_found[k]);
        k = k + 1;
    }
    Step::Done(Err(Error::new(
        ErrorCode::MultipleEntrypoints,
        concat3(dir, concat3(" holds ", count_text(n).as_str(), " entrypoints: ").as_str(), list.as_str()),
    )))
}

} // verus!

verus! {

/// Adds one file's definitions; `Err` names the first name already defined.
fn add_file_pairs(
    pairs: &Vec<(String, String)>,
    path: &str,
    values: &mut Vec<(String, String)>,
    origins: &mut Vec<(String, String)>,
) -> (r: Result<(), String>)
    ensures
        match add_pairs(pair_views(pairs@), path@, pair_views(old(values)@), pair_views(old(origins)@)) {
            None => r is Err,
            Some((v2, o2)) => r is Ok && pair_views(final(values)@) == v2 && pair_views(final(origins)@) == o2,
        },
{
    let ghost all = pair_views(pairs@);
    let mut i: usize = 0;
    assert(all.skip(0) =~= all);
    while i < pairs.len()
        invariant
            i <= pairs.len(),
            all == pair_views(pairs@),
            all.len() == pairs.len(),
            add_pairs(all, path@, pair_views(old(values)@), pair_views(old(origins)@)) == add_pairs(
                all.skip(i as int),
                path@,
                pair_views(values@),
                pair_views(origins@),
            ),
        decreases pairs.len() - i,
    {
        let ghost rest = all.skip(i as int);
        assert(rest[0] == (pairs@[i as int].0@, pairs@[i as int].1@));
        assert(rest.drop_first() =~= all.skip(i + 1));
        let name = &pairs[i].0;
        proof {
            lemma_lookup_view(origins@, name@);
        }
        match crate::envfile::lookup(origins, name.as_str()) {
            Some(_) => {
                return Err(name.clone());
            },
            None => {},
        }
        let ghost v0 = pair_views(values@);
        let ghost o0 = pair_views(origins@);
        values.push((name.clone(), pairs[i].1.clone()));
        origins.push((name.clone(), owned(path)));
        assert(pair_views(values@) =~= v0.push(rest[0]));
        assert(pair_views(origins@) =~= o0.push((rest[0].0, path@)));
        i = i + 1;
    }
    assert(all.skip(i as int) =~= Seq::<(Seq<char>, Seq<char>)>::empty());
    Ok(())
}

/// The `*.env` definitions and the file defining each name.
#[derive(Debug)]
pub struct EnvFiles {
    /// Name to value.
    pub values: Vec<(String, String)>,
    /// Name to the path of the defining file.
    pub origins: Vec<(String, String)>,
}

/// Loads every `*.env` file directly in `dir`, sorted by name, into one
/// namespace, recording each file read.
pub fn load_dir(disk: &Disk, dir: &str, recs: &mut Vec<DocRecord>) -> (r: Step<Result<EnvFiles, Error>>)
    ensures
        match env_files_spec(files_view(*disk), dir@, sort_names(name_views(disk.env_names@)), Seq::empty(), Seq::empty(), recs_view(old(recs)@)) {
            Out::Need(p) => r matches Step::Need(q) && q@ == p,
            Out::Fail(c) => r matches Step::Done(Err(e)) && e.spec_code() == c,
            Out::Done((v, o, rs)) => r matches Step::Done(Ok(ef)) && pair_views(ef.values@) == v && pair_views(ef.origins@) == o
                && recs_view(final(recs)@) == rs,
        },
{
    let ghost files = files_view(*disk);
    let names = sorted(&disk.env_names);
    let ghost nv = name_views(names@);
    let mut values: Vec<(String, String)> = Vec::new();
    let mut origins: Vec<(String, String)> = Vec::new();
    let ghost recs0 = recs_view(recs@);
    assert(pair_views(values@) =~= Seq::<(Seq<char>, Seq<char>)>::empty());
    assert(pair_views(origins@) =~= Seq::<(Seq<char>, Seq<char>)>::empty());
    let mut i: usize = 0;
    assert(nv.skip(0) =~= nv);
    while i < names.len()
        invariant
            i <= names.len(),
            nv == name_views(names@),
            nv == sort_names(name_views(disk.env_names@)),
            recs0 == recs_view(old(recs)@),
            nv.len() == names.len(),
            files == files_view(*disk),
            env_files_spec(files, dir@, nv, Seq::empty(), Seq::empty(), recs0) == env_files_spec(
                files,
                dir@,
                nv.skip(i as int),
                pair_views(values@),
                pair_views(origins@),
                recs_view(recs@),
            ),
        decreases names.len() - i,
    {
        let ghost rest = nv.skip(i as int);
        assert(rest[0] == names@[i as int]@);
        assert(rest.drop_first() =~= nv.skip(i + 1));
        let path = crate::source::join_path(dir, names[i].as_str());
        let k = match find_entry(disk, path.as_str()) {
            Some(k) => k,
            None => {
                return Step::Need(path);
            },
        };
        let entry = &disk.files[k];
        let data = match &entry.data {
            Ok(d) => d,
            Err(m) => {
                return Step::Done(Err(Error::new(ErrorCode::Parse, concat3("cannot read ", path.as_str(), concat2(": ", m.as_str()).as_str()))));
            },
        };
        let text = match &entry.text {
            Some(t) => t,
            None => {
                return Step::Done(Err(Error::new(ErrorCode::Parse, concat2(path.as_str(), " is not valid UTF-8"))));
            },
        };
        let pairs = match crate::envfile::parse_env_file(text.as_str(), path.as_str()) {
            Ok(p) => p,
            Err(e) => {
                return Step::Done(Err(e));
            },
        };
        record_doc(recs, path.as_str(), data, Format::Env, None);
        match add_file_pairs(&pairs, path.as_str(), &mut values, &mut origins) {
            Ok(()) => {},
            Err(name) => {
                return Step::Done(Err(Error::new(ErrorCode::EnvConflict, concat3(
                    "variable \"",
                    name.as_str(),
                    concat2("\" is defined more than once among the *.env files; the last is ", path.as_str()).as_str(),
                ))));
            },
        }
        i = i + 1;
    }
    assert(nv.skip(i as int) =~= Seq::<Seq<char>>::empty());
    Step::Done(Ok(EnvFiles { values, origins }))
}

} // verus!

verus! {

/// What a load yields.
#[derive(Debug)]
pub struct Loaded {
    /// The effective tree.
    pub tree: Json,
    /// The variable names looked up, in order.
    pub used: Vec<String>,
    /// Every document read.
    pub docs: Vec<DocRecord>,
    /// The `*.env` definitions, name to value.
    pub values: Vec<(String, String)>,
    /// The `*.env` file defining each name.
    pub origins: Vec<(String, String)>,
}

/// Whether a load's result is the one the spec gives.
pub open spec fn loaded_is(l: Loaded, lv: LoadV) -> bool {
    &&& l.tree@ == lv.tree
    &&& name_views(l.used@) == lv.used
    &&& recs_view(l.docs@) == lv.recs
    &&& pair_views(l.values@) == lv.values
    &&& pair_views(l.origins@) == lv.origins
}

/// Loads the config directory `dir` into a single tree, with the
/// process environment `process` (name to value) over the `*.env` files,
/// recording every document read.
pub fn load_tree(disk: &Disk, dir: &str, process: &Vec<(String, String)>) -> (r: Step<Result<Loaded, Error>>)
    ensures
        match load_spec(files_view(*disk), name_views(disk.env_names@), dir@, pair_views(process@)) {
            Out::Need(p) => r matches Step::Need(q) && q@ == p,
            Out::Fail(c) => r matches Step::Done(Err(e)) && e.spec_code() == c,
            Out::Done(lv) => r matches Step::Done(Ok(l)) && loaded_is(l, lv),
        },
{
    let ghost files = files_view(*disk);
    let ep = match find_entrypoint(disk, dir) {
        Step::Need(p) => {
            return Step::Need(p);
        },
        Step::Done(Err(e)) => {
            return Step::Done(Err(e));
        },
        Step::Done(Ok(p)) => p,
    };
    let mut recs: Vec<DocRecord> = Vec::new();
    assert(recs_view(recs@) =~= Seq::<RecV>::empty());
    let env = match load_dir(disk, dir, &mut recs) {
        Step::Need(p) => {
            return Step::Need(p);
        },
        Step::Done(Err(e)) => {
            return Step::Done(Err(e));
        },
        Step::Done(Ok(env)) => env,
    };
    let i = match find_entry(disk, ep.as_str()) {
        Some(i) => i,
        None => {
            return Step::Need(ep);
        },
    };
    let entry = &disk.files[i];
    let fmt = match crate::parse::format_for_path(ep.as_str()) {
        Some(f) => f,
        None => {
            return Step::Done(Err(Error::new(ErrorCode::Parse, concat2(ep.as_str(), ": unsupported entrypoint extension"))));
        },
    };
    let data = match &entry.data {
        Ok(d) => d,
        Err(m) => {
            return Step::Done(Err(Error::new(ErrorCode::Parse, concat3("cannot read ", ep.as_str(), concat2(": ", m.as_str()).as_str()))));
        },
    };
    let tree = match parse_document(entry, fmt) {
        Ok(t) => t,
        Err(e) => {
            return Step::Done(Err(e));
        },
    };
    match &tree {
        Json::Object(_) => {},
        _ => {
            return Step::Done(Err(Error::new(ErrorCode::Parse, concat3(
                ep.as_str(),
                ": top-level value is ",
                concat2(kind_name(&tree), ", not an object").as_str(),
            ))));
        },
    }
    let canonical = match &entry.canonical {
        Ok(c) => c.clone(),
        Err(_) => ep.clone(),
    };
    let g = RawGraft { effective: String::new(), chain: Vec::new() };
    assert(graft_view(g).chain =~= Seq::<(Seq<char>, Seq<char>)>::empty());
    record_grafted(&mut recs, ep.as_str(), data, fmt, copy_json(&tree), g);
    let mut stack: Vec<String> = Vec::new();
    stack.push(canonical);
    let w = Walk { doc: ep.clone(), dir: parent(ep.as_str()), src: String::new(), eff: String::new(), stack, chain: Vec::new() };
    assert(walk_view(w).stack =~= seq![canonical@]);
    assert(walk_view(w).chain =~= Seq::<(Seq<char>, Seq<char>)>::empty());
    let fuel = disk.files.len();
    let resolved = match resolve(disk, &tree, &w, &mut recs, fuel) {
        Step::Need(p) => {
            return Step::Need(p);
        },
        Step::Done(Err(e)) => {
            return Step::Done(Err(e));
        },
        Step::Done(Ok(t)) => t,
    };
    let mut vars = crate::envfile::Vars::new(copy_pairs(process), copy_pairs(&env.values), copy_pairs(&env.origins));
    proof {
        lemma_namespace(vars.process@, vars.files@);
    }
    match crate::interp::interpolate(resolved, &mut vars) {
        Ok(t) => Step::Done(Ok(Loaded { tree: t, used: vars.used, docs: recs, values: env.values, origins: env.origins })),
        Err(e) => Step::Done(Err(e)),
    }
}

/// How the entrypoint-root diagnostic names a value's kind.
pub open spec fn kind_text(v: JV) -> Seq<char> {
    match v {
        JV::Null => "null (an empty document)"@,
        JV::Bool(_) => "a boolean"@,
        JV::Num(_) => "a number"@,
        JV::Str(_) => "a string"@,
        JV::Arr(_) => "an array"@,
        JV::Obj(_) => "an object"@,
    }
}

/// The data-model kind of a value, for the entrypoint-root diagnostic.
fn kind_name(value: &Json) -> (r: &'static str)
    ensures
        r@ == kind_text(value@),
{
    match value {
        Json::Null => "null (an empty document)",
        Json::Bool(_) => "a boolean",
        Json::Number(_) => "a number",
        Json::Str(_) => "a string",
        Json::Array(_) => "an array",
        Json::Object(_) => "an object",
    }
}

} // verus!

verus! {

/// Whether an authored string is an `@file:` reference (not an `@@`
/// escape, a literal, or a reserved directive).
pub fn is_include(s: &str) -> (r: bool)
    ensures
        r == is_include_spec(s@),
{
    let c = crate::text::chars_of(s);
    let pre = crate::text::chars_of("@file:");
    proof {
        reveal_strlit("@file:");
    }
    assert(pre@.len() == 6);
    let r = c.len() >= 6 && c[0] == pre[0] && c[1] == pre[1] && c[2] == pre[2] && c[3] == pre[3] && c[4] == pre[4]
        && c[5] == pre[5];
    proof {
        if c.len() >= 6 {
            if r {
                assert(s@.take(6) =~= include_prefix());
            }
            if s@.take(6) == include_prefix() {
                assert(s@.take(6)[0] == pre@[0]);
                assert(s@.take(6)[1] == pre@[1]);
                assert(s@.take(6)[2] == pre@[2]);
                assert(s@.take(6)[3] == pre@[3]);
                assert(s@.take(6)[4] == pre@[4]);
                assert(s@.take(6)[5] == pre@[5]);
            }
        }
    }
    r
}

/// Loads the config directory `dir` into a single tree, with the
/// process environment `process_env` (name to value).
pub fn load_with_env(dir: &str, disk: &Disk, process_env: &Vec<(String, String)>) -> (r: Step<Result<Json, Error>>)
    ensures
        match load_spec(files_view(*disk), name_views(disk.env_names@), dir@, pair_views(process_env@)) {
            Out::Need(p) => r matches Step::Need(q) && q@ == p,
            Out::Fail(c) => r matches Step::Done(Err(e)) && e.spec_code() == c,
            Out::Done(lv) => r matches Step::Done(Ok(t)) && t@ == lv.tree,
        },
{
    match load_tree(disk, dir, process_env) {
        Step::Need(p) => Step::Need(p),
        Step::Done(Err(e)) => Step::Done(Err(e)),
        Step::Done(Ok(l)) => Step::Done(Ok(l.tree)),
    }
}

} // verus!

verus! {

/// The graft of the entrypoint: the root, reached through no reference.
pub open spec fn root_grafts() -> Seq<GraftV> {
    seq![GraftV { effective: Seq::empty(), chain: Seq::empty() }]
}

/// A `*.env` record has no grafts, and its path names no document format.
pub open spec fn env_record_ok(r: RecV) -> bool {
    r.format == Format::Env ==> (r.grafts.len() == 0 && format_of_path(r.path) is None)
}

/// The records so far: `*.env` records are never grafted, and the record of
/// the entrypoint `ep` has the root as its one graft.
pub open spec fn grafts_ok(recs: Seq<RecV>, ep: Seq<char>) -> bool {
    &&& forall|i: int| 0 <= i < recs.len() ==> env_record_ok(#[trigger] recs[i]) && (recs[i].path == ep ==> recs[i].grafts == root_grafts())
    &&& exists|j: int| 0 <= j < recs.len() && #[trigger] recs[j].path == ep
}

/// Records of `*.env` files only, none grafted, none with a document
/// format's path.
pub open spec fn env_records_only(recs: Seq<RecV>) -> bool {
    forall|i: int| 0 <= i < recs.len() ==> (#[trigger] recs[i]).format == Format::Env && env_record_ok(recs[i])
}

/// The walk is inside the entrypoint: its canonical path is on the stack.
pub open spec fn walk_holds_entry(files: Seq<FileV>, ep: Seq<char>, w: WalkV) -> bool {
    entry_for(files, ep) is Some && entry_for(files, ep)->Some_0.canonical is Some
        ==> w.stack.contains(entry_for(files, ep)->Some_0.canonical->Some_0)
}

proof fn lemma_record_graft_ok(recs: Seq<RecV>, r: RecV, g: GraftV, ep: Seq<char>)
    requires
        grafts_ok(recs, ep),
        r.path != ep,
        format_of_path(r.path) is Some,
        r.format != Format::Env,
    ensures
        grafts_ok(record_graft(recs, r, g), ep),
{
    lemma_rec_index(recs, r.path);
    let rs = record(recs, r);
    assert(grafts_ok(rs, ep)) by {
        if rec_index(recs, r.path) is None {
            assert forall|j: int| 0 <= j < rs.len() implies env_record_ok(#[trigger] rs[j]) && (rs[j].path == ep ==> rs[j].grafts == root_grafts()) by {
                if j < recs.len() {
                    assert(rs[j] == recs[j]);
                }
            }
        }
    }
    lemma_rec_index(rs, r.path);
    if rec_index(recs, r.path) is None {
        assert(rs.drop_last() =~= recs);
        assert(rs.last().path == r.path);
    }
    assert(rec_index(rs, r.path) is Some);
    let i = rec_index(rs, r.path)->Some_0;
    let out = record_graft(recs, r, g);
    let j0 = choose|j: int| 0 <= j < recs.len() && #[trigger] recs[j].path == ep;
    assert(rs[j0] == recs[j0]);
    assert(out[j0].path == ep);
    assert forall|j: int| 0 <= j < out.len() implies env_record_ok(#[trigger] out[j]) && (out[j].path == ep ==> out[j].grafts == root_grafts()) by {
        if j != i {
            assert(out[j] == rs[j]);
        } else {
            assert(rs[i].path == r.path);
            assert(env_record_ok(rs[i]));
        }
    }
}

proof fn lemma_resolve_grafts(files: Seq<FileV>, v: JV, w: WalkV, recs: Seq<RecV>, fuel: nat, ep: Seq<char>)
    requires
        grafts_ok(recs, ep),
        walk_holds_entry(files, ep, w),
    ensures
        resolve_spec(files, v, w, recs, fuel) is Done ==> grafts_ok(resolve_spec(files, v, w, recs, fuel)->Done_0.1, ep),
    decreases fuel, v,
{
    match v {
        JV::Str(s) => {
            if !(s.len() >= 2 && s[0] == '@' && s[1] == '@') && is_include_spec(s) {
                match graft_target_spec(files, s.skip(6), w) {
                    Out::Done((joined, f, fmt, tree)) => {
                        if fuel > 0 {
                            let refs = w.chain.push((w.doc, w.src));
                            let r = RecV { path: joined, data: f.data->Some_0, format: fmt, parsed: Some(tree), grafts: Seq::empty() };
                            assert(joined != ep);
                            lemma_record_graft_ok(recs, r, GraftV { effective: w.eff, chain: refs }, ep);
                            let recs2 = record_graft(recs, r, GraftV { effective: w.eff, chain: refs });
                            let w2 = WalkV {
                                doc: joined,
                                dir: parent_spec(joined),
                                src: Seq::empty(),
                                eff: w.eff,
                                stack: w.stack.push(f.canonical->Some_0),
                                chain: refs,
                            };
                            assert(walk_holds_entry(files, ep, w2)) by {
                                if entry_for(files, ep) is Some && entry_for(files, ep)->Some_0.canonical is Some {
                                    let c = entry_for(files, ep)->Some_0.canonical->Some_0;
                                    let k = choose|k: int| 0 <= k < w.stack.len() && w.stack[k] == c;
                                    assert(w2.stack[k] == c);
                                }
                            }
                            lemma_resolve_grafts(files, tree, w2, recs2, (fuel - 1) as nat, ep);
                        }
                    },
                    _ => {},
                }
            }
        },
        JV::Arr(items) => {
            lemma_items_grafts(files, items, w, 0, recs, fuel, ep);
        },
        JV::Obj(es) => {
            lemma_members_grafts(files, es, w, recs, fuel, ep);
        },
        _ => {},
    }
}

proof fn lemma_items_grafts(files: Seq<FileV>, items: Seq<JV>, w: WalkV, start: nat, recs: Seq<RecV>, fuel: nat, ep: Seq<char>)
    requires
        grafts_ok(recs, ep),
        walk_holds_entry(files, ep, w),
    ensures
        resolve_items(files, items, w, start, recs, fuel) is Done ==> grafts_ok(resolve_items(files, items, w, start, recs, fuel)->Done_0.1, ep),
    decreases fuel, items,
{
    if items.len() > 0 {
        let wi = step_walk(w, dec_spec(start));
        assert(wi.stack == w.stack);
        lemma_resolve_grafts(files, items[0], wi, recs, fuel, ep);
        match resolve_spec(files, items[0], wi, recs, fuel) {
            Out::Done((x, r2)) => {
                lemma_items_grafts(files, items.drop_first(), w, start + 1, r2, fuel, ep);
            },
            _ => {},
        }
    }
}

proof fn lemma_members_grafts(files: Seq<FileV>, es: Seq<(Seq<char>, JV)>, w: WalkV, recs: Seq<RecV>, fuel: nat, ep: Seq<char>)
    requires
        grafts_ok(recs, ep),
        walk_holds_entry(files, ep, w),
    ensures
        resolve_members(files, es, w, recs, fuel) is Done ==> grafts_ok(resolve_members(files, es, w, recs, fuel)->Done_0.1, ep),
    decreases fuel, es,
{
    if es.len() > 0 {
        let wi = step_walk(w, es[0].0);
        assert(wi.stack == w.stack);
        lemma_resolve_grafts(files, es[0].1, wi, recs, fuel, ep);
        match resolve_spec(files, es[0].1, wi, recs, fuel) {
            Out::Done((x, r2)) => {
                lemma_members_grafts(files, es.drop_first(), w, r2, fuel, ep);
            },
            _ => {},
        }
    }
}

proof fn lemma_env_files_grafts(
    files: Seq<FileV>,
    dir: Seq<char>,
    names: Seq<Seq<char>>,
    values: Seq<(Seq<char>, Seq<char>)>,
    origins: Seq<(Seq<char>, Seq<char>)>,
    recs: Seq<RecV>,
)
    requires
        env_records_only(recs),
        forall|k: int| 0 <= k < names.len() ==> format_of_path(crate::source::join_path_spec(dir, #[trigger] names[k])) is None,
    ensures
        env_files_spec(files, dir, names, values, origins, recs) is Done
            ==> env_records_only(env_files_spec(files, dir, names, values, origins, recs)->Done_0.2),
    decreases names.len(),
{
    if names.len() > 0 {
        let path = crate::source::join_path_spec(dir, names[0]);
        match entry_for(files, path) {
            Some(f) => match f.data {
                Some(d) => match f.text {
                    Some(t) => match crate::envfile::parse_env_spec(t) {
                        Ok(pairs) => {
                            let r = RecV { path, data: d, format: Format::Env, parsed: None, grafts: Seq::empty() };
                            let recs2 = record(recs, r);
                            assert(env_records_only(recs2)) by {
                                assert forall|i: int| 0 <= i < recs2.len() implies (#[trigger] recs2[i]).format == Format::Env && env_record_ok(recs2[i]) by {
                                    if i < recs.len() {
                                        assert(recs2[i] == recs[i]);
                                    }
                                }
                            }
                            assert forall|k: int| 0 <= k < names.drop_first().len() implies format_of_path(crate::source::join_path_spec(dir, #[trigger] names.drop_first()[k])) is None by {
                                assert(names.drop_first()[k] == names[k + 1]);
                            }
                            match add_pairs(pairs, path, values, origins) {
                                Some((v2, o2)) => lemma_env_files_grafts(files, dir, names.drop_first(), v2, o2, recs2),
                                None => {},
                            }
                        },
                        Err(_) => {},
                    },
                    None => {},
                },
                None => {},
            },
            None => {},
        }
    }
}

/// Law: in a load, no `*.env` file is ever grafted, and the entrypoint's
/// record has exactly one graft, the root reached through no reference
/// (given, as the directory listing guarantees, that no `*.env` name has a
/// document format's extension).
pub proof fn law_load_grafts(files: Seq<FileV>, env_names: Seq<Seq<char>>, dir: Seq<char>, process: Seq<(Seq<char>, Seq<char>)>)
    requires
        forall|k: int| 0 <= k < env_names.len() ==> format_of_path(crate::source::join_path_spec(dir, #[trigger] env_names[k])) is None,
    ensures
        load_spec(files, env_names, dir, process) is Done ==> entrypoint_spec(files, dir) is Done,
        load_spec(files, env_names, dir, process) is Done ==> grafts_ok(
            load_spec(files, env_names, dir, process)->Done_0.recs,
            entrypoint_spec(files, dir)->Done_0,
        ),
{
    broadcast use vstd::seq_lib::group_to_multiset_ensures;

    if load_spec(files, env_names, dir, process) is Done {
        let ep = entrypoint_spec(files, dir)->Done_0;
        let sorted = sort_names(env_names);
        lemma_sort_names_multiset(env_names);
        assert forall|k: int| 0 <= k < sorted.len() implies format_of_path(crate::source::join_path_spec(dir, #[trigger] sorted[k])) is None by {
            assert(sorted.to_multiset().count(sorted[k]) > 0);
            assert(env_names.contains(sorted[k]));
            let m = choose|m: int| 0 <= m < env_names.len() && env_names[m] == sorted[k];
            assert(format_of_path(crate::source::join_path_spec(dir, env_names[m])) is None);
        }
        lemma_env_files_grafts(files, dir, sorted, Seq::empty(), Seq::empty(), Seq::empty());
        let recs1 = env_files_spec(files, dir, sorted, Seq::empty(), Seq::empty(), Seq::empty())->Done_0.2;
        let f = entry_for(files, ep)->Some_0;
        let fmt = format_of_path(ep)->Some_0;
        let d = f.data->Some_0;
        let tree = doc_value(f, fmt)->Some_0;
        let r = RecV { path: ep, data: d, format: fmt, parsed: Some(tree), grafts: Seq::empty() };
        lemma_rec_index(recs1, ep);
        assert(rec_index(recs1, ep) is None) by {
            if rec_index(recs1, ep) is Some {
                let i = rec_index(recs1, ep)->Some_0;
                assert(env_record_ok(recs1[i]));
            }
        }
        let rs = recs1.push(r);
        assert(record(recs1, r) == rs);
        assert(rs.drop_last() =~= recs1);
        lemma_rec_index(rs, ep);
        assert(rec_index(rs, ep) == Some(recs1.len() as int));
        let recs2 = record_graft(recs1, r, GraftV { effective: Seq::empty(), chain: Seq::empty() });
        assert(recs2[recs1.len() as int].grafts =~= root_grafts());
        assert(grafts_ok(recs2, ep)) by {
            assert forall|i: int| 0 <= i < recs2.len() implies env_record_ok(#[trigger] recs2[i]) && (recs2[i].path == ep ==> recs2[i].grafts == root_grafts()) by {
                if i < recs1.len() {
                    assert(recs2[i] == recs1[i]);
                    assert(env_record_ok(recs1[i]));
                }
            }
            assert(recs2[recs1.len() as int].path == ep);
        }
        let canonical = match f.canonical {
            Some(c) => c,
            None => ep,
        };
        let w = WalkV {
            doc: ep,
            dir: parent_spec(ep),
            src: Seq::empty(),
            eff: Seq::empty(),
            stack: seq![canonical],
            chain: Seq::empty(),
        };
        assert(walk_holds_entry(files, ep, w)) by {
            if f.canonical is Some {
                assert(w.stack[0] == canonical);
            }
        }
        lemma_resolve_grafts(files, tree, w, recs2, files.len(), ep);
    }
}

} // verus!
