//! Snapshots: the effective tree, every document the load
//! read, and the variable capture, taken once and read-only afterwards.

use vstd::prelude::*;

use crate::edit::{revision_of, revision_text, Document, Format, Graft, Reference};
use crate::envfile::{name_views, pair_views};
use crate::error::Error;
use crate::json::{Json, JV};
use crate::load::{
    entry_for, file_view, files_view, find_entry, load_spec, load_tree, loaded_is, recs_view, DocRecord, Disk, FileV, GraftV,
    LoadV, Out, RawGraft, RecV, Step,
};
use crate::source::{document_key, document_key_spec};
use crate::text::{key_less, key_lt, lemma_key_lt_total, lemma_key_lt_transitive, same_text};

verus! {

/// The view of a [`Reference`].
pub struct RefV {
    /// The document key.
    pub document: Seq<char>,
    /// The source pointer.
    pub pointer: Seq<char>,
}

/// The view of a [`Graft`].
pub struct GraftKV {
    /// The effective pointer.
    pub effective: Seq<char>,
    /// The references, outermost first.
    pub chain: Seq<RefV>,
}

/// The view of a [`Document`].
pub struct DocV {
    /// The key.
    pub key: Seq<char>,
    /// The path.
    pub path: Seq<char>,
    /// The format.
    pub format: Format,
    /// The revision.
    pub revision: Seq<char>,
    /// Whether it is writable.
    pub writable: bool,
    /// The grafts, by effective pointer.
    pub grafts: Seq<GraftKV>,
}

/// The view of a reference.
pub open spec fn ref_view(r: Reference) -> RefV {
    RefV { document: r.document@, pointer: r.pointer@ }
}

/// The view of a graft.
pub open spec fn graftk_view(g: Graft) -> GraftKV {
    GraftKV { effective: g.effective@, chain: g.chain@.map_values(|r: Reference| ref_view(r)) }
}

/// The views of grafts.
pub open spec fn grafts_view(gs: Seq<Graft>) -> Seq<GraftKV> {
    gs.map_values(|g: Graft| graftk_view(g))
}

/// The view of a document.
pub open spec fn doc_view(d: Document) -> DocV {
    DocV {
        key: d.key@,
        path: d.path@,
        format: d.format,
        revision: d.revision@,
        writable: d.writable,
        grafts: grafts_view(d.grafts@),
    }
}

/// The views of documents.
pub open spec fn docs_view(ds: Seq<Document>) -> Seq<DocV> {
    ds.map_values(|d: Document| doc_view(d))
}

/// A reference chain with paths turned into document keys.
pub open spec fn keyed_chain(dir: Seq<char>, chain: Seq<(Seq<char>, Seq<char>)>) -> Seq<RefV> {
    chain.map_values(|p: (Seq<char>, Seq<char>)| RefV { document: document_key_spec(dir, p.0), pointer: p.1 })
}

/// A graft as the API reports it: references by document key.
pub open spec fn keyed(dir: Seq<char>, g: GraftV) -> GraftKV {
    GraftKV { effective: g.effective, chain: keyed_chain(dir, g.chain) }
}

/// How many leading grafts sort at or before `g` by effective pointer.
pub open spec fn grafts_before(gs: Seq<GraftKV>, g: GraftKV) -> int
    decreases gs.len(),
{
    if gs.len() == 0 {
        0
    } else if !key_lt(g.effective, gs[0].effective) {
        1 + grafts_before(gs.drop_first(), g)
    } else {
        0
    }
}

/// Grafts sorted by effective pointer, stably.
pub open spec fn sort_grafts(gs: Seq<GraftKV>) -> Seq<GraftKV>
    decreases gs.len(),
{
    if gs.len() == 0 {
        Seq::empty()
    } else {
        let t = sort_grafts(gs.drop_last());
        t.insert(grafts_before(t, gs.last()), gs.last())
    }
}

/// A recorded document as the API reports it.
pub open spec fn doc_of(dir: Seq<char>, r: RecV) -> DocV {
    DocV {
        key: document_key_spec(dir, r.path),
        path: r.path,
        format: r.format,
        revision: revision_text(r.data),
        writable: r.format == Format::Json,
        grafts: sort_grafts(r.grafts.map_values(|g: GraftV| keyed(dir, g))),
    }
}

/// How many leading documents have keys sorting before `k`.
pub open spec fn docs_before(ds: Seq<DocV>, k: Seq<char>) -> int
    decreases ds.len(),
{
    if ds.len() == 0 {
        0
    } else if key_lt(ds[0].key, k) {
        1 + docs_before(ds.drop_first(), k)
    } else {
        0
    }
}

/// Documents by key: a document replaces one with the same key.
pub open spec fn docs_insert(ds: Seq<DocV>, d: DocV) -> Seq<DocV> {
    let p = docs_before(ds, d.key);
    if p < ds.len() && ds[p].key == d.key {
        ds.update(p, d)
    } else {
        ds.insert(p, d)
    }
}

/// The snapshot's documents, by key.
pub open spec fn documents_spec(dir: Seq<char>, recs: Seq<RecV>) -> Seq<DocV>
    decreases recs.len(),
{
    if recs.len() == 0 {
        Seq::empty()
    } else {
        docs_insert(documents_spec(dir, recs.drop_last()), doc_of(dir, recs.last()))
    }
}

proof fn lemma_grafts_before(gs: Seq<GraftKV>, g: GraftKV)
    ensures
        0 <= grafts_before(gs, g) <= gs.len(),
    decreases gs.len(),
{
    if gs.len() > 0 && !key_lt(g.effective, gs[0].effective) {
        lemma_grafts_before(gs.drop_first(), g);
    }
}

proof fn lemma_docs_before(ds: Seq<DocV>, k: Seq<char>)
    ensures
        0 <= docs_before(ds, k) <= ds.len(),
    decreases ds.len(),
{
    if ds.len() > 0 && key_lt(ds[0].key, k) {
        lemma_docs_before(ds.drop_first(), k);
    }
}

proof fn lemma_docs_before_bound(ds: Seq<DocV>, k: Seq<char>)
    ensures
        0 <= docs_before(ds, k) <= ds.len(),
        forall|j: int| 0 <= j < docs_before(ds, k) ==> key_lt(#[trigger] ds[j].key, k),
        docs_before(ds, k) < ds.len() ==> !key_lt(ds[docs_before(ds, k)].key, k),
    decreases ds.len(),
{
    if ds.len() > 0 && key_lt(ds[0].key, k) {
        lemma_docs_before_bound(ds.drop_first(), k);
        assert forall|j: int| 0 <= j < docs_before(ds, k) implies key_lt(#[trigger] ds[j].key, k) by {
            if j > 0 {
                assert(ds[j] == ds.drop_first()[j - 1]);
            }
        }
    }
}

/// The documents' keys sort strictly, so each key names one document.
pub open spec fn docs_sorted(ds: Seq<DocV>) -> bool {
    forall|i: int, j: int| 0 <= i < j < ds.len() ==> key_lt(#[trigger] ds[i].key, #[trigger] ds[j].key)
}

proof fn lemma_docs_insert(ds: Seq<DocV>, d: DocV)
    requires
        docs_sorted(ds),
    ensures
        docs_sorted(docs_insert(ds, d)),
        forall|i: int| 0 <= i < docs_insert(ds, d).len() ==> #[trigger] docs_insert(ds, d)[i] == d || ds.contains(
            docs_insert(ds, d)[i],
        ),
{
    let k = d.key;
    lemma_docs_before_bound(ds, k);
    let p = docs_before(ds, k);
    let r = docs_insert(ds, d);
    if p < ds.len() && ds[p].key == k {
        assert forall|i: int, j: int| 0 <= i < j < r.len() implies key_lt(#[trigger] r[i].key, #[trigger] r[j].key) by {
            assert(ds[i].key == r[i].key && ds[j].key == r[j].key);
        }
        assert forall|i: int| 0 <= i < r.len() implies #[trigger] r[i] == d || ds.contains(r[i]) by {
            if i != p {
                assert(r[i] == ds[i]);
            }
        }
    } else {
        assert forall|i: int, j: int| 0 <= i < j < r.len() implies key_lt(#[trigger] r[i].key, #[trigger] r[j].key) by {
            if j < p {
                assert(r[i] == ds[i] && r[j] == ds[j]);
            } else if j == p {
                assert(r[i] == ds[i]);
            } else if i < p {
                assert(r[i] == ds[i] && r[j] == ds[j - 1]);
                if p < ds.len() {
                    lemma_key_lt_total(ds[p].key, k);
                    if j - 1 > p {
                        assert(key_lt(ds[p].key, ds[j - 1].key));
                        lemma_key_lt_transitive(k, ds[p].key, ds[j - 1].key);
                    }
                }
                lemma_key_lt_transitive(ds[i].key, k, ds[j - 1].key);
            } else if i == p {
                assert(r[j] == ds[j - 1]);
                lemma_key_lt_total(ds[p].key, k);
                if j - 1 > p {
                    assert(key_lt(ds[p].key, ds[j - 1].key));
                    lemma_key_lt_transitive(k, ds[p].key, ds[j - 1].key);
                }
            } else {
                assert(r[i] == ds[i - 1] && r[j] == ds[j - 1]);
            }
        }
        assert forall|i: int| 0 <= i < r.len() implies #[trigger] r[i] == d || ds.contains(r[i]) by {
            if i < p {
                assert(r[i] == ds[i]);
            } else if i > p {
                assert(r[i] == ds[i - 1]);
            }
        }
    }
}

proof fn lemma_grafts_before_bound(gs: Seq<GraftKV>, g: GraftKV)
    ensures
        0 <= grafts_before(gs, g) <= gs.len(),
        forall|j: int| 0 <= j < grafts_before(gs, g) ==> !key_lt(g.effective, #[trigger] gs[j].effective),
        grafts_before(gs, g) < gs.len() ==> key_lt(g.effective, gs[grafts_before(gs, g)].effective),
    decreases gs.len(),
{
    if gs.len() > 0 && !key_lt(g.effective, gs[0].effective) {
        lemma_grafts_before_bound(gs.drop_first(), g);
        assert forall|j: int| 0 <= j < grafts_before(gs, g) implies !key_lt(g.effective, #[trigger] gs[j].effective) by {
            if j > 0 {
                assert(gs[j] == gs.drop_first()[j - 1]);
            }
        }
    }
}

/// Grafts in order of effective pointer (equal pointers in any order).
pub open spec fn grafts_sorted(gs: Seq<GraftKV>) -> bool {
    forall|i: int, j: int| 0 <= i < j < gs.len() ==> !key_lt(#[trigger] gs[j].effective, #[trigger] gs[i].effective)
}

/// Sorting grafts puts them in order of effective pointer.
pub proof fn lemma_sort_grafts(gs: Seq<GraftKV>)
    ensures
        grafts_sorted(sort_grafts(gs)),
        sort_grafts(gs).len() == gs.len(),
    decreases gs.len(),
{
    if gs.len() > 0 {
        lemma_sort_grafts(gs.drop_last());
        let t = sort_grafts(gs.drop_last());
        let g = gs.last();
        lemma_grafts_before_bound(t, g);
        let p = grafts_before(t, g);
        let r = t.insert(p, g);
        assert forall|i: int, j: int| 0 <= i < j < r.len() implies !key_lt(#[trigger] r[j].effective, #[trigger] r[i].effective) by {
            if j < p {
                assert(r[i] == t[i] && r[j] == t[j]);
            } else if j == p {
                assert(r[i] == t[i]);
            } else if i < p {
                assert(r[i] == t[i] && r[j] == t[j - 1]);
                // t[i] <= g < t[p] <= t[j - 1]
                lemma_key_lt_total(t[i].effective, g.effective);
                assert(key_lt(g.effective, t[p].effective));
                if j - 1 > p {
                    lemma_key_lt_total(t[p].effective, t[j - 1].effective);
                    if key_lt(t[p].effective, t[j - 1].effective) {
                        lemma_key_lt_transitive(g.effective, t[p].effective, t[j - 1].effective);
                    } else {
                        assert(t[p].effective == t[j - 1].effective);
                    }
                }
                if key_lt(t[j - 1].effective, t[i].effective) {
                    if key_lt(t[i].effective, g.effective) {
                        lemma_key_lt_transitive(t[j - 1].effective, t[i].effective, g.effective);
                        lemma_key_lt_total(t[j - 1].effective, g.effective);
                    } else {
                        assert(t[i].effective == g.effective);
                        lemma_key_lt_total(t[j - 1].effective, g.effective);
                    }
                }
            } else if i == p {
                assert(r[j] == t[j - 1]);
                assert(key_lt(g.effective, t[p].effective));
                if j - 1 > p {
                    lemma_key_lt_total(t[p].effective, t[j - 1].effective);
                    if key_lt(t[p].effective, t[j - 1].effective) {
                        lemma_key_lt_transitive(g.effective, t[p].effective, t[j - 1].effective);
                    } else {
                        assert(t[p].effective == t[j - 1].effective);
                    }
                }
                lemma_key_lt_total(g.effective, t[j - 1].effective);
            } else {
                assert(r[i] == t[i - 1] && r[j] == t[j - 1]);
            }
        }
    }
}

/// Law: a snapshot's documents have distinct keys, sorted; and each is what
/// one recorded document reports: keyed by its path relative to the
/// directory, writable exactly when it is JSON, with the `sha256:` revision
/// of the bytes the load read, and its grafts keyed and sorted by effective
/// pointer.
pub proof fn law_snapshot_documents(dir: Seq<char>, recs: Seq<RecV>)
    ensures
        docs_sorted(documents_spec(dir, recs)),
        forall|i: int| 0 <= i < documents_spec(dir, recs).len() ==> grafts_sorted(#[trigger] documents_spec(dir, recs)[i].grafts),
        forall|i: int| 0 <= i < documents_spec(dir, recs).len() ==> exists|j: int|
            0 <= j < recs.len() && #[trigger] documents_spec(dir, recs)[i] == doc_of(dir, recs[j]),
    decreases recs.len(),
{
    if recs.len() > 0 {
        let prev = recs.drop_last();
        law_snapshot_documents(dir, prev);
        let ds = documents_spec(dir, prev);
        let d = doc_of(dir, recs.last());
        lemma_docs_insert(ds, d);
        let r = documents_spec(dir, recs);
        assert forall|i: int| 0 <= i < r.len() implies grafts_sorted(#[trigger] r[i].grafts) by {
            if r[i] == d {
                lemma_sort_grafts(recs.last().grafts.map_values(|g: GraftV| keyed(dir, g)));
            } else {
                assert(ds.contains(r[i]));
                let m = choose|m: int| 0 <= m < ds.len() && ds[m] == r[i];
                assert(grafts_sorted(ds[m].grafts));
            }
        }
        assert forall|i: int| 0 <= i < r.len() implies exists|j: int|
            0 <= j < recs.len() && #[trigger] r[i] == doc_of(dir, recs[j]) by {
            if r[i] == d {
                assert(r[i] == doc_of(dir, recs[recs.len() - 1]));
            } else {
                assert(ds.contains(r[i]));
                let m = choose|m: int| 0 <= m < ds.len() && ds[m] == r[i];
                let j = choose|j: int| 0 <= j < prev.len() && #[trigger] ds[m] == doc_of(dir, prev[j]);
                assert(prev[j] == recs[j]);
            }
        }
    }
}

/// Law: in the documents of a snapshot taken from a load, a `*.env` document
/// has no grafts, and the entrypoint's document has one graft, the root
/// reached through no reference (given, as the directory listing guarantees,
/// that no `*.env` name has a document format's extension).
pub proof fn law_snapshot_document_grafts(
    files: Seq<FileV>,
    env_names: Seq<Seq<char>>,
    dir: Seq<char>,
    captured: Seq<(Seq<char>, Seq<char>)>,
)
    requires
        forall|k: int| 0 <= k < env_names.len() ==> crate::parse::format_of_path(crate::source::join_path_spec(dir, #[trigger] env_names[k])) is None,
    ensures
        load_spec(files, env_names, dir, captured) is Done ==> forall|i: int|
            0 <= i < documents_spec(dir, load_spec(files, env_names, dir, captured)->Done_0.recs).len()
                && (#[trigger] documents_spec(dir, load_spec(files, env_names, dir, captured)->Done_0.recs)[i]).format == Format::Env
                ==> documents_spec(dir, load_spec(files, env_names, dir, captured)->Done_0.recs)[i].grafts.len() == 0,
        load_spec(files, env_names, dir, captured) is Done ==> forall|i: int|
            0 <= i < documents_spec(dir, load_spec(files, env_names, dir, captured)->Done_0.recs).len()
                && (#[trigger] documents_spec(dir, load_spec(files, env_names, dir, captured)->Done_0.recs)[i]).path
                == crate::load::entrypoint_spec(files, dir)->Done_0
                ==> documents_spec(dir, load_spec(files, env_names, dir, captured)->Done_0.recs)[i].grafts
                == seq![GraftKV { effective: Seq::empty(), chain: Seq::empty() }],
{
    if load_spec(files, env_names, dir, captured) is Done {
        let recs = load_spec(files, env_names, dir, captured)->Done_0.recs;
        let ep = crate::load::entrypoint_spec(files, dir)->Done_0;
        crate::load::law_load_grafts(files, env_names, dir, captured);
        law_snapshot_documents(dir, recs);
        let ds = documents_spec(dir, recs);
        assert forall|i: int| 0 <= i < ds.len() && (#[trigger] ds[i]).path == ep
            implies ds[i].grafts == seq![GraftKV { effective: Seq::empty(), chain: Seq::empty() }] by {
            let j = choose|j: int| 0 <= j < recs.len() && #[trigger] ds[i] == doc_of(dir, recs[j]);
            assert(recs[j].grafts == crate::load::root_grafts());
            let gs = recs[j].grafts.map_values(|g: GraftV| keyed(dir, g));
            let k = GraftKV { effective: Seq::empty(), chain: Seq::empty() };
            assert(keyed_chain(dir, Seq::empty()) =~= Seq::<RefV>::empty());
            assert(gs =~= seq![k]);
            assert(gs.drop_last() =~= Seq::<GraftKV>::empty());
            assert(sort_grafts(gs.drop_last()) == Seq::<GraftKV>::empty());
            assert(sort_grafts(gs) =~= seq![k]);
        }
        assert forall|i: int| 0 <= i < ds.len() && (#[trigger] ds[i]).format == Format::Env implies ds[i].grafts.len() == 0 by {
            let j = choose|j: int| 0 <= j < recs.len() && #[trigger] ds[i] == doc_of(dir, recs[j]);
            assert(crate::load::env_record_ok(recs[j]));
            let gs = recs[j].grafts.map_values(|g: GraftV| keyed(dir, g));
            assert(gs.len() == 0);
            assert(sort_grafts(gs) == Seq::<GraftKV>::empty());
        }
    }
}

fn copy_refs(chain: &Vec<(String, String)>, dir: &str) -> (r: Vec<Reference>)
    ensures
        r@.map_values(|x: Reference| ref_view(x)) == keyed_chain(dir@, pair_views(chain@)),
{
    let mut out: Vec<Reference> = Vec::new();
    let mut i: usize = 0;
    while i < chain.len()
        invariant
            i <= chain.len(),
            out@.map_values(|x: Reference| ref_view(x)) == keyed_chain(dir@, pair_views(chain@.take(i as int))),
        decreases chain.len() - i,
    {
        let r = Reference { document: document_key(dir, chain[i].0.as_str()), pointer: chain[i].1.clone() };
        let ghost prev = out@;
        out.push(r);
        assert(out@.map_values(|x: Reference| ref_view(x)) =~= prev.map_values(|x: Reference| ref_view(x)).push(ref_view(r)));
        assert(keyed_chain(dir@, pair_views(chain@.take(i + 1))) =~= keyed_chain(dir@, pair_views(chain@.take(i as int))).push(ref_view(r)));
        i = i + 1;
    }
    assert(chain@.take(i as int) =~= chain@);
    out
}

/// The resolver records references by path; the API speaks in keys, with
/// the grafts sorted by effective pointer.
fn keyed_grafts(dir: &str, gs: &Vec<RawGraft>) -> (r: Vec<Graft>)
    ensures
        grafts_view(r@) == sort_grafts(gs@.map_values(|g: RawGraft| crate::load::graft_view(g)).map_values(|g: GraftV| keyed(dir@, g))),
{
    let ghost all = gs@.map_values(|g: RawGraft| crate::load::graft_view(g)).map_values(|g: GraftV| keyed(dir@, g));
    let mut out: Vec<Graft> = Vec::new();
    let mut i: usize = 0;
    assert(all.take(0) =~= Seq::<GraftKV>::empty());
    assert(grafts_view(out@) =~= Seq::<GraftKV>::empty());
    while i < gs.len()
        invariant
            i <= gs.len(),
            all == gs@.map_values(|g: RawGraft| crate::load::graft_view(g)).map_values(|g: GraftV| keyed(dir@, g)),
            all.len() == gs.len(),
            grafts_view(out@) == sort_grafts(all.take(i as int)),
        decreases gs.len() - i,
    {
        let g = Graft { effective: gs[i].effective.clone(), chain: copy_refs(&gs[i].chain, dir) };
        assert(graftk_view(g) == all[i as int]);
        let ghost t = grafts_view(out@);
        let mut p: usize = 0;
        proof {
            lemma_grafts_before(t, all[i as int]);
        }
        assert(t.skip(0) =~= t);
        while p < out.len() && !key_less(g.effective.as_str(), out[p].effective.as_str())
            invariant
                p <= out.len(),
                t == grafts_view(out@),
                t.len() == out.len(),
                grafts_before(t, graftk_view(g)) == p + grafts_before(t.skip(p as int), graftk_view(g)),
            decreases out.len() - p,
        {
            assert(t.skip(p as int)[0] == t[p as int]);
            assert(t.skip(p as int).drop_first() =~= t.skip(p + 1));
            p = p + 1;
        }
        proof {
            if p < out.len() {
                assert(t.skip(p as int)[0] == t[p as int]);
            }
        }
        out.insert(p, g);
        assert(all.take(i + 1).drop_last() =~= all.take(i as int));
        assert(all.take(i + 1).last() == all[i as int]);
        assert(grafts_view(out@) =~= t.insert(p as int, graftk_view(g)));
        i = i + 1;
    }
    assert(all.take(i as int) =~= all);
    out
}

/// A recorded document as the API reports it.
fn document_of(dir: &str, r: &DocRecord) -> (d: Document)
    ensures
        doc_view(d) == doc_of(dir@, crate::load::rec_view(*r)),
{
    let fmt = r.format;
    Document {
        key: document_key(dir, r.path.as_str()),
        path: r.path.clone(),
        format: fmt,
        revision: revision_of(r.data.as_slice()),
        writable: fmt.writable(),
        grafts: keyed_grafts(dir, &r.grafts),
    }
}

/// Adds a document, replacing one with the same key.
fn insert_document(ds: &mut Vec<Document>, d: Document)
    ensures
        docs_view(final(ds)@) == docs_insert(docs_view(old(ds)@), doc_view(d)),
{
    let ghost t = docs_view(ds@);
    let ghost dv = doc_view(d);
    let mut p: usize = 0;
    proof {
        lemma_docs_before(t, dv.key);
    }
    assert(t.skip(0) =~= t);
    while p < ds.len() && key_less(ds[p].key.as_str(), d.key.as_str())
        invariant
            p <= ds.len(),
            t == docs_view(ds@),
            t.len() == ds.len(),
            dv == doc_view(d),
            docs_before(t, dv.key) == p + docs_before(t.skip(p as int), dv.key),
        decreases ds.len() - p,
    {
        assert(t.skip(p as int)[0] == t[p as int]);
        assert(t.skip(p as int).drop_first() =~= t.skip(p + 1));
        p = p + 1;
    }
    proof {
        if p < ds.len() {
            assert(t.skip(p as int)[0] == t[p as int]);
        }
    }
    if p < ds.len() && same_text(ds[p].key.as_str(), d.key.as_str()) {
        ds.set(p, d);
        assert(docs_view(ds@) =~= t.update(p as int, dv));
    } else {
        ds.insert(p, d);
        assert(docs_view(ds@) =~= t.insert(p as int, dv));
    }
}

/// The snapshot's documents, by key.
fn documents_of(dir: &str, recs: &Vec<DocRecord>) -> (r: Vec<Document>)
    ensures
        docs_view(r@) == documents_spec(dir@, recs_view(recs@)),
{
    let ghost rv = recs_view(recs@);
    let mut out: Vec<Document> = Vec::new();
    let mut i: usize = 0;
    assert(rv.take(0) =~= Seq::<RecV>::empty());
    assert(docs_view(out@) =~= Seq::<DocV>::empty());
    while i < recs.len()
        invariant
            i <= recs.len(),
            rv == recs_view(recs@),
            rv.len() == recs.len(),
            docs_view(out@) == documents_spec(dir@, rv.take(i as int)),
        decreases recs.len() - i,
    {
        let d = document_of(dir, &recs[i]);
        assert(rv.take(i + 1).drop_last() =~= rv.take(i as int));
        assert(rv.take(i + 1).last() == rv[i as int]);
        insert_document(&mut out, d);
        i = i + 1;
    }
    assert(rv.take(i as int) =~= rv);
    out
}

} // verus!

verus! {

/// What an open returns: the effective tree, every source
/// document the load read, and the process environment as captured at open
/// time. Immutable; it reads nothing after it is made.
#[derive(Debug)]
pub struct Snapshot {
    /// The config directory, absolute and cleaned.
    pub dir: String,
    /// The effective tree — exactly what a load returns.
    pub tree: Json,
    /// Every document the load read, sorted by key.
    pub documents: Vec<Document>,
    /// What the load recorded of each document it read.
    pub records: Vec<DocRecord>,
    /// Each recorded document's text, in the order of `records`.
    pub texts: Vec<String>,
    /// The `*.env` file names of the directory, sorted.
    pub env_names: Vec<String>,
    /// The process environment captured at open time.
    pub captured: Vec<(String, String)>,
    /// The `*.env` definitions, name to value.
    pub env_values: Vec<(String, String)>,
    /// The `*.env` file defining each name.
    pub env_origins: Vec<(String, String)>,
}

/// The view of a [`Snapshot`].
pub struct SnapshotV {
    /// The config directory.
    pub dir: Seq<char>,
    /// The effective tree.
    pub tree: JV,
    /// The documents, by key.
    pub documents: Seq<DocV>,
    /// The documents as the load recorded them.
    pub records: Seq<RecV>,
    /// Each record's text, as read.
    pub texts: Seq<Seq<char>>,
    /// The `*.env` file names, sorted.
    pub env_names: Seq<Seq<char>>,
    /// The process environment at open time.
    pub captured: Seq<(Seq<char>, Seq<char>)>,
    /// The `*.env` definitions.
    pub env_values: Seq<(Seq<char>, Seq<char>)>,
    /// The `*.env` file defining each name.
    pub env_origins: Seq<(Seq<char>, Seq<char>)>,
}

impl View for Snapshot {
    type V = SnapshotV;

    open spec fn view(&self) -> SnapshotV {
        SnapshotV {
            dir: self.dir@,
            tree: self.tree@,
            documents: docs_view(self.documents@),
            records: recs_view(self.records@),
            texts: name_views(self.texts@),
            env_names: name_views(self.env_names@),
            captured: pair_views(self.captured@),
            env_values: pair_views(self.env_values@),
            env_origins: pair_views(self.env_origins@),
        }
    }
}


/// The absolute, cleaned config directory: `dir` itself when absolute,
/// otherwise resolved against the working directory `cwd`.
pub open spec fn abs_dir(dir: Seq<char>, cwd: Seq<char>) -> Seq<char> {
    if crate::source::is_absolute_spec(dir) {
        crate::source::lexical_clean_spec(dir)
    } else {
        crate::source::lexical_clean_spec(crate::source::join_path_spec(cwd, dir))
    }
}

/// A file's text as the table holds it; empty when it has none.
pub open spec fn text_of(files: Seq<FileV>, path: Seq<char>) -> Seq<char> {
    match entry_for(files, path) {
        Some(f) => match f.text {
            Some(t) => t,
            None => Seq::empty(),
        },
        None => Seq::empty(),
    }
}

/// The snapshot a successful load makes.
pub open spec fn snapshot_of(files: Seq<FileV>, env_names: Seq<Seq<char>>, dir: Seq<char>, captured: Seq<(Seq<char>, Seq<char>)>, lv: LoadV) -> SnapshotV {
    SnapshotV {
        dir,
        tree: lv.tree,
        documents: documents_spec(dir, lv.recs),
        records: lv.recs,
        texts: lv.recs.map_values(|r: RecV| text_of(files, r.path)),
        env_names: crate::load::sort_names(env_names),
        captured,
        env_values: lv.values,
        env_origins: lv.origins,
    }
}

fn texts_of(disk: &Disk, recs: &Vec<DocRecord>) -> (r: Vec<String>)
    ensures
        name_views(r@) == recs_view(recs@).map_values(|x: RecV| text_of(files_view(*disk), x.path)),
{
    let ghost want = recs_view(recs@).map_values(|x: RecV| text_of(files_view(*disk), x.path));
    let mut out: Vec<String> = Vec::new();
    let mut i: usize = 0;
    while i < recs.len()
        invariant
            i <= recs.len(),
            want == recs_view(recs@).map_values(|x: RecV| text_of(files_view(*disk), x.path)),
            name_views(out@) == want.take(i as int),
        decreases recs.len() - i,
    {
        let t = match find_entry(disk, recs[i].path.as_str()) {
            Some(k) => match &disk.files[k].text {
                Some(t) => t.clone(),
                None => String::new(),
            },
            None => String::new(),
        };
        let ghost prev = name_views(out@);
        out.push(t);
        assert(name_views(out@) =~= prev.push(t@));
        assert(want.take(i + 1) =~= want.take(i as int).push(want[i as int]));
        i = i + 1;
    }
    assert(want.take(i as int) =~= want);
    out
}

fn absolute(dir: &str, cwd: &str) -> (r: String)
    ensures
        r@ == abs_dir(dir@, cwd@),
{
    let c = crate::text::chars_of(dir);
    if c.len() > 0 && c[0] == '/' {
        crate::source::lexical_clean(dir)
    } else {
        let j = crate::source::join_path(cwd, dir);
        crate::source::lexical_clean(j.as_str())
    }
}

/// Loads `dir` like a plain load and returns a [`Snapshot`] for inspecting
/// provenance and preparing edits, with the process
/// environment `captured` at open time; a relative `dir` is resolved
/// against the working directory `cwd`.
pub fn open_with_env(dir: &str, cwd: &str, disk: &Disk, captured: &Vec<(String, String)>) -> (r: Step<Result<Snapshot, Error>>)
    ensures
        match load_spec(files_view(*disk), name_views(disk.env_names@), abs_dir(dir@, cwd@), pair_views(captured@)) {
            Out::Need(p) => r matches Step::Need(q) && q@ == p,
            Out::Fail(c) => r matches Step::Done(Err(e)) && e.spec_code() == c,
            Out::Done(lv) => r matches Step::Done(Ok(s)) && s@ == snapshot_of(
                files_view(*disk),
                name_views(disk.env_names@),
                abs_dir(dir@, cwd@),
                pair_views(captured@),
                lv,
            ),
        },
{
    let abs = absolute(dir, cwd);
    let loaded = match load_tree(disk, abs.as_str(), captured) {
        Step::Need(p) => {
            return Step::Need(p);
        },
        Step::Done(Err(e)) => {
            return Step::Done(Err(e));
        },
        Step::Done(Ok(l)) => l,
    };
    let documents = documents_of(abs.as_str(), &loaded.docs);
    let texts = texts_of(disk, &loaded.docs);
    let env_names = crate::load::sorted(&disk.env_names);
    let captured = crate::load::copy_pair_list(captured);
    let s = Snapshot {
        dir: abs,
        tree: loaded.tree,
        documents,
        records: loaded.docs,
        texts,
        env_names,
        captured,
        env_values: loaded.values,
        env_origins: loaded.origins,
    };
    Step::Done(Ok(s))
}

/// Law: a snapshot's tree is exactly what a plain load of the
/// same directory returns from the same disk and environment. (An open
/// fails, or needs a path, exactly when that load does: both contracts are
/// stated over the same `load_spec`.)
pub proof fn law_open_tree_is_load(
    files: Seq<FileV>,
    env_names: Seq<Seq<char>>,
    dir: Seq<char>,
    captured: Seq<(Seq<char>, Seq<char>)>,
    lv: LoadV,
)
    requires
        load_spec(files, env_names, dir, captured) == Out::Done(lv),
    ensures
        snapshot_of(files, env_names, dir, captured, lv).tree == lv.tree,
{
}

} // verus!

verus! {

/// The view of a [`crate::edit::Variable`].
pub struct VarV {
    /// The name.
    pub name: Seq<char>,
    /// The layer supplying it.
    pub origin: crate::edit::VariableOrigin,
    /// The `*.env` document key, for a file.
    pub file: Option<Seq<char>>,
}

/// The view of an [`crate::edit::Origin`].
pub struct OriginV {
    /// The effective pointer asked about.
    pub effective: Seq<char>,
    /// The authoring document's key.
    pub document: Seq<char>,
    /// The source pointer there.
    pub pointer: Seq<char>,
    /// The authored value.
    pub authored: JV,
    /// The references traversed.
    pub chain: Seq<RefV>,
    /// The variables the value depends on.
    pub variables: Seq<VarV>,
    /// Whether the document is writable.
    pub writable: bool,
}

/// The view of a variable.
pub open spec fn var_view(v: crate::edit::Variable) -> VarV {
    VarV {
        name: v.name@,
        origin: v.origin,
        file: match v.file {
            Some(f) => Some(f@),
            None => None,
        },
    }
}

/// The view of an origin.
pub open spec fn origin_view(o: crate::edit::Origin) -> OriginV {
    OriginV {
        effective: o.effective@,
        document: o.document@,
        pointer: o.pointer@,
        authored: o.authored@,
        chain: o.chain@.map_values(|r: Reference| ref_view(r)),
        variables: o.variables@.map_values(|v: crate::edit::Variable| var_view(v)),
        writable: o.writable,
    }
}

/// The first entrypoint name with a parsed record, by index among the
/// records.
pub open spec fn first_entrypoint(sv: SnapshotV, names: Seq<Seq<char>>) -> Option<int>
    decreases names.len(),
{
    if names.len() == 0 {
        None
    } else {
        match crate::load::rec_index(sv.records, crate::load::entrypoint_path(sv.dir, names[0])) {
            Some(i) => if sv.records[i].parsed is Some {
                Some(i)
            } else {
                first_entrypoint(sv, names.drop_first())
            },
            None => first_entrypoint(sv, names.drop_first()),
        }
    }
}

/// Follows `@file:` references at the walk's position: each
/// reference traversed joins the chain and the walk continues at the
/// target's root. A target the snapshot did not load is `E_PATH`.
pub open spec fn follow_spec(sv: SnapshotV, doc: int, node: JV, src: Seq<char>, chain: Seq<RefV>, fuel: nat) -> Result<(int, JV, Seq<char>, Seq<RefV>), crate::error::ErrorCode>
    decreases fuel,
{
    match node {
        JV::Str(s) => if crate::load::is_include_spec(s) {
            let target = crate::source::include_target_spec(s.skip(6), crate::source::parent_spec(sv.records[doc].path));
            match crate::load::rec_index(sv.records, target) {
                None => Err(crate::error::ErrorCode::Path),
                Some(j) => match sv.records[j].parsed {
                    None => Err(crate::error::ErrorCode::Path),
                    Some(v) => if fuel == 0 {
                        Err(crate::error::ErrorCode::Path)
                    } else {
                        follow_spec(
                            sv,
                            j,
                            v,
                            Seq::empty(),
                            chain.push(RefV { document: document_key_spec(sv.dir, sv.records[doc].path), pointer: src }),
                            (fuel - 1) as nat,
                        )
                    },
                },
            }
        } else {
            Ok((doc, node, src, chain))
        },
        _ => Ok((doc, node, src, chain)),
    }
}

/// The child a token names: an object member, or an array element by an
/// index token.
pub open spec fn child_of(node: JV, t: Seq<char>) -> Option<JV> {
    match node {
        JV::Obj(m) => crate::json::obj_get(m, t),
        JV::Arr(items) => match crate::pointer::array_index_spec(t) {
            Some(i) => if i < items.len() {
                Some(items[i as int])
            } else {
                None
            },
            None => None,
        },
        _ => None,
    }
}

/// Walks an effective pointer's tokens from a position:
/// includes are followed before each token and after the last; a token that
/// names no member or element is `E_PATH`.
pub open spec fn walk_spec(sv: SnapshotV, toks: Seq<Seq<char>>, doc: int, node: JV, src: Seq<char>, chain: Seq<RefV>) -> Result<(int, JV, Seq<char>, Seq<RefV>), crate::error::ErrorCode>
    decreases toks.len(),
{
    match follow_spec(sv, doc, node, src, chain, sv.records.len()) {
        Err(c) => Err(c),
        Ok((d, n, s, c)) => if toks.len() == 0 {
            Ok((d, n, s, c))
        } else {
            match child_of(n, toks[0]) {
                None => Err(crate::error::ErrorCode::Path),
                Some(x) => walk_spec(sv, toks.drop_first(), d, x, s + seq!['/'] + crate::pointer::escape_spec(toks[0]), c),
            }
        },
    }
}

/// Where a variable's value comes from: the captured process
/// environment, a `*.env` file, or (unset) the reference's default.
pub open spec fn var_of(sv: SnapshotV, name: Seq<char>) -> VarV {
    if crate::load::lookup_view(sv.captured, name) is Some {
        VarV { name, origin: crate::edit::VariableOrigin::Process, file: None }
    } else {
        match crate::load::lookup_view(sv.env_origins, name) {
            Some(path) => VarV { name, origin: crate::edit::VariableOrigin::File, file: Some(document_key_spec(sv.dir, path)) },
            None => VarV { name, origin: crate::edit::VariableOrigin::Default, file: None },
        }
    }
}

/// Whether the document with this key is writable.
pub open spec fn key_writable(ds: Seq<DocV>, key: Seq<char>) -> bool
    decreases ds.len(),
{
    if ds.len() == 0 {
        false
    } else if ds[0].key == key {
        ds[0].writable
    } else {
        key_writable(ds.drop_first(), key)
    }
}

/// The provenance of the effective value at `pointer`.
pub open spec fn inspect_spec(sv: SnapshotV, pointer: Seq<char>) -> Result<OriginV, crate::error::ErrorCode> {
    match crate::pointer::pointer_tokens(pointer) {
        None => Err(crate::error::ErrorCode::Path),
        Some(toks) => match first_entrypoint(sv, crate::load::entrypoint_names()) {
            None => Err(crate::error::ErrorCode::NoEntrypoint),
            Some(i) => match walk_spec(sv, toks, i, sv.records[i].parsed->Some_0, Seq::empty(), Seq::empty()) {
                Err(c) => Err(c),
                Ok((d, n, src, chain)) => {
                    let key = document_key_spec(sv.dir, sv.records[d].path);
                    Ok(OriginV {
                        effective: pointer,
                        document: key,
                        pointer: src,
                        authored: n,
                        chain,
                        variables: match n {
                            JV::Str(s) => crate::edit::references(s).map_values(|r: (Seq<char>, bool)| var_of(sv, r.0)),
                            _ => Seq::empty(),
                        },
                        writable: key_writable(sv.documents, key),
                    })
                },
            },
        },
    }
}

} // verus!

verus! {

/// The views of a reference chain.
pub open spec fn chain_view(c: Seq<Reference>) -> Seq<RefV> {
    c.map_values(|r: Reference| ref_view(r))
}

impl Snapshot {
    /// The record of the first entrypoint with a parsed value.
    fn entrypoint_record(&self) -> (r: Option<usize>)
        ensures
            r matches Some(i) ==> i < self.records.len() && first_entrypoint(self@, crate::load::entrypoint_names()) == Some(i as int),
            r is None ==> first_entrypoint(self@, crate::load::entrypoint_names()) is None,
    {
        let ghost names = crate::load::entrypoint_names();
        proof {
            reveal_with_fuel(first_entrypoint, 5);
            assert(names.drop_first().drop_first().drop_first().drop_first() =~= Seq::<Seq<char>>::empty());
            assert(names.drop_first()[0] == names[1]);
            assert(names.drop_first().drop_first()[0] == names[2]);
            assert(names.drop_first().drop_first().drop_first()[0] == names[3]);
        }
        let dir = self.dir.as_str();
        let p0 = crate::source::lexical_clean(crate::source::join_path(dir, "entrypoint.json").as_str());
        proof {
            crate::load::lemma_rec_index(self@.records, p0@);
        }
        match crate::load::find_record(&self.records, p0.as_str()) {
            Some(i) => if self.records[i].parsed.is_some() {
                return Some(i);
            },
            None => {},
        }
        let p1 = crate::source::lexical_clean(crate::source::join_path(dir, "entrypoint.yaml").as_str());
        proof {
            crate::load::lemma_rec_index(self@.records, p1@);
        }
        match crate::load::find_record(&self.records, p1.as_str()) {
            Some(i) => if self.records[i].parsed.is_some() {
                return Some(i);
            },
            None => {},
        }
        let p2 = crate::source::lexical_clean(crate::source::join_path(dir, "entrypoint.yml").as_str());
        proof {
            crate::load::lemma_rec_index(self@.records, p2@);
        }
        match crate::load::find_record(&self.records, p2.as_str()) {
            Some(i) => if self.records[i].parsed.is_some() {
                return Some(i);
            },
            None => {},
        }
        let p3 = crate::source::lexical_clean(crate::source::join_path(dir, "entrypoint.toml").as_str());
        proof {
            crate::load::lemma_rec_index(self@.records, p3@);
        }
        match crate::load::find_record(&self.records, p3.as_str()) {
            Some(i) => if self.records[i].parsed.is_some() {
                return Some(i);
            },
            None => {},
        }
        None
    }
}

} // verus!

verus! {

impl Snapshot {
    /// Follows `@file:` references at a walk position.
    fn follow<'a>(&'a self, doc: usize, node: &'a Json, src: String, chain: Vec<Reference>) -> (r: Result<(usize, &'a Json, String, Vec<Reference>), Error>)
        requires
            doc < self.records.len(),
        ensures
            match follow_spec(self@, doc as int, node@, src@, chain_view(chain@), self@.records.len()) {
                Err(c) => r matches Err(e) && e.spec_code() == c,
                Ok((d, n, s, c)) => r matches Ok((d2, n2, s2, c2)) && d2 == d && d2 < self.records.len() && n2@ == n && s2@ == s
                    && chain_view(c2@) == c,
            },
    {
        let ghost target = follow_spec(self@, doc as int, node@, src@, chain_view(chain@), self@.records.len());
        let mut cur_doc = doc;
        let mut cur_node = node;
        let mut cur_src = src;
        let mut cur_chain = chain;
        let mut fuel: usize = self.records.len();
        let pre = crate::text::chars_of("@file:");
        proof {
            reveal_strlit("@file:");
        }
        assert(pre@.len() == 6);
        loop
            invariant
                cur_doc < self.records.len(),
                pre@ == crate::load::include_prefix(),
                pre@.len() == 6,
                target == follow_spec(self@, doc as int, node@, src@, chain_view(chain@), self@.records.len()),
                target == follow_spec(self@, cur_doc as int, cur_node@, cur_src@, chain_view(cur_chain@), fuel as nat),
            decreases fuel,
        {
            let s = match cur_node {
                Json::Str(s) => s,
                _ => {
                    return Ok((cur_doc, cur_node, cur_src, cur_chain));
                },
            };
            let c = crate::text::chars_of(s.as_str());
            let is_inc = c.len() >= 6 && c[0] == pre[0] && c[1] == pre[1] && c[2] == pre[2] && c[3] == pre[3] && c[4] == pre[4]
                && c[5] == pre[5];
            assert(is_inc == crate::load::is_include_spec(s@)) by {
                if c.len() >= 6 {
                    if is_inc {
                        assert(s@.take(6) =~= crate::load::include_prefix());
                    }
                    if s@.take(6) == crate::load::include_prefix() {
                        assert(s@.take(6)[0] == pre@[0]);
                        assert(s@.take(6)[1] == pre@[1]);
                        assert(s@.take(6)[2] == pre@[2]);
                        assert(s@.take(6)[3] == pre@[3]);
                        assert(s@.take(6)[4] == pre@[4]);
                        assert(s@.take(6)[5] == pre@[5]);
                    }
                }
            }
            if !is_inc {
                return Ok((cur_doc, cur_node, cur_src, cur_chain));
            }
            let tv = crate::text::slice_vec(&c, 6, c.len());
            assert(tv@ =~= s@.skip(6));
            let t = crate::text::string_of(tv.as_slice());
            let base = crate::source::parent(self.records[cur_doc].path.as_str());
            let target_path = crate::source::include_target(t.as_str(), base.as_str());
            proof {
                crate::load::lemma_rec_index(self@.records, target_path@);
            }
            let j = match crate::load::find_record(&self.records, target_path.as_str()) {
                Some(j) => j,
                None => {
                    return Err(crate::error::Error::new(crate::error::ErrorCode::Path, crate::text::concat3(
                        "include ",
                        target_path.as_str(),
                        " was not loaded by this snapshot",
                    )));
                },
            };
            let next = match &self.records[j].parsed {
                Some(v) => v,
                None => {
                    return Err(crate::error::Error::new(crate::error::ErrorCode::Path, crate::text::concat2(
                        target_path.as_str(),
                        " holds no value",
                    )));
                },
            };
            if fuel == 0 {
                return Err(crate::error::Error::new(crate::error::ErrorCode::Path, crate::text::concat2(
                    "include chain deeper than the documents read, at ",
                    target_path.as_str(),
                )));
            }
            let r = Reference { document: document_key(self.dir.as_str(), self.records[cur_doc].path.as_str()), pointer: cur_src };
            let ghost prev = chain_view(cur_chain@);
            cur_chain.push(r);
            assert(chain_view(cur_chain@) =~= prev.push(ref_view(r)));
            cur_doc = j;
            cur_node = next;
            cur_src = String::new();
            fuel = fuel - 1;
        }
    }

    /// The `$` references of an authored string, in order, with the layer
    /// of the namespace that supplies each.
    fn variables_of(&self, authored: &str) -> (r: Vec<crate::edit::Variable>)
        ensures
            r@.map_values(|v: crate::edit::Variable| var_view(v)) == crate::edit::references(authored@).map_values(
                |x: (Seq<char>, bool)| var_of(self@, x.0),
            ),
    {
        let refs = crate::edit::scan_references(authored);
        let ghost want = crate::edit::references(authored@).map_values(|x: (Seq<char>, bool)| var_of(self@, x.0));
        let mut out: Vec<crate::edit::Variable> = Vec::new();
        let mut i: usize = 0;
        while i < refs.len()
            invariant
                i <= refs.len(),
                crate::edit::ref_views(refs@) == crate::edit::references(authored@),
                want == crate::edit::references(authored@).map_values(|x: (Seq<char>, bool)| var_of(self@, x.0)),
                out@.map_values(|v: crate::edit::Variable| var_view(v)) == want.take(i as int),
            decreases refs.len() - i,
        {
            let name = refs[i].0.clone();
            assert(crate::edit::ref_views(refs@)[i as int] == (refs@[i as int].0@, refs@[i as int].1));
            proof {
                crate::load::lemma_lookup_view_pub(self.captured@, name@);
                crate::load::lemma_lookup_view_pub(self.env_origins@, name@);
            }
            let v = match crate::envfile::lookup(&self.captured, name.as_str()) {
                Some(_) => crate::edit::Variable { name, origin: crate::edit::VariableOrigin::Process, file: None },
                None => match crate::envfile::lookup(&self.env_origins, name.as_str()) {
                    Some(path) => crate::edit::Variable {
                        name,
                        origin: crate::edit::VariableOrigin::File,
                        file: Some(document_key(self.dir.as_str(), path.as_str())),
                    },
                    None => crate::edit::Variable { name, origin: crate::edit::VariableOrigin::Default, file: None },
                },
            };
            let ghost prev = out@.map_values(|v: crate::edit::Variable| var_view(v));
            out.push(v);
            assert(out@.map_values(|v: crate::edit::Variable| var_view(v)) =~= prev.push(var_view(v)));
            assert(want.take(i + 1) =~= want.take(i as int).push(want[i as int]));
            i = i + 1;
        }
        assert(want.take(i as int) =~= want);
        out
    }

    /// Whether the document with this key is writable.
    fn writable_key(&self, key: &str) -> (r: bool)
        ensures
            r == key_writable(self@.documents, key@),
    {
        let ghost ds = self@.documents;
        let mut i: usize = 0;
        assert(ds.skip(0) =~= ds);
        while i < self.documents.len()
            invariant
                i <= self.documents.len(),
                ds == self@.documents,
                ds.len() == self.documents.len(),
                key_writable(ds, key@) == key_writable(ds.skip(i as int), key@),
            decreases self.documents.len() - i,
        {
            assert(ds.skip(i as int)[0] == doc_view(self.documents@[i as int]));
            assert(ds.skip(i as int).drop_first() =~= ds.skip(i + 1));
            if same_text(self.documents[i].key.as_str(), key) {
                return self.documents[i].writable;
            }
            i = i + 1;
        }
        false
    }
}

} // verus!

verus! {

impl Snapshot {
    /// Reports where the effective value at `pointer` comes from: the authoring document and source pointer, the authored
    /// value, the references traversed, and the variables it depends on.
    pub fn inspect(&self, pointer: &str) -> (r: Result<crate::edit::Origin, Error>)
        ensures
            match inspect_spec(self@, pointer@) {
                Err(c) => r matches Err(e) && e.spec_code() == c,
                Ok(o) => r matches Ok(x) && origin_view(x) == o,
            },
    {
        let tokens = match crate::pointer::parse(pointer) {
            Ok(t) => t,
            Err(e) => {
                return Err(e);
            },
        };
        let ghost toks = crate::pointer::token_views(tokens@);
        let start = match self.entrypoint_record() {
            Some(i) => i,
            None => {
                return Err(crate::error::Error::new(crate::error::ErrorCode::NoEntrypoint, crate::text::concat3(
                    "snapshot of ",
                    self.dir.as_str(),
                    " has no entrypoint",
                )));
            },
        };
        proof {
            lemma_first_entrypoint(self@, crate::load::entrypoint_names());
        }
        let root = match &self.records[start].parsed {
            Some(v) => v,
            None => {
                proof {
                    lemma_first_entrypoint(self@, crate::load::entrypoint_names());
                }
                return Err(crate::error::Error::new(crate::error::ErrorCode::NoEntrypoint, owned_text("the entrypoint holds no value")));
            },
        };
        let ghost want = walk_spec(self@, toks, start as int, root@, Seq::empty(), Seq::empty());
        let mut doc = start;
        let mut node = root;
        let mut src = String::new();
        let mut chain: Vec<Reference> = Vec::new();
        let mut k: usize = 0;
        assert(toks.skip(0) =~= toks);
        assert(chain_view(chain@) =~= Seq::<RefV>::empty());
        loop
            invariant_except_break
                want == walk_spec(self@, toks.skip(k as int), doc as int, node@, src@, chain_view(chain@)),
            invariant
                k <= tokens.len(),
                toks == crate::pointer::token_views(tokens@),
                toks.len() == tokens.len(),
                doc < self.records.len(),
                crate::pointer::pointer_tokens(pointer@) == Some(toks),
                first_entrypoint(self@, crate::load::entrypoint_names()) == Some(start as int),
                self@.records[start as int].parsed == Some(root@),
                want == walk_spec(self@, toks, start as int, root@, Seq::empty(), Seq::empty()),
            ensures
                want == Ok::<(int, JV, Seq<char>, Seq<RefV>), crate::error::ErrorCode>((doc as int, node@, src@, chain_view(chain@))),
            decreases tokens.len() - k,
        {
            let (d, n, s, c) = match self.follow(doc, node, src, chain) {
                Ok(x) => x,
                Err(e) => {
                    return Err(e);
                },
            };
            if k == tokens.len() {
                assert(toks.skip(k as int).len() == 0);
                doc = d;
                node = n;
                src = s;
                chain = c;
                break;
            }
            let token = &tokens[k];
            assert(toks.skip(k as int)[0] == token@);
            assert(toks.skip(k as int).drop_first() =~= toks.skip(k + 1));
            let next: &Json = match n {
                Json::Object(m) => match crate::edit::member(m, token.as_str()) {
                    Some(x) => x,
                    None => {
                        return Err(path_error(pointer, "no member ", token.as_str()));
                    },
                },
                Json::Array(items) => {
                    proof {
                        crate::json::lemma_jv_seq(items@);
                    }
                    match crate::pointer::array_index(token.as_str()) {
                        Some(i) => if i < items.len() {
                            &items[i]
                        } else {
                            return Err(path_error(pointer, "array index does not exist: ", token.as_str()));
                        },
                        None => {
                            return Err(path_error(pointer, "array index does not exist: ", token.as_str()));
                        },
                    }
                },
                _ => {
                    return Err(path_error(pointer, "cannot descend into a scalar at ", token.as_str()));
                },
            };
            let t = crate::pointer::escape_token(token.as_str());
            proof {
                reveal_strlit("/");
            }
            let s2 = crate::text::concat3(s.as_str(), "/", t.as_str());
            assert(s2@ =~= s@ + seq!['/'] + crate::pointer::escape_spec(token@));
            doc = d;
            node = next;
            src = s2;
            chain = c;
            k = k + 1;
        }
        let key = document_key(self.dir.as_str(), self.records[doc].path.as_str());
        let variables = match node {
            Json::Str(s) => self.variables_of(s.as_str()),
            _ => Vec::new(),
        };
        proof {
            if !(node@ is Str) {
                assert(variables@.map_values(|v: crate::edit::Variable| var_view(v)) =~= Seq::<VarV>::empty());
            }
        }
        let writable = self.writable_key(key.as_str());
        Ok(crate::edit::Origin {
            effective: crate::text::owned(pointer),
            document: key,
            pointer: src,
            authored: crate::json::copy_json(node),
            chain,
            variables,
            writable,
        })
    }
}

fn owned_text(s: &str) -> (r: String)
    ensures
        r@ == s@,
{
    crate::text::owned(s)
}

fn path_error(pointer: &str, what: &str, token: &str) -> (e: Error)
    ensures
        e.spec_code() == crate::error::ErrorCode::Path,
{
    Error::new(crate::error::ErrorCode::Path, crate::text::concat4("effective pointer \"", pointer, "\": ", crate::text::concat2(what, token).as_str()))
}

proof fn lemma_first_entrypoint(sv: SnapshotV, names: Seq<Seq<char>>)
    ensures
        first_entrypoint(sv, names) matches Some(i) ==> 0 <= i < sv.records.len() && sv.records[i].parsed is Some,
    decreases names.len(),
{
    if names.len() > 0 {
        crate::load::lemma_rec_index(sv.records, crate::load::entrypoint_path(sv.dir, names[0]));
        lemma_first_entrypoint(sv, names.drop_first());
    }
}

} // verus!

verus! {

/// One edit applied to a document's value: `set` needs a
/// value, escaped in literal mode and a string in expression mode; every
/// pointer failure is `E_PATH`.
pub open spec fn apply_edit(v: JV, e: crate::edit::EditV) -> Result<JV, crate::error::ErrorCode> {
    match crate::pointer::pointer_tokens(e.pointer) {
        None => match e.op {
            crate::edit::Op::Put => match e.value {
                None => Err(crate::error::ErrorCode::Edit),
                Some(x) => if e.mode == crate::edit::Mode::Expression && !(x is Str) {
                    Err(crate::error::ErrorCode::Edit)
                } else {
                    Err(crate::error::ErrorCode::Path)
                },
            },
            crate::edit::Op::Remove => Err(crate::error::ErrorCode::Path),
        },
        Some(toks) => match e.op {
            crate::edit::Op::Put => match e.value {
                None => Err(crate::error::ErrorCode::Edit),
                Some(x) => {
                    let authored = match e.mode {
                        crate::edit::Mode::Literal => Some(crate::edit::literal_value(x)),
                        crate::edit::Mode::Expression => if x is Str { Some(x) } else { None },
                    };
                    match authored {
                        None => Err(crate::error::ErrorCode::Edit),
                        Some(a) => match crate::pointer::set_spec(v, toks, a) {
                            Some(v2) => Ok(v2),
                            None => Err(crate::error::ErrorCode::Path),
                        },
                    }
                },
            },
            crate::edit::Op::Remove => match crate::pointer::remove_spec(v, toks) {
                Some(v2) => Ok(v2),
                None => Err(crate::error::ErrorCode::Path),
            },
        },
    }
}

/// The edits applied in order; the first failing edit fails them all.
pub open spec fn apply_edits(v: JV, edits: Seq<crate::edit::EditV>) -> Result<JV, crate::error::ErrorCode>
    decreases edits.len(),
{
    if edits.len() == 0 {
        Ok(v)
    } else {
        match apply_edit(v, edits[0]) {
            Err(c) => Err(c),
            Ok(v2) => apply_edits(v2, edits.drop_first()),
        }
    }
}

/// Where the document with this key is.
pub open spec fn doc_index(ds: Seq<DocV>, key: Seq<char>) -> Option<int>
    decreases ds.len(),
{
    if ds.len() == 0 {
        None
    } else if ds[0].key == key {
        Some(0)
    } else {
        match doc_index(ds.drop_first(), key) {
            Some(i) => Some(i + 1),
            None => None,
        }
    }
}

/// An edit request validated and applied: the
/// document's key and path, its edited value, and its new text. A request
/// must hold at least one edit (`E_EDIT`), name one document
/// (`E_UNSUPPORTED_EDIT`), one in the snapshot (`E_EDIT`), and a writable one
/// (`E_UNSUPPORTED_EDIT`).
pub open spec fn prepare_spec(sv: SnapshotV, edits: Seq<crate::edit::EditV>) -> Result<(Seq<char>, Seq<char>, JV, Seq<char>), crate::error::ErrorCode> {
    if edits.len() == 0 {
        Err(crate::error::ErrorCode::Edit)
    } else if exists|i: int| 0 <= i < edits.len() && #[trigger] edits[i].document != edits[0].document {
        Err(crate::error::ErrorCode::UnsupportedEdit)
    } else {
        let key = edits[0].document;
        match doc_index(sv.documents, key) {
            None => Err(crate::error::ErrorCode::Edit),
            Some(d) => if !sv.documents[d].writable {
                Err(crate::error::ErrorCode::UnsupportedEdit)
            } else {
                let path = sv.documents[d].path;
                match crate::load::rec_index(sv.records, path) {
                    None => Err(crate::error::ErrorCode::Edit),
                    Some(r) => match sv.records[r].parsed {
                        None => Err(crate::error::ErrorCode::Edit),
                        Some(v0) => match apply_edits(v0, edits) {
                            Err(c) => Err(c),
                            Ok(v) => Ok((key, path, v, crate::jsonfmt::format_spec(v))),
                        },
                    },
                }
            },
        }
    }
}

/// A validated request applied to a copy of its document: the key, the
/// path, the edited value, and the document's new text.
#[derive(Debug)]
pub struct Prepared {
    /// The edited document's key.
    pub document: String,
    /// Its path.
    pub path: String,
    /// Its edited value.
    pub value: Json,
    /// Its new text.
    pub after: String,
}

impl Snapshot {
    fn document_index(&self, key: &str) -> (r: Option<usize>)
        ensures
            r matches Some(i) ==> i < self.documents.len() && doc_index(self@.documents, key@) == Some(i as int),
            r is None ==> doc_index(self@.documents, key@) is None,
    {
        let ghost ds = self@.documents;
        let mut i: usize = 0;
        assert(ds.skip(0) =~= ds);
        while i < self.documents.len()
            invariant
                i <= self.documents.len(),
                ds == self@.documents,
                ds.len() == self.documents.len(),
                doc_index(ds, key@) == match doc_index(ds.skip(i as int), key@) {
                    Some(j) => Some(j + i),
                    None => None,
                },
            decreases self.documents.len() - i,
        {
            assert(ds.skip(i as int)[0] == doc_view(self.documents@[i as int]));
            assert(ds.skip(i as int).drop_first() =~= ds.skip(i + 1));
            if same_text(self.documents[i].key.as_str(), key) {
                return Some(i);
            }
            i = i + 1;
        }
        None
    }

    /// Validates `edits` and applies them to a copy of the
    /// selected document, giving its new text.
    pub fn prepare(&self, edits: &Vec<crate::edit::Edit>) -> (r: Result<Prepared, Error>)
        ensures
            match prepare_spec(self@, crate::edit::edit_views(edits@)) {
                Err(c) => r matches Err(e) && e.spec_code() == c,
                Ok((k, p, v, a)) => r matches Ok(x) && x.document@ == k && x.path@ == p && x.value@ == v && x.after@ == a,
            },
    {
        let ghost ev = crate::edit::edit_views(edits@);
        if edits.len() == 0 {
            return Err(Error::new(crate::error::ErrorCode::Edit, crate::text::owned("a plan needs at least one edit")));
        }
        let key = &edits[0].document;
        let mut j: usize = 0;
        while j < edits.len()
            invariant
                j <= edits.len(),
                ev == crate::edit::edit_views(edits@),
                ev.len() == edits.len(),
                edits.len() > 0,
                key@ == ev[0].document,
                forall|i: int| 0 <= i < j ==> #[trigger] ev[i].document == ev[0].document,
            decreases edits.len() - j,
        {
            assert(ev[j as int] == crate::edit::edit_view(edits@[j as int]));
            if !same_text(edits[j].document.as_str(), key.as_str()) {
                assert(ev[j as int].document != ev[0].document);
                return Err(Error::new(crate::error::ErrorCode::UnsupportedEdit, crate::text::concat3(
                    "edits name both ",
                    key.as_str(),
                    crate::text::concat2(" and ", edits[j].document.as_str()).as_str(),
                )));
            }
            j = j + 1;
        }
        let d = match self.document_index(key.as_str()) {
            Some(d) => d,
            None => {
                return Err(Error::new(crate::error::ErrorCode::Edit, crate::text::concat3("no document ", key.as_str(), " in the snapshot")));
            },
        };
        assert(self@.documents[d as int] == doc_view(self.documents@[d as int]));
        let doc = &self.documents[d];
        if !doc.writable {
            return Err(Error::new(crate::error::ErrorCode::UnsupportedEdit, crate::text::concat3(
                "document ",
                key.as_str(),
                crate::text::concat2(" is ", doc.format.as_str()).as_str(),
            )));
        }
        proof {
            crate::load::lemma_rec_index(self@.records, doc.path@);
        }
        let r = match crate::load::find_record(&self.records, doc.path.as_str()) {
            Some(r) => r,
            None => {
                return Err(Error::new(crate::error::ErrorCode::Edit, crate::text::concat2("no record of ", doc.path.as_str())));
            },
        };
        let mut value = match &self.records[r].parsed {
            Some(v) => crate::json::copy_json(v),
            None => {
                return Err(Error::new(crate::error::ErrorCode::Edit, crate::text::concat2("no value for ", doc.path.as_str())));
            },
        };
        let ghost v0 = value@;
        let ghost key_v = key@;
        let ghost path_v = doc.path@;
        assert(prepare_spec(self@, ev) == match apply_edits(v0, ev) {
            Err(c) => Err(c),
            Ok(v) => Ok((key_v, path_v, v, crate::jsonfmt::format_spec(v))),
        });
        let mut i: usize = 0;
        assert(ev.skip(0) =~= ev);
        while i < edits.len()
            invariant
                i <= edits.len(),
                ev == crate::edit::edit_views(edits@),
                ev.len() == edits.len(),
                prepare_spec(self@, ev) == match apply_edits(v0, ev) {
                    Err(c) => Err(c),
                    Ok(v) => Ok((key_v, path_v, v, crate::jsonfmt::format_spec(v))),
                },
                apply_edits(v0, ev) == apply_edits(value@, ev.skip(i as int)),
            decreases edits.len() - i,
        {
            let e = &edits[i];
            assert(ev.skip(i as int)[0] == crate::edit::edit_view(*e));
            assert(ev.skip(i as int).drop_first() =~= ev.skip(i + 1));
            match e.op {
                crate::edit::Op::Put => {
                    let x = match &e.value {
                        Some(x) => crate::json::copy_json(x),
                        None => {
                            return Err(Error::new(crate::error::ErrorCode::Edit, crate::text::concat2(
                                "edit ",
                                crate::text::concat2(crate::text::count_text(i).as_str(), ": set needs a value").as_str(),
                            )));
                        },
                    };
                    let authored = match e.mode {
                        crate::edit::Mode::Literal => crate::edit::escape_literal(x),
                        crate::edit::Mode::Expression => match x {
                            Json::Str(s) => Json::Str(s),
                            _ => {
                                return Err(Error::new(crate::error::ErrorCode::Edit, crate::text::concat2(
                                    "edit ",
                                    crate::text::concat2(crate::text::count_text(i).as_str(), ": expression mode requires a string value").as_str(),
                                )));
                            },
                        },
                    };
                    value = match crate::pointer::set(value, e.pointer.as_str(), authored) {
                        Ok(v2) => v2,
                        Err(err) => {
                            return Err(err);
                        },
                    };
                },
                crate::edit::Op::Remove => {
                    value = match crate::pointer::remove(value, e.pointer.as_str()) {
                        Ok(v2) => v2,
                        Err(err) => {
                            return Err(err);
                        },
                    };
                },
            }
            i = i + 1;
        }
        assert(ev.skip(i as int) =~= Seq::<crate::edit::EditV>::empty());
        let after = crate::jsonfmt::format(&value);
        let document = key.clone();
        let path = doc.path.clone();
        assert(document@ == key_v && path@ == path_v);
        Ok(Prepared { document, path, value, after })
    }
}

} // verus!

verus! {

/// How many leading pairs have keys sorting before `k`.
pub open spec fn kv_before(m: Seq<(Seq<char>, Seq<char>)>, k: Seq<char>) -> int
    decreases m.len(),
{
    if m.len() == 0 {
        0
    } else if key_lt(m[0].0, k) {
        1 + kv_before(m.drop_first(), k)
    } else {
        0
    }
}

/// A map by key, as pairs sorted by key: `k` set to `v`.
pub open spec fn kv_insert(m: Seq<(Seq<char>, Seq<char>)>, k: Seq<char>, v: Seq<char>) -> Seq<(Seq<char>, Seq<char>)> {
    let p = kv_before(m, k);
    if p < m.len() && m[p].0 == k {
        m.update(p, (k, v))
    } else {
        m.insert(p, (k, v))
    }
}

/// The revision of every document read, by key.
pub open spec fn revisions_spec(dir: Seq<char>, recs: Seq<RecV>) -> Seq<(Seq<char>, Seq<char>)>
    decreases recs.len(),
{
    if recs.len() == 0 {
        Seq::empty()
    } else {
        kv_insert(revisions_spec(dir, recs.drop_last()), document_key_spec(dir, recs.last().path), revision_text(recs.last().data))
    }
}

/// The path of every document read, by key.
pub open spec fn paths_spec(dir: Seq<char>, recs: Seq<RecV>) -> Seq<(Seq<char>, Seq<char>)>
    decreases recs.len(),
{
    if recs.len() == 0 {
        Seq::empty()
    } else {
        kv_insert(paths_spec(dir, recs.drop_last()), document_key_spec(dir, recs.last().path), recs.last().path)
    }
}

/// Names sorted by code point, each once.
pub open spec fn unique_sorted(s: Seq<Seq<char>>) -> Seq<Seq<char>>
    decreases s.len(),
{
    if s.len() == 0 {
        Seq::empty()
    } else {
        let t = unique_sorted(s.drop_last());
        let p = crate::load::names_before(t, s.last());
        if p < t.len() && t[p] == s.last() {
            t
        } else {
            t.insert(p, s.last())
        }
    }
}

proof fn lemma_kv_before(m: Seq<(Seq<char>, Seq<char>)>, k: Seq<char>)
    ensures
        0 <= kv_before(m, k) <= m.len(),
    decreases m.len(),
{
    if m.len() > 0 && key_lt(m[0].0, k) {
        lemma_kv_before(m.drop_first(), k);
    }
}

proof fn lemma_names_before_bound(s: Seq<Seq<char>>, x: Seq<char>)
    ensures
        0 <= crate::load::names_before(s, x) <= s.len(),
    decreases s.len(),
{
    if s.len() > 0 && key_lt(s[0], x) {
        lemma_names_before_bound(s.drop_first(), x);
    }
}

/// Sets `k` to `v` in a map held as pairs sorted by key.
pub fn kv_set(m: &mut Vec<(String, String)>, k: String, v: String)
    ensures
        pair_views(final(m)@) == kv_insert(pair_views(old(m)@), k@, v@),
{
    let ghost t = pair_views(m@);
    let mut p: usize = 0;
    proof {
        lemma_kv_before(t, k@);
    }
    assert(t.skip(0) =~= t);
    while p < m.len() && key_less(m[p].0.as_str(), k.as_str())
        invariant
            p <= m.len(),
            t == pair_views(m@),
            t.len() == m.len(),
            kv_before(t, k@) == p + kv_before(t.skip(p as int), k@),
        decreases m.len() - p,
    {
        assert(t.skip(p as int)[0] == t[p as int]);
        assert(t.skip(p as int).drop_first() =~= t.skip(p + 1));
        p = p + 1;
    }
    proof {
        if p < m.len() {
            assert(t.skip(p as int)[0] == t[p as int]);
        }
    }
    let ghost kv = k@;
    let ghost vv = v@;
    if p < m.len() && same_text(m[p].0.as_str(), k.as_str()) {
        m.set(p, (k, v));
        assert(pair_views(m@) =~= t.update(p as int, (kv, vv)));
    } else {
        m.insert(p, (k, v));
        assert(pair_views(m@) =~= t.insert(p as int, (kv, vv)));
    }
}

/// The names sorted by code point, each once.
pub fn sorted_unique(names: &Vec<String>) -> (r: Vec<String>)
    ensures
        name_views(r@) == unique_sorted(name_views(names@)),
{
    let ghost nv = name_views(names@);
    let mut out: Vec<String> = Vec::new();
    let mut i: usize = 0;
    assert(nv.take(0) =~= Seq::<Seq<char>>::empty());
    while i < names.len()
        invariant
            i <= names.len(),
            nv == name_views(names@),
            nv.len() == names.len(),
            name_views(out@) == unique_sorted(nv.take(i as int)),
        decreases names.len() - i,
    {
        let ghost t = name_views(out@);
        let x = &names[i];
        let mut p: usize = 0;
        proof {
            lemma_names_before_bound(t, x@);
        }
        assert(t.skip(0) =~= t);
        while p < out.len() && key_less(out[p].as_str(), x.as_str())
            invariant
                p <= out.len(),
                t == name_views(out@),
                t.len() == out.len(),
                crate::load::names_before(t, x@) == p + crate::load::names_before(t.skip(p as int), x@),
            decreases out.len() - p,
        {
            assert(t.skip(p as int)[0] == t[p as int]);
            assert(t.skip(p as int).drop_first() =~= t.skip(p + 1));
            p = p + 1;
        }
        proof {
            if p < out.len() {
                assert(t.skip(p as int)[0] == t[p as int]);
            }
        }
        assert(nv.take(i + 1).drop_last() =~= nv.take(i as int));
        assert(nv.take(i + 1).last() == x@);
        if p < out.len() && same_text(out[p].as_str(), x.as_str()) {
            assert(t[p as int] == x@);
        } else {
            out.insert(p, x.clone());
            assert(name_views(out@) =~= t.insert(p as int, x@));
        }
        i = i + 1;
    }
    assert(nv.take(i as int) =~= nv);
    out
}

} // verus!

verus! {

/// A prepared, validated change to one document. Nothing has
/// been written; a commit writes `after` if every dependency is unchanged.
#[derive(Debug)]
pub struct Plan {
    /// The edited document's key.
    pub document: String,
    /// The document's text as the snapshot holds it.
    pub before: String,
    /// The document's new text.
    pub after: String,
    /// The candidate effective tree: what the directory loads to after
    /// commit.
    pub candidate: Json,
    /// The effective pointers where `candidate` differs from the snapshot.
    pub affected: Vec<String>,
    /// The edited document's grafts.
    pub grafts: Vec<Graft>,
    /// The revision of every document the candidate load read, by key.
    pub revisions: Vec<(String, String)>,
    /// The names of every variable the candidate load looked up, sorted.
    pub variables: Vec<String>,
    /// The fingerprint of those variables' values.
    pub variables_revision: String,
    /// The config directory.
    pub dir: String,
    /// The edited document's path.
    pub path: String,
    /// The path of every document the candidate load read, by key.
    pub paths: Vec<(String, String)>,
}

/// The view of a [`Plan`].
pub struct PlanV {
    /// The key.
    pub document: Seq<char>,
    /// The old text.
    pub before: Seq<char>,
    /// The new text.
    pub after: Seq<char>,
    /// The candidate tree.
    pub candidate: JV,
    /// The affected pointers.
    pub affected: Seq<Seq<char>>,
    /// The edited document's grafts.
    pub grafts: Seq<GraftKV>,
    /// Revisions by key.
    pub revisions: Seq<(Seq<char>, Seq<char>)>,
    /// Variable names.
    pub variables: Seq<Seq<char>>,
    /// Their fingerprint.
    pub variables_revision: Seq<char>,
    /// The directory.
    pub dir: Seq<char>,
    /// The edited path.
    pub path: Seq<char>,
    /// Paths by key.
    pub paths: Seq<(Seq<char>, Seq<char>)>,
}

/// The view of a plan.
pub open spec fn plan_view(p: Plan) -> PlanV {
    PlanV {
        document: p.document@,
        before: p.before@,
        after: p.after@,
        candidate: p.candidate@,
        affected: name_views(p.affected@),
        grafts: grafts_view(p.grafts@),
        revisions: pair_views(p.revisions@),
        variables: name_views(p.variables@),
        variables_revision: p.variables_revision@,
        dir: p.dir@,
        path: p.path@,
        paths: pair_views(p.paths@),
    }
}

/// The text the snapshot holds for a path.
pub open spec fn snapshot_text(sv: SnapshotV, path: Seq<char>) -> Seq<char> {
    match crate::load::rec_index(sv.records, path) {
        Some(i) => if i < sv.texts.len() {
            sv.texts[i]
        } else {
            Seq::empty()
        },
        None => Seq::empty(),
    }
}

/// The plan for a prepared change, given the filesystem as the
/// candidate sees it: the snapshot's bytes with the new text in place, and
/// disk for anything else. The candidate is the full load evaluated against
/// the snapshot's variable capture; any failure of it fails the plan with
/// that load's code. The edited document's own revision is the one the
/// snapshot saw, since a commit must find the file as it was.
pub open spec fn plan_spec(sv: SnapshotV, key: Seq<char>, path: Seq<char>, after: Seq<char>, files: Seq<FileV>, env_names: Seq<Seq<char>>) -> Out<PlanV> {
    if !holds_overlay(sv, path, after, files) {
        Out::Fail(crate::error::ErrorCode::Edit)
    } else {
    match load_spec(files, env_names, sv.dir, sv.captured) {
        Out::Need(p) => Out::Need(p),
        Out::Fail(c) => Out::Fail(c),
        Out::Done(lv) => match doc_index(sv.documents, key) {
            None => Out::Fail(crate::error::ErrorCode::Edit),
            Some(d) => {
                let variables = unique_sorted(lv.used);
                Out::Done(PlanV {
                    document: key,
                    before: snapshot_text(sv, path),
                    after,
                    candidate: lv.tree,
                    affected: crate::edit::affected_spec(sv.tree, lv.tree),
                    grafts: sv.documents[d].grafts,
                    revisions: kv_insert(revisions_spec(sv.dir, lv.recs), key, sv.documents[d].revision),
                    variables,
                    variables_revision: revision_text(vstd::utf8::encode_utf8(
                        crate::edit::fingerprint_text(variables, crate::load::namespace(sv.captured, lv.values)),
                    )),
                    dir: sv.dir,
                    path,
                    paths: paths_spec(sv.dir, lv.recs),
                })
            },
        },
    }
    }
}

/// Whether every entry for a path the candidate reads in place of disk (the
/// edited document, or a document the snapshot read) holds the overlay's
/// bytes.
pub open spec fn holds_overlay(sv: SnapshotV, path: Seq<char>, after: Seq<char>, files: Seq<FileV>) -> bool {
    forall|i: int| 0 <= i < files.len() ==> match #[trigger] overlay_spec(sv, path, after, files[i].path) {
        Some(d) => files[i].data == Some(d),
        None => true,
    }
}

/// What the candidate load reads for a path instead of disk: the new text
/// for the edited document, the snapshot's bytes for one it read.
pub open spec fn overlay_spec(sv: SnapshotV, path: Seq<char>, after: Seq<char>, wanted: Seq<char>) -> Option<Seq<u8>> {
    if wanted == path {
        Some(vstd::utf8::encode_utf8(after))
    } else {
        match crate::load::rec_index(sv.records, wanted) {
            Some(i) => Some(sv.records[i].data),
            None => None,
        }
    }
}

fn copy_grafts(gs: &Vec<Graft>) -> (r: Vec<Graft>)
    ensures
        grafts_view(r@) == grafts_view(gs@),
{
    let mut out: Vec<Graft> = Vec::new();
    let mut i: usize = 0;
    while i < gs.len()
        invariant
            i <= gs.len(),
            grafts_view(out@) == grafts_view(gs@).take(i as int),
        decreases gs.len() - i,
    {
        let mut chain: Vec<Reference> = Vec::new();
        let mut k: usize = 0;
        while k < gs[i].chain.len()
            invariant
                k <= gs@[i as int].chain.len(),
                i < gs.len(),
                chain_view(chain@) == chain_view(gs@[i as int].chain@).take(k as int),
            decreases gs@[i as int].chain.len() - k,
        {
            let r = Reference { document: gs[i].chain[k].document.clone(), pointer: gs[i].chain[k].pointer.clone() };
            let ghost prev = chain_view(chain@);
            chain.push(r);
            assert(chain_view(chain@) =~= prev.push(ref_view(r)));
            assert(chain_view(gs@[i as int].chain@).take(k + 1) =~= chain_view(gs@[i as int].chain@).take(k as int).push(ref_view(r)));
            k = k + 1;
        }
        assert(chain_view(gs@[i as int].chain@).take(k as int) =~= chain_view(gs@[i as int].chain@));
        let g = Graft { effective: gs[i].effective.clone(), chain };
        let ghost prev = grafts_view(out@);
        out.push(g);
        assert(grafts_view(out@) =~= prev.push(graftk_view(g)));
        assert(grafts_view(gs@).take(i + 1) =~= grafts_view(gs@).take(i as int).push(graftk_view(g)));
        i = i + 1;
    }
    assert(grafts_view(gs@).take(i as int) =~= grafts_view(gs@));
    out
}

impl Snapshot {
    /// The bytes the candidate load reads for `path` in place of disk, if
    /// any.
    pub fn overlay_data(&self, prepared: &Prepared, path: &str) -> (r: Option<Vec<u8>>)
        ensures
            r matches Some(d) ==> overlay_spec(self@, prepared.path@, prepared.after@, path@) == Some(d@),
            r is None ==> overlay_spec(self@, prepared.path@, prepared.after@, path@) is None,
    {
        if same_text(prepared.path.as_str(), path) {
            let b = prepared.after.as_str().as_bytes();
            return Some(crate::load::copy_byte_slice(b));
        }
        proof {
            crate::load::lemma_rec_index(self@.records, path@);
        }
        match crate::load::find_record(&self.records, path) {
            Some(i) => Some(crate::load::copy_byte_slice(self.records[i].data.as_slice())),
            None => None,
        }
    }

    /// The `*.env` file names the snapshot saw, sorted.
    pub fn env_file_names(&self) -> (r: Vec<String>)
        ensures
            name_views(r@) == self@.env_names,
    {
        crate::load::sorted_copy(&self.env_names)
    }

    /// The plan for a prepared change, with `disk` the
    /// filesystem as the candidate sees it.
    fn plan_prepared(&self, prepared: &Prepared, disk: &Disk) -> (r: Step<Result<Plan, Error>>)
        ensures
            match plan_spec(self@, prepared.document@, prepared.path@, prepared.after@, files_view(*disk), name_views(disk.env_names@)) {
                Out::Need(p) => r matches Step::Need(q) && q@ == p,
                Out::Fail(c) => r matches Step::Done(Err(e)) && e.spec_code() == c,
                Out::Done(pv) => r matches Step::Done(Ok(x)) && plan_view(x) == pv,
            },
    {
        let ghost fv = files_view(*disk);
        let mut i: usize = 0;
        while i < disk.files.len()
            invariant
                i <= disk.files.len(),
                fv == files_view(*disk),
                fv.len() == disk.files.len(),
                forall|k: int| 0 <= k < i ==> match #[trigger] overlay_spec(self@, prepared.path@, prepared.after@, fv[k].path) {
                    Some(d) => fv[k].data == Some(d),
                    None => true,
                },
            decreases disk.files.len() - i,
        {
            let e = &disk.files[i];
            assert(fv[i as int] == crate::load::file_view(disk.files@[i as int]));
            match self.overlay_data(prepared, e.path.as_str()) {
                Some(d) => {
                    let same = match &e.data {
                        Ok(x) => crate::load::same_bytes(x.as_slice(), d.as_slice()),
                        Err(_) => false,
                    };
                    if !same {
                        assert(overlay_spec(self@, prepared.path@, prepared.after@, fv[i as int].path) == Some(d@));
                        assert(fv[i as int].data != Some(d@));
                        assert(!holds_overlay(self@, prepared.path@, prepared.after@, fv));
                        return Step::Done(Err(Error::new(crate::error::ErrorCode::Edit, crate::text::concat3(
                            "the disk given for the candidate does not hold the planned bytes of ",
                            e.path.as_str(),
                            "",
                        ))));
                    }
                },
                None => {},
            }
            i = i + 1;
        }
        assert(holds_overlay(self@, prepared.path@, prepared.after@, fv));
        let loaded = match load_tree(disk, self.dir.as_str(), &self.captured) {
            Step::Need(p) => {
                return Step::Need(p);
            },
            Step::Done(Err(e)) => {
                return Step::Done(Err(e));
            },
            Step::Done(Ok(l)) => l,
        };
        let d = match self.document_index(prepared.document.as_str()) {
            Some(d) => d,
            None => {
                return Step::Done(Err(Error::new(crate::error::ErrorCode::Edit, crate::text::concat3(
                    "no document ",
                    prepared.document.as_str(),
                    " in the snapshot",
                ))));
            },
        };
        assert(self@.documents[d as int] == doc_view(self.documents@[d as int]));
        let ghost rv = recs_view(loaded.docs@);
        let mut revisions: Vec<(String, String)> = Vec::new();
        let mut paths: Vec<(String, String)> = Vec::new();
        let mut i: usize = 0;
        assert(rv.take(0) =~= Seq::<RecV>::empty());
        assert(pair_views(revisions@) =~= Seq::<(Seq<char>, Seq<char>)>::empty());
        assert(pair_views(paths@) =~= Seq::<(Seq<char>, Seq<char>)>::empty());
        while i < loaded.docs.len()
            invariant
                i <= loaded.docs.len(),
                rv == recs_view(loaded.docs@),
                rv.len() == loaded.docs.len(),
                pair_views(revisions@) == revisions_spec(self@.dir, rv.take(i as int)),
                pair_views(paths@) == paths_spec(self@.dir, rv.take(i as int)),
            decreases loaded.docs.len() - i,
        {
            let rec = &loaded.docs[i];
            assert(rv.take(i + 1).drop_last() =~= rv.take(i as int));
            assert(rv.take(i + 1).last() == rv[i as int]);
            let k = document_key(self.dir.as_str(), rec.path.as_str());
            kv_set(&mut revisions, k.clone(), revision_of(rec.data.as_slice()));
            kv_set(&mut paths, k, rec.path.clone());
            i = i + 1;
        }
        assert(rv.take(i as int) =~= rv);
        kv_set(&mut revisions, prepared.document.clone(), self.documents[d].revision.clone());
        let variables = sorted_unique(&loaded.used);
        let mut vars = crate::envfile::Vars::new(
            crate::load::copy_pair_list(&self.captured),
            crate::load::copy_pair_list(&loaded.values),
            crate::load::copy_pair_list(&loaded.origins),
        );
        proof {
            crate::load::lemma_namespace(vars.process@, vars.files@);
        }
        let variables_revision = crate::edit::variables_revision(&variables, &mut vars);
        let affected = crate::edit::affected_pointers(&self.tree, &loaded.tree);
        proof {
            crate::load::lemma_rec_index(self@.records, prepared.path@);
        }
        let before = match crate::load::find_record(&self.records, prepared.path.as_str()) {
            Some(k) => if k < self.texts.len() {
                assert(self@.texts[k as int] == self.texts@[k as int]@);
                self.texts[k].clone()
            } else {
                String::new()
            },
            None => String::new(),
        };
        let plan = Plan {
            document: prepared.document.clone(),
            before,
            after: prepared.after.clone(),
            candidate: loaded.tree,
            affected,
            grafts: copy_grafts(&self.documents[d].grafts),
            revisions,
            variables,
            variables_revision,
            dir: self.dir.clone(),
            path: prepared.path.clone(),
            paths,
        };
        Step::Done(Ok(plan))
    }
}

} // verus!

verus! {

impl Snapshot {
    /// Validates `edits`, applies them to a copy of the selected
    /// document, and evaluates the candidate configuration with
    /// the new text in place of the document. `disk` is the
    /// filesystem as the candidate sees it: [`Snapshot::overlay_data`] for
    /// every path the snapshot read, disk for anything else. Nothing is
    /// written.
    pub fn plan(&self, edits: &Vec<crate::edit::Edit>, disk: &Disk) -> (r: Step<Result<Plan, Error>>)
        ensures
            match prepare_spec(self@, crate::edit::edit_views(edits@)) {
                Err(c) => r matches Step::Done(Err(e)) && e.spec_code() == c,
                Ok((k, p, v, a)) => match plan_spec(self@, k, p, a, files_view(*disk), name_views(disk.env_names@)) {
                    Out::Need(q) => r matches Step::Need(n) && n@ == q,
                    Out::Fail(c) => r matches Step::Done(Err(e)) && e.spec_code() == c,
                    Out::Done(pv) => r matches Step::Done(Ok(x)) && plan_view(x) == pv,
                },
            },
    {
        match self.prepare(edits) {
            Err(e) => Step::Done(Err(e)),
            Ok(p) => self.plan_prepared(&p, disk),
        }
    }
}

} // verus!

verus! {

/// What a commit re-read for one of the plan's dependencies: its bytes (or
/// why they could not be read) and those bytes as text, invalid UTF-8
/// replaced.
#[derive(Debug)]
pub struct Reread {
    /// The bytes, or why they could not be read.
    pub data: Result<Vec<u8>, String>,
    /// The bytes as text.
    pub text: String,
}

/// The view of a [`Reread`].
pub struct RereadV {
    /// The bytes, if readable.
    pub data: Option<Seq<u8>>,
    /// The text.
    pub text: Seq<char>,
}

/// The view of a re-read.
pub open spec fn reread_view(r: Reread) -> RereadV {
    RereadV {
        data: match r.data {
            Ok(d) => Some(d@),
            Err(_) => None,
        },
        text: r.text@,
    }
}

/// The views of the re-reads.
pub open spec fn rereads_view(rs: Seq<Reread>) -> Seq<RereadV> {
    rs.map_values(|r: Reread| reread_view(r))
}

/// Whether a key names a `*.env` file.
pub open spec fn is_env_key(k: Seq<char>) -> bool {
    k.len() >= 4 && k.skip(k.len() - 4) == ".env"@
}

/// Definitions added to a namespace held as pairs sorted by name; a later
/// definition replaces an earlier one.
pub open spec fn define_all(m: Seq<(Seq<char>, Seq<char>)>, pairs: Seq<(Seq<char>, Seq<char>)>) -> Seq<(Seq<char>, Seq<char>)>
    decreases pairs.len(),
{
    if pairs.len() == 0 {
        m
    } else {
        define_all(kv_insert(m, pairs[0].0, pairs[0].1), pairs.drop_first())
    }
}

/// Each name of the definitions recorded as defined in `path`.
pub open spec fn origin_all(m: Seq<(Seq<char>, Seq<char>)>, pairs: Seq<(Seq<char>, Seq<char>)>, path: Seq<char>) -> Seq<(Seq<char>, Seq<char>)>
    decreases pairs.len(),
{
    if pairs.len() == 0 {
        m
    } else {
        origin_all(kv_insert(m, pairs[0].0, path), pairs.drop_first(), path)
    }
}

/// The commit's recheck of the documents, in key order: every one must
/// still be readable with the revision the plan saw (`E_STALE_PLAN`
/// otherwise); each `*.env` one is parsed again into the namespace.
pub open spec fn recheck_spec(
    revs: Seq<(Seq<char>, Seq<char>)>,
    reads: Seq<RereadV>,
    paths: Seq<(Seq<char>, Seq<char>)>,
    values: Seq<(Seq<char>, Seq<char>)>,
    origins: Seq<(Seq<char>, Seq<char>)>,
) -> Result<(Seq<(Seq<char>, Seq<char>)>, Seq<(Seq<char>, Seq<char>)>), crate::error::ErrorCode>
    decreases revs.len(),
{
    if revs.len() == 0 || reads.len() == 0 {
        Ok((values, origins))
    } else {
        match reads[0].data {
            None => Err(crate::error::ErrorCode::StalePlan),
            Some(d) => if revision_text(d) != revs[0].1 {
                Err(crate::error::ErrorCode::StalePlan)
            } else if is_env_key(revs[0].0) {
                match crate::envfile::parse_env_spec(reads[0].text) {
                    Err(_) => Err(crate::error::ErrorCode::StalePlan),
                    Ok(pairs) => {
                        let path = match crate::load::lookup_view(paths, revs[0].0) {
                            Some(p) => p,
                            None => Seq::empty(),
                        };
                        recheck_spec(revs.drop_first(), reads.drop_first(), paths, define_all(values, pairs), origin_all(origins, pairs, path))
                    },
                }
            } else {
                recheck_spec(revs.drop_first(), reads.drop_first(), paths, values, origins)
            },
        }
    }
}

/// The view of a receipt.
pub struct ReceiptV {
    /// The written document's key.
    pub document: Seq<char>,
    /// Its new revision.
    pub revision: Seq<char>,
    /// The plan's revisions with the written document's updated.
    pub revisions: Seq<(Seq<char>, Seq<char>)>,
}

/// The view of a receipt.
pub open spec fn receipt_view(r: crate::edit::Receipt) -> ReceiptV {
    ReceiptV { document: r.document@, revision: r.revision@, revisions: pair_views(r.revisions@) }
}

/// The commit's decision, given what was re-read for each revision (in the
/// plan's key order) and the live process environment: every document
/// unchanged and the variables fingerprint unchanged, or `E_STALE_PLAN`;
/// on success, the receipt for writing `after`.
pub open spec fn commit_spec(pv: PlanV, reads: Seq<RereadV>, live: Seq<(Seq<char>, Seq<char>)>) -> Result<ReceiptV, crate::error::ErrorCode> {
    if reads.len() != pv.revisions.len() {
        Err(crate::error::ErrorCode::StalePlan)
    } else {
        match recheck_spec(pv.revisions, reads, pv.paths, Seq::empty(), Seq::empty()) {
            Err(c) => Err(c),
            Ok((values, origins)) => if revision_text(vstd::utf8::encode_utf8(
                crate::edit::fingerprint_text(pv.variables, crate::load::namespace(live, values)),
            )) != pv.variables_revision {
                Err(crate::error::ErrorCode::StalePlan)
            } else {
                let rev = revision_text(vstd::utf8::encode_utf8(pv.after));
                Ok(ReceiptV { document: pv.document, revision: rev, revisions: kv_insert(pv.revisions, pv.document, rev) })
            },
        }
    }
}

fn ends_with_env(k: &str) -> (r: bool)
    ensures
        r == is_env_key(k@),
{
    let c = crate::text::chars_of(k);
    proof {
        reveal_strlit(".env");
    }
    let n = c.len();
    if n < 4 {
        return false;
    }
    let r = c[n - 4] == '.' && c[n - 3] == 'e' && c[n - 2] == 'n' && c[n - 1] == 'v';
    let ghost tail = k@.skip(n - 4);
    assert(".env"@.len() == 4);
    assert(tail[0] == c@[n - 4] && tail[1] == c@[n - 3] && tail[2] == c@[n - 2] && tail[3] == c@[n - 1]);
    proof {
        if r {
            assert(tail =~= ".env"@);
        } else if tail == ".env"@ {
            assert(".env"@[0] == '.' && ".env"@[1] == 'e' && ".env"@[2] == 'n' && ".env"@[3] == 'v');
        }
    }
    r
}

fn define_pairs(values: &mut Vec<(String, String)>, origins: &mut Vec<(String, String)>, pairs: &Vec<(String, String)>, path: &str)
    ensures
        pair_views(final(values)@) == define_all(pair_views(old(values)@), pair_views(pairs@)),
        pair_views(final(origins)@) == origin_all(pair_views(old(origins)@), pair_views(pairs@), path@),
{
    let ghost pv = pair_views(pairs@);
    let mut i: usize = 0;
    assert(pv.skip(0) =~= pv);
    while i < pairs.len()
        invariant
            i <= pairs.len(),
            pv == pair_views(pairs@),
            pv.len() == pairs.len(),
            define_all(pair_views(old(values)@), pv) == define_all(pair_views(values@), pv.skip(i as int)),
            origin_all(pair_views(old(origins)@), pv, path@) == origin_all(pair_views(origins@), pv.skip(i as int), path@),
        decreases pairs.len() - i,
    {
        assert(pv.skip(i as int)[0] == (pairs@[i as int].0@, pairs@[i as int].1@));
        assert(pv.skip(i as int).drop_first() =~= pv.skip(i + 1));
        kv_set(values, pairs[i].0.clone(), pairs[i].1.clone());
        kv_set(origins, pairs[i].0.clone(), crate::text::owned(path));
        i = i + 1;
    }
    assert(pv.skip(i as int) =~= Seq::<(Seq<char>, Seq<char>)>::empty());
}

fn stale(detail: &str) -> (e: Error)
    ensures
        e.spec_code() == crate::error::ErrorCode::StalePlan,
{
    Error::new(crate::error::ErrorCode::StalePlan, crate::text::owned(detail))
}

impl Plan {
    /// The commit's recheck and receipt: `reads` holds what was re-read for
    /// each of the plan's revisions, in their key order, under the
    /// directory lock; `live` is the live process environment. Any document
    /// changed or gone, or any variable the candidate depends on changed, is
    /// `E_STALE_PLAN`. On success the caller writes `after` and returns the
    /// receipt.
    pub fn commit(&self, reads: &Vec<Reread>, live: &Vec<(String, String)>) -> (r: Result<crate::edit::Receipt, Error>)
        ensures
            match commit_spec(plan_view(*self), rereads_view(reads@), pair_views(live@)) {
                Err(c) => r matches Err(e) && e.spec_code() == c,
                Ok(rv) => r matches Ok(x) && receipt_view(x) == rv,
            },
    {
        let ghost pv = plan_view(*self);
        let ghost rv = rereads_view(reads@);
        if reads.len() != self.revisions.len() {
            return Err(stale("the plan's documents were not all re-read"));
        }
        let mut values: Vec<(String, String)> = Vec::new();
        let mut origins: Vec<(String, String)> = Vec::new();
        assert(pair_views(values@) =~= Seq::<(Seq<char>, Seq<char>)>::empty());
        assert(pair_views(origins@) =~= Seq::<(Seq<char>, Seq<char>)>::empty());
        let mut i: usize = 0;
        assert(pv.revisions.skip(0) =~= pv.revisions);
        assert(rv.skip(0) =~= rv);
        while i < self.revisions.len()
            invariant
                i <= self.revisions.len(),
                pv == plan_view(*self),
                rv == rereads_view(reads@),
                reads.len() == self.revisions.len(),
                pv.revisions.len() == self.revisions.len(),
                recheck_spec(pv.revisions, rv, pv.paths, Seq::empty(), Seq::empty()) == recheck_spec(
                    pv.revisions.skip(i as int),
                    rv.skip(i as int),
                    pv.paths,
                    pair_views(values@),
                    pair_views(origins@),
                ),
            decreases self.revisions.len() - i,
        {
            let ghost revs = pv.revisions.skip(i as int);
            let ghost rs = rv.skip(i as int);
            assert(revs[0] == (self.revisions@[i as int].0@, self.revisions@[i as int].1@));
            assert(rs[0] == reread_view(reads@[i as int]));
            assert(revs.drop_first() =~= pv.revisions.skip(i + 1));
            assert(rs.drop_first() =~= rv.skip(i + 1));
            let key = &self.revisions[i].0;
            let data = match &reads[i].data {
                Ok(d) => d,
                Err(m) => {
                    return Err(Error::new(crate::error::ErrorCode::StalePlan, crate::text::concat3(
                        "document ",
                        key.as_str(),
                        crate::text::concat2(" can no longer be read: ", m.as_str()).as_str(),
                    )));
                },
            };
            let got = revision_of(data.as_slice());
            if !same_text(got.as_str(), self.revisions[i].1.as_str()) {
                return Err(Error::new(crate::error::ErrorCode::StalePlan, crate::text::concat3(
                    "document ",
                    key.as_str(),
                    " changed since the plan was made",
                )));
            }
            if ends_with_env(key.as_str()) {
                let path = match crate::envfile::lookup(&self.paths, key.as_str()) {
                    Some(p) => p,
                    None => String::new(),
                };
                proof {
                    crate::load::lemma_lookup_view_pub(self.paths@, key@);
                }
                let pairs = match crate::envfile::parse_env_file(reads[i].text.as_str(), path.as_str()) {
                    Ok(p) => p,
                    Err(e) => {
                        return Err(Error::new(crate::error::ErrorCode::StalePlan, crate::text::owned(e.message())));
                    },
                };
                define_pairs(&mut values, &mut origins, &pairs, path.as_str());
            }
            i = i + 1;
        }
        assert(pv.revisions.skip(i as int) =~= Seq::<(Seq<char>, Seq<char>)>::empty());
        let mut vars = crate::envfile::Vars::new(
            crate::load::copy_pair_list(live),
            crate::load::copy_pair_list(&values),
            crate::load::copy_pair_list(&origins),
        );
        proof {
            crate::load::lemma_namespace(vars.process@, vars.files@);
        }
        let fp = crate::edit::variables_revision(&self.variables, &mut vars);
        if !same_text(fp.as_str(), self.variables_revision.as_str()) {
            return Err(stale("a variable the candidate depends on changed since the plan was made"));
        }
        let revision = revision_of(self.after.as_str().as_bytes());
        let mut revisions = crate::load::copy_pair_list(&self.revisions);
        kv_set(&mut revisions, self.document.clone(), revision.clone());
        Ok(crate::edit::Receipt { document: self.document.clone(), revision, revisions })
    }
}

} // verus!
