//! YAML documents: the parser's event stream folded into one value
//! of the data model, with anchors and aliases expanded under the node
//! budget.
//!
//! The counting rule: a scalar counts one; a sequence or mapping contributes
//! one per element or entry plus each element value's own count; mapping keys
//! are not counted. So a sequence of 1,000 scalars counts 2,000 and an empty
//! collection counts zero.
//!
//! The budget is charged as the tree is built: each completed value pays one
//! for the element or entry slot that holds it (nothing in mapping-key
//! position, nothing at the document root) plus, for a scalar or an alias
//! expansion, its own count. An alias is charged the whole count of the
//! anchored subtree before that subtree is copied, so a layered alias bomb is
//! rejected after a bounded amount of work.

use std::borrow::Cow;

use saphyr_parser::{Event, Parser, ScalarStyle, StrInput, Tag};
use vstd::prelude::*;

use crate::json::{copy_json, jv_of, keys_sorted, lemma_jv_entries, lemma_jv_seq, obj_find, obj_get, obj_insert, obj_pos, lemma_obj_pos, Entries, Json, JV};
use crate::parse::yaml::{core_handle, resolve_scalar, resolve_scalar_spec, tag_view};
use crate::text::{concat2, concat3, count_text, same_text};

verus! {

/// A document whose fully expanded tree would exceed this many nodes is
/// rejected.
pub const NODE_BUDGET: usize = 1_000_000;

/// How a scalar was written.
#[derive(Debug, Clone, Copy, PartialEq, Eq, Structural)]
pub enum YamlStyle {
    /// Unquoted.
    Plain,
    /// In single quotes.
    SingleQuoted,
    /// In double quotes.
    DoubleQuoted,
    /// A `|` block.
    Literal,
    /// A `>` block.
    Folded,
}

/// One event of a YAML stream, as the parser reports it. Anchor number 0
/// means "no anchor".
#[derive(Debug)]
pub enum YamlEvent {
    /// Reserved by the parser; carries no data.
    Nothing,
    /// The start of the stream.
    StreamStart,
    /// The end of the stream: the last event.
    StreamEnd,
    /// The start of a document, explicit (`---`) or not.
    DocumentStart(bool),
    /// The end of a document.
    DocumentEnd,
    /// A scalar: its text, how it was written, its anchor, and its tag as
    /// handle and suffix.
    Scalar { value: String, style: YamlStyle, anchor: usize, tag: Option<(String, String)> },
    /// The start of a sequence, with its anchor and tag.
    SequenceStart { anchor: usize, tag: Option<(String, String)> },
    /// The end of a sequence.
    SequenceEnd,
    /// The start of a mapping, with its anchor and tag.
    MappingStart { anchor: usize, tag: Option<(String, String)> },
    /// The end of a mapping.
    MappingEnd,
    /// An alias to the anchor with this number.
    Alias(usize),
}

/// The view of a [`YamlEvent`].
pub enum Ev {
    /// Text, plain, anchor, tag.
    Scalar(Seq<char>, bool, nat, Option<(Seq<char>, Seq<char>)>),
    /// Anchor, tag.
    SeqStart(nat, Option<(Seq<char>, Seq<char>)>),
    /// End of a sequence.
    SeqEnd,
    /// Anchor, tag.
    MapStart(nat, Option<(Seq<char>, Seq<char>)>),
    /// End of a mapping.
    MapEnd,
    /// Anchor number.
    Alias(nat),
    /// A stream or document boundary; no data.
    Marker,
    /// The end of the stream.
    End,
}

impl View for YamlEvent {
    type V = Ev;

    open spec fn view(&self) -> Ev {
        match self {
            YamlEvent::Scalar { value, style, anchor, tag } => Ev::Scalar(
                value@,
                *style == YamlStyle::Plain,
                *anchor as nat,
                tag_view(*tag),
            ),
            YamlEvent::SequenceStart { anchor, tag } => Ev::SeqStart(*anchor as nat, tag_view(*tag)),
            YamlEvent::SequenceEnd => Ev::SeqEnd,
            YamlEvent::MappingStart { anchor, tag } => Ev::MapStart(*anchor as nat, tag_view(*tag)),
            YamlEvent::MappingEnd => Ev::MapEnd,
            YamlEvent::Alias(id) => Ev::Alias(*id as nat),
            YamlEvent::StreamEnd => Ev::End,
            _ => Ev::Marker,
        }
    }
}

/// The views of a list of events.
pub open spec fn ev_views(s: Seq<YamlEvent>) -> Seq<Ev> {
    s.map_values(|e: YamlEvent| e@)
}

/// A value's node count under the counting rule.
pub open spec fn node_count(v: JV) -> nat
    decreases v,
{
    match v {
        JV::Arr(items) => items_cost(items),
        JV::Obj(es) => members_cost(es),
        _ => 1,
    }
}

/// What a sequence's elements count: one per element plus its own count.
pub open spec fn items_cost(s: Seq<JV>) -> nat
    decreases s,
{
    if s.len() == 0 {
        0
    } else {
        items_cost(s.drop_last()) + 1 + node_count(s.last())
    }
}

/// What a mapping's entries count: one per entry plus its value's count;
/// keys are free.
pub open spec fn members_cost(s: Entries) -> nat
    decreases s,
{
    if s.len() == 0 {
        0
    } else {
        members_cost(s.drop_last()) + 1 + node_count(s.last().1)
    }
}

/// A collection under construction.
pub enum FrameV {
    /// A sequence: its anchor, the elements so far, and their count.
    Sequence { anchor: nat, items: Seq<JV>, nodes: nat },
    /// A mapping: its anchor, the entries so far, a key waiting for its
    /// value, and the entries' count.
    Mapping { anchor: nat, members: Entries, key: Option<Seq<char>>, nodes: nat },
}

/// The builder's state: open collections innermost last, anchored values
/// with their counts, completed documents, and the nodes charged so far.
pub struct BState {
    /// Open collections, innermost last.
    pub stack: Seq<FrameV>,
    /// Anchor number, anchored value, its node count; later entries shadow.
    pub anchors: Seq<(nat, JV, nat)>,
    /// Completed documents.
    pub docs: Seq<JV>,
    /// Nodes charged so far.
    pub nodes: nat,
}

/// The nodes a frame has counted.
pub open spec fn frame_nodes(f: FrameV) -> nat {
    match f {
        FrameV::Sequence { nodes, .. } => nodes,
        FrameV::Mapping { nodes, .. } => nodes,
    }
}

/// The state before the first event.
pub open spec fn start_state() -> BState {
    BState { stack: Seq::empty(), anchors: Seq::empty(), docs: Seq::empty(), nodes: 0 }
}

/// Whether the next completed value lands in mapping-key position.
pub open spec fn in_key_position(stack: Seq<FrameV>) -> bool {
    stack.len() > 0 && stack.last() matches FrameV::Mapping { key: None, .. }
}

/// Charges `budget` for a completed value of `size` nodes landing where the
/// stack says: nothing in key position; otherwise one for the slot (none at
/// the document root) plus, when `own`, the value's own count. `None` when
/// the budget is exceeded.
pub open spec fn charge_within(st: BState, size: nat, own: bool, budget: nat) -> Option<BState> {
    if in_key_position(st.stack) {
        Some(st)
    } else {
        let n = st.nodes + (if st.stack.len() > 0 { 1nat } else { 0nat }) + (if own { size } else { 0nat });
        if n > budget {
            None
        } else {
            Some(BState { nodes: n, ..st })
        }
    }
}

/// Charges [`NODE_BUDGET`].
pub open spec fn charge(st: BState, size: nat, own: bool) -> Option<BState> {
    charge_within(st, size, own, NODE_BUDGET as nat)
}

/// Adds a completed value of `size` nodes to a frame: a sequence element, a
/// mapping key (which must be a string), or a mapping value (whose key must
/// be new).
pub open spec fn push_into(f: FrameV, v: JV, size: nat) -> Result<FrameV, ()> {
    match f {
        FrameV::Sequence { anchor, items, nodes } => Ok(FrameV::Sequence { anchor, items: items.push(v), nodes: nodes + 1 + size }),
        FrameV::Mapping { anchor, members, key, nodes } => match key {
            None => match v {
                JV::Str(k) => Ok(FrameV::Mapping { anchor, members, key: Some(k), nodes }),
                _ => Err(()),
            },
            Some(k) => if obj_get(members, k) is Some {
                Err(())
            } else {
                Ok(FrameV::Mapping { anchor, members: obj_insert(members, k, v), key: None, nodes: nodes + 1 + size })
            },
        },
    }
}

/// Places a completed value: remembered under its anchor, then added to the
/// innermost open collection or, at the root, completed as a document.
pub open spec fn place(st: BState, v: JV, size: nat, anchor: nat) -> Result<BState, ()> {
    let anchors = if anchor != 0 { st.anchors.push((anchor, v, size)) } else { st.anchors };
    if st.stack.len() == 0 {
        Ok(BState { anchors, docs: st.docs.push(v), ..st })
    } else {
        match push_into(st.stack.last(), v, size) {
            Ok(f) => Ok(BState { anchors, stack: st.stack.update(st.stack.len() - 1, f), ..st }),
            Err(_) => Err(()),
        }
    }
}

/// The value and count most recently anchored under `id`.
pub open spec fn anchor_lookup(anchors: Seq<(nat, JV, nat)>, id: nat) -> Option<(JV, nat)>
    decreases anchors.len(),
{
    if anchors.len() == 0 {
        None
    } else if anchors.last().0 == id {
        Some((anchors.last().1, anchors.last().2))
    } else {
        anchor_lookup(anchors.drop_last(), id)
    }
}

/// A collection's tag must be absent, the non-specific `!`, or the core
/// schema's tag for its kind.
pub open spec fn container_tag_ok(tag: Option<(Seq<char>, Seq<char>)>, want: Seq<char>) -> bool {
    match tag {
        None => true,
        Some((h, s)) => (h == "!"@ && s.len() == 0) || (h == core_handle() && s == want),
    }
}

/// One event's effect on the builder, under `budget`.
pub open spec fn step_within(st: BState, ev: Ev, budget: nat) -> Result<BState, ()> {
    match ev {
        Ev::Scalar(raw, plain, anchor, tag) => match resolve_scalar_spec(raw, plain, tag) {
            Err(_) => Err(()),
            Ok(v) => match charge_within(st, 1, true, budget) {
                None => Err(()),
                Some(s2) => place(s2, v, 1, anchor),
            },
        },
        Ev::SeqStart(anchor, tag) => if container_tag_ok(tag, "seq"@) {
            Ok(BState { stack: st.stack.push(FrameV::Sequence { anchor, items: Seq::empty(), nodes: 0 }), ..st })
        } else {
            Err(())
        },
        Ev::MapStart(anchor, tag) => if container_tag_ok(tag, "map"@) {
            Ok(BState { stack: st.stack.push(FrameV::Mapping { anchor, members: Seq::empty(), key: None, nodes: 0 }), ..st })
        } else {
            Err(())
        },
        Ev::SeqEnd => if st.stack.len() > 0 && st.stack.last() is Sequence {
            let f = st.stack.last();
            let s1 = BState { stack: st.stack.drop_last(), ..st };
            match charge_within(s1, f->Sequence_nodes, false, budget) {
                None => Err(()),
                Some(s2) => place(s2, JV::Arr(f->Sequence_items), f->Sequence_nodes, f->Sequence_anchor),
            }
        } else {
            Err(())
        },
        Ev::MapEnd => if st.stack.len() > 0 && st.stack.last() matches FrameV::Mapping { key: None, .. } {
            let f = st.stack.last();
            let s1 = BState { stack: st.stack.drop_last(), ..st };
            match charge_within(s1, f->Mapping_nodes, false, budget) {
                None => Err(()),
                Some(s2) => place(s2, JV::Obj(f->Mapping_members), f->Mapping_nodes, f->Mapping_anchor),
            }
        } else {
            Err(())
        },
        Ev::Alias(id) => match anchor_lookup(st.anchors, id) {
            None => Err(()),
            Some((v, size)) => match charge_within(st, size, true, budget) {
                None => Err(()),
                Some(s2) => place(s2, v, size, 0),
            },
        },
        Ev::Marker => Ok(st),
        Ev::End => Ok(st),
    }
}

/// One event's effect on the builder, under [`NODE_BUDGET`].
pub open spec fn step(st: BState, ev: Ev) -> Result<BState, ()> {
    step_within(st, ev, NODE_BUDGET as nat)
}

/// The events' effect under `budget`, in order; the first failing event
/// fails the whole.
pub open spec fn run_within(st: BState, evs: Seq<Ev>, budget: nat) -> Result<BState, ()>
    decreases evs.len(),
{
    if evs.len() == 0 {
        Ok(st)
    } else {
        match step_within(st, evs[0], budget) {
            Err(_) => Err(()),
            Ok(s) => run_within(s, evs.drop_first(), budget),
        }
    }
}

/// The events' effect under [`NODE_BUDGET`].
pub open spec fn run(st: BState, evs: Seq<Ev>) -> Result<BState, ()> {
    run_within(st, evs, NODE_BUDGET as nat)
}

/// The message of a file whose expanded tree is over the budget: it names
/// the budget, 1000000 nodes.
pub open spec fn budget_message() -> Seq<char> {
    "expanded tree exceeds the "@ + crate::text::dec_spec(NODE_BUDGET as nat)
        + "-node limit; check for an alias that multiplies its anchor"@
}

/// An event fails on the budget: the value it completes is well formed, but
/// charging it goes over [`NODE_BUDGET`].
pub open spec fn step_over_budget(st: BState, ev: Ev) -> bool {
    match ev {
        Ev::Scalar(raw, plain, anchor, tag) => resolve_scalar_spec(raw, plain, tag) is Ok && charge(st, 1, true) is None,
        Ev::SeqEnd => st.stack.len() > 0 && st.stack.last() is Sequence && charge(
            BState { stack: st.stack.drop_last(), ..st },
            st.stack.last()->Sequence_nodes,
            false,
        ) is None,
        Ev::MapEnd => st.stack.len() > 0 && (st.stack.last() matches FrameV::Mapping { key: None, .. }) && charge(
            BState { stack: st.stack.drop_last(), ..st },
            st.stack.last()->Mapping_nodes,
            false,
        ) is None,
        Ev::Alias(id) => anchor_lookup(st.anchors, id) matches Some((v, size)) && charge(st, size, true) is None,
        _ => false,
    }
}

/// The events stop on the budget: the first event that fails, fails on it.
pub open spec fn run_over_budget(st: BState, evs: Seq<Ev>) -> bool
    decreases evs.len(),
{
    evs.len() > 0 && (step_over_budget(st, evs[0]) || match step(st, evs[0]) {
        Ok(s) => run_over_budget(s, evs.drop_first()),
        Err(_) => false,
    })
}

/// An event that fails on the budget fails.
pub proof fn lemma_over_budget_fails(st: BState, ev: Ev)
    requires
        step_over_budget(st, ev),
    ensures
        step(st, ev) is Err,
{
}

/// The file's value once the stream ends: every collection closed, and
/// exactly one document (none is `null`).
pub open spec fn finish(st: BState) -> Result<JV, ()> {
    if st.stack.len() > 0 {
        Err(())
    } else if st.docs.len() == 0 {
        Ok(JV::Null)
    } else if st.docs.len() == 1 {
        Ok(st.docs[0])
    } else {
        Err(())
    }
}

/// The value a YAML file would denote under `budget`, from its event stream
/// and the scanner's error, if it stopped on one.
pub open spec fn yaml_value_within(evs: Seq<Ev>, scan_error: Option<Seq<char>>, budget: nat) -> Result<JV, ()> {
    match run_within(start_state(), evs, budget) {
        Err(_) => Err(()),
        Ok(st) => if scan_error is Some {
            Err(())
        } else {
            finish(st)
        },
    }
}

/// The value a YAML file denotes: its value under [`NODE_BUDGET`].
pub open spec fn yaml_value(evs: Seq<Ev>, scan_error: Option<Seq<char>>) -> Result<JV, ()> {
    yaml_value_within(evs, scan_error, NODE_BUDGET as nat)
}

} // verus!

verus! {

/// A frame's count matches what it holds.
pub open spec fn frame_ok(f: FrameV) -> bool {
    match f {
        FrameV::Sequence { items, nodes, .. } => nodes == items_cost(items),
        FrameV::Mapping { members, nodes, .. } => nodes == members_cost(members),
    }
}

/// What the open frames have counted, together.
pub open spec fn frames_sum(s: Seq<FrameV>) -> nat
    decreases s.len(),
{
    if s.len() == 0 {
        0
    } else {
        frames_sum(s.drop_last()) + frame_nodes(s.last())
    }
}

/// What the completed documents count, together.
pub open spec fn docs_sum(s: Seq<JV>) -> nat
    decreases s.len(),
{
    if s.len() == 0 {
        0
    } else {
        docs_sum(s.drop_last()) + node_count(s.last())
    }
}

/// The builder's invariant under `budget`: the charge stays within the
/// budget and equals what the open frames and completed documents count;
/// every frame's and every anchor's count is that of what it holds.
pub open spec fn state_ok_within(st: BState, budget: nat) -> bool {
    &&& st.nodes <= budget
    &&& st.nodes == frames_sum(st.stack) + docs_sum(st.docs)
    &&& forall|i: int| 0 <= i < st.stack.len() ==> frame_ok(#[trigger] st.stack[i])
    &&& forall|i: int| 0 <= i < st.anchors.len() ==> (#[trigger] st.anchors[i]).2 == node_count(st.anchors[i].1)
        && st.anchors[i].2 <= budget
}

/// The builder's invariant under [`NODE_BUDGET`].
pub open spec fn state_ok(st: BState) -> bool {
    state_ok_within(st, NODE_BUDGET as nat)
}

proof fn lemma_frames_sum_bound(s: Seq<FrameV>, i: int)
    requires
        0 <= i < s.len(),
    ensures
        frame_nodes(s[i]) <= frames_sum(s),
        frames_sum(s.drop_last()) <= frames_sum(s),
    decreases s.len(),
{
    if i < s.len() - 1 {
        lemma_frames_sum_bound(s.drop_last(), i);
    }
}

proof fn lemma_members_cost_concat(a: Entries, b: Entries)
    ensures
        members_cost(a + b) == members_cost(a) + members_cost(b),
    decreases b.len(),
{
    if b.len() == 0 {
        assert(a + b =~= a);
    } else {
        assert((a + b).drop_last() =~= a + b.drop_last());
        assert((a + b).last() == b.last());
        lemma_members_cost_concat(a, b.drop_last());
    }
}

proof fn lemma_members_cost_insert(es: Entries, p: int, e: (Seq<char>, JV))
    requires
        0 <= p <= es.len(),
    ensures
        members_cost(es.insert(p, e)) == members_cost(es) + 1 + node_count(e.1),
{
    let a = es.take(p);
    let b = es.skip(p);
    assert(es =~= a + b);
    assert(es.insert(p, e) =~= a.push(e) + b);
    lemma_members_cost_concat(a, b);
    lemma_members_cost_concat(a.push(e), b);
    assert(a.push(e).drop_last() =~= a);
}

proof fn lemma_scalar_count(raw: Seq<char>, plain: bool, tag: Option<(Seq<char>, Seq<char>)>)
    requires
        resolve_scalar_spec(raw, plain, tag) is Ok,
    ensures
        node_count(resolve_scalar_spec(raw, plain, tag)->Ok_0) == 1,
{
}

proof fn lemma_anchor_lookup(anchors: Seq<(nat, JV, nat)>, id: nat)
    requires
        anchor_lookup(anchors, id) is Some,
    ensures
        exists|i: int| 0 <= i < anchors.len() && #[trigger] anchors[i] == (id, anchor_lookup(anchors, id)->Some_0.0, anchor_lookup(anchors, id)->Some_0.1),
    decreases anchors.len(),
{
    if anchors.last().0 != id {
        lemma_anchor_lookup(anchors.drop_last(), id);
        let i = choose|i: int| 0 <= i < anchors.drop_last().len() && #[trigger] anchors.drop_last()[i] == (id, anchor_lookup(anchors, id)->Some_0.0, anchor_lookup(anchors, id)->Some_0.1);
        assert(anchors[i] == anchors.drop_last()[i]);
    } else {
        assert(anchors[anchors.len() - 1] == anchors.last());
    }
}

/// Charging and placing a completed value of `size` nodes keeps the
/// invariant; `own` says whether its count is charged now (a scalar or an
/// alias) or was already charged child by child (a collection).
proof fn lemma_charge_place(s1: BState, v: JV, size: nat, anchor: nat, own: bool, budget: nat)
    requires
        s1.nodes <= budget,
        s1.nodes == frames_sum(s1.stack) + docs_sum(s1.docs) + (if own { 0nat } else { size }),
        forall|i: int| 0 <= i < s1.stack.len() ==> frame_ok(#[trigger] s1.stack[i]),
        forall|i: int| 0 <= i < s1.anchors.len() ==> (#[trigger] s1.anchors[i]).2 == node_count(s1.anchors[i].1)
            && s1.anchors[i].2 <= budget,
        size == node_count(v),
        size <= budget,
        !own ==> (v is Arr || v is Obj),
        charge_within(s1, size, own, budget) is Some,
        place(charge_within(s1, size, own, budget)->Some_0, v, size, anchor) is Ok,
    ensures
        state_ok_within(place(charge_within(s1, size, own, budget)->Some_0, v, size, anchor)->Ok_0, budget),
{
    let s2 = charge_within(s1, size, own, budget)->Some_0;
    let s3 = place(s2, v, size, anchor)->Ok_0;
    assert(s3.anchors.len() >= s2.anchors.len());
    assert forall|i: int| 0 <= i < s3.anchors.len() implies (#[trigger] s3.anchors[i]).2 == node_count(s3.anchors[i].1)
        && s3.anchors[i].2 <= budget by {
        if i < s1.anchors.len() {
            assert(s3.anchors[i] == s1.anchors[i]);
        }
    }
    if s2.stack.len() == 0 {
        assert(s3.docs.drop_last() =~= s2.docs);
        assert(docs_sum(s3.docs) == docs_sum(s2.docs) + size);
        assert(s3.nodes == frames_sum(s3.stack) + docs_sum(s3.docs));
    } else {
        let last = s2.stack.len() - 1;
        let f = s2.stack.last();
        let g = push_into(f, v, size)->Ok_0;
        assert(s3.stack.drop_last() =~= s2.stack.drop_last());
        assert(s3.stack.last() == g);
        assert(frame_ok(f)) by {
            assert(f == s1.stack[last]);
        }
        match f {
            FrameV::Sequence { anchor: a, items, nodes } => {
                assert(items.push(v).drop_last() =~= items);
            },
            FrameV::Mapping { anchor: a, members, key, nodes } => {
                match key {
                    None => {},
                    Some(k) => {
                        lemma_obj_pos(members, k);
                        lemma_members_cost_insert(members, obj_pos(members, k), (k, v));
                    },
                }
            },
        }
        assert forall|i: int| 0 <= i < s3.stack.len() implies frame_ok(#[trigger] s3.stack[i]) by {
            if i < last {
                assert(s3.stack[i] == s1.stack[i]);
            }
        }
        assert(frames_sum(s3.stack) == frames_sum(s2.stack.drop_last()) + frame_nodes(g));
        assert(frames_sum(s2.stack) == frames_sum(s2.stack.drop_last()) + frame_nodes(f));
        if in_key_position(s1.stack) {
            assert(frame_nodes(g) == frame_nodes(f));
            assert(s3.nodes == frames_sum(s3.stack) + docs_sum(s3.docs));
        } else {
            assert(frame_nodes(g) == frame_nodes(f) + 1 + size);
            assert(s3.nodes == frames_sum(s3.stack) + docs_sum(s3.docs));
        }
    }
}

/// Every event that succeeds keeps the invariant.
proof fn lemma_step_ok(st: BState, ev: Ev, budget: nat)
    requires
        budget >= 1,
        state_ok_within(st, budget),
        step_within(st, ev, budget) is Ok,
    ensures
        state_ok_within(step_within(st, ev, budget)->Ok_0, budget),
{
    match ev {
        Ev::Scalar(raw, plain, anchor, tag) => {
            lemma_scalar_count(raw, plain, tag);
            let v = resolve_scalar_spec(raw, plain, tag)->Ok_0;
            lemma_charge_place(st, v, 1, anchor, true, budget);
        },
        Ev::SeqStart(anchor, tag) => {
            let s = step_within(st, ev, budget)->Ok_0;
            assert(s.stack.drop_last() =~= st.stack);
            assert forall|i: int| 0 <= i < s.stack.len() implies frame_ok(#[trigger] s.stack[i]) by {
                if i < st.stack.len() {
                    assert(s.stack[i] == st.stack[i]);
                }
            }
        },
        Ev::MapStart(anchor, tag) => {
            let s = step_within(st, ev, budget)->Ok_0;
            assert(s.stack.drop_last() =~= st.stack);
            assert forall|i: int| 0 <= i < s.stack.len() implies frame_ok(#[trigger] s.stack[i]) by {
                if i < st.stack.len() {
                    assert(s.stack[i] == st.stack[i]);
                }
            }
        },
        Ev::SeqEnd => {
            let f = st.stack.last();
            let s1 = BState { stack: st.stack.drop_last(), ..st };
            lemma_frames_sum_bound(st.stack, st.stack.len() - 1);
            assert(frame_ok(st.stack[st.stack.len() - 1]));
            assert forall|i: int| 0 <= i < s1.stack.len() implies frame_ok(#[trigger] s1.stack[i]) by {
                assert(s1.stack[i] == st.stack[i]);
            }
            lemma_charge_place(s1, JV::Arr(f->Sequence_items), f->Sequence_nodes, f->Sequence_anchor, false, budget);
        },
        Ev::MapEnd => {
            let f = st.stack.last();
            let s1 = BState { stack: st.stack.drop_last(), ..st };
            lemma_frames_sum_bound(st.stack, st.stack.len() - 1);
            assert(frame_ok(st.stack[st.stack.len() - 1]));
            assert forall|i: int| 0 <= i < s1.stack.len() implies frame_ok(#[trigger] s1.stack[i]) by {
                assert(s1.stack[i] == st.stack[i]);
            }
            lemma_charge_place(s1, JV::Obj(f->Mapping_members), f->Mapping_nodes, f->Mapping_anchor, false, budget);
        },
        Ev::Alias(id) => {
            lemma_anchor_lookup(st.anchors, id);
            let (v, size) = anchor_lookup(st.anchors, id)->Some_0;
            lemma_charge_place(st, v, size, 0, true, budget);
        },
        Ev::Marker => {},
        Ev::End => {},
    }
}

proof fn lemma_run_ok(st: BState, evs: Seq<Ev>, budget: nat)
    requires
        budget >= 1,
        state_ok_within(st, budget),
        run_within(st, evs, budget) is Ok,
    ensures
        state_ok_within(run_within(st, evs, budget)->Ok_0, budget),
    decreases evs.len(),
{
    if evs.len() > 0 {
        lemma_step_ok(st, evs[0], budget);
        lemma_run_ok(step_within(st, evs[0], budget)->Ok_0, evs.drop_first(), budget);
    }
}

/// Whatever a YAML file loads to fits the node budget: its expanded tree
/// counts at most `NODE_BUDGET` nodes under the counting rule, however its
/// aliases multiply their anchors.
pub proof fn law_yaml_within_budget(evs: Seq<Ev>, scan_error: Option<Seq<char>>)
    requires
        yaml_value(evs, scan_error) is Ok,
    ensures
        node_count(yaml_value(evs, scan_error)->Ok_0) <= NODE_BUDGET,
{
    let st0 = start_state();
    assert(state_ok(st0));
    lemma_run_ok(st0, evs, NODE_BUDGET as nat);
    let st = run(st0, evs)->Ok_0;
    if st.docs.len() == 1 {
        assert(st.docs.drop_last().len() == 0);
    }
}

/// An event never lowers the charge.
proof fn lemma_step_grows(st: BState, ev: Ev, budget: nat)
    requires
        step_within(st, ev, budget) is Ok,
    ensures
        st.nodes <= step_within(st, ev, budget)->Ok_0.nodes,
{
}

proof fn lemma_run_grows(st: BState, evs: Seq<Ev>, budget: nat)
    requires
        run_within(st, evs, budget) is Ok,
    ensures
        st.nodes <= run_within(st, evs, budget)->Ok_0.nodes,
    decreases evs.len(),
{
    if evs.len() > 0 {
        lemma_step_grows(st, evs[0], budget);
        lemma_run_grows(step_within(st, evs[0], budget)->Ok_0, evs.drop_first(), budget);
    }
}

/// An event whose charge ends within a smaller budget has the same effect
/// under it.
proof fn lemma_step_smaller_budget(st: BState, ev: Ev, big: nat, small: nat)
    requires
        small <= big,
        step_within(st, ev, big) is Ok,
        step_within(st, ev, big)->Ok_0.nodes <= small,
    ensures
        step_within(st, ev, small) == step_within(st, ev, big),
{
}

proof fn lemma_run_smaller_budget(st: BState, evs: Seq<Ev>, big: nat, small: nat)
    requires
        small <= big,
        run_within(st, evs, big) is Ok,
        run_within(st, evs, big)->Ok_0.nodes <= small,
    ensures
        run_within(st, evs, small) == run_within(st, evs, big),
    decreases evs.len(),
{
    if evs.len() > 0 {
        let s = step_within(st, evs[0], big)->Ok_0;
        lemma_run_grows(s, evs.drop_first(), big);
        lemma_step_smaller_budget(st, evs[0], big, small);
        lemma_run_smaller_budget(s, evs.drop_first(), big, small);
    }
}

/// The budget rejects only what exceeds it: a file that loads under any
/// larger budget to a tree counting at most `NODE_BUDGET` nodes loads under
/// `NODE_BUDGET` to the same tree, however heavily its aliases are used.
pub proof fn law_yaml_budget_rejects_only_oversize(evs: Seq<Ev>, scan_error: Option<Seq<char>>, budget: nat)
    requires
        budget >= NODE_BUDGET,
        yaml_value_within(evs, scan_error, budget) is Ok,
        node_count(yaml_value_within(evs, scan_error, budget)->Ok_0) <= NODE_BUDGET,
    ensures
        yaml_value(evs, scan_error) == yaml_value_within(evs, scan_error, budget),
{
    let st0 = start_state();
    assert(state_ok_within(st0, budget));
    lemma_run_ok(st0, evs, budget);
    let st = run_within(st0, evs, budget)->Ok_0;
    assert(frames_sum(st.stack) == 0);
    if st.docs.len() == 1 {
        assert(st.docs.drop_last().len() == 0);
        assert(docs_sum(st.docs.drop_last()) == 0);
        assert(st.docs.last() == st.docs[0]);
        assert(docs_sum(st.docs) == node_count(st.docs[0]));
    }
    lemma_run_smaller_budget(st0, evs, budget, NODE_BUDGET as nat);
}

} // verus!

verus! {

/// A collection under construction.
enum Frame {
    Sequence { anchor: usize, items: Vec<Json>, nodes: usize },
    Mapping { anchor: usize, members: Vec<(String, Json)>, key: Option<String>, nodes: usize },
}

/// The view of an optional text.
pub open spec fn opt_text(o: Option<String>) -> Option<Seq<char>> {
    match o {
        Some(s) => Some(s@),
        None => None,
    }
}

spec fn frame_view(f: Frame) -> FrameV {
    match f {
        Frame::Sequence { anchor, items, nodes } => FrameV::Sequence {
            anchor: anchor as nat,
            items: crate::json::jv_seq(items@),
            nodes: nodes as nat,
        },
        Frame::Mapping { anchor, members, key, nodes } => FrameV::Mapping {
            anchor: anchor as nat,
            members: crate::json::jv_entries(members@),
            key: opt_text(key),
            nodes: nodes as nat,
        },
    }
}

struct Builder {
    stack: Vec<Frame>,
    anchors: Vec<(usize, Json, usize)>,
    documents: Vec<Json>,
    nodes: usize,
}

impl Builder {
    spec fn view(&self) -> BState {
        BState {
            stack: self.stack@.map_values(|f: Frame| frame_view(f)),
            anchors: self.anchors@.map_values(|a: (usize, Json, usize)| (a.0 as nat, a.1@, a.2 as nat)),
            docs: self.documents@.map_values(|j: Json| j@),
            nodes: self.nodes as nat,
        }
    }

    fn new() -> (b: Builder)
        ensures
            b.view() == start_state(),
    {
        let b = Builder { stack: Vec::new(), anchors: Vec::new(), documents: Vec::new(), nodes: 0 };
        assert(b.view().stack =~= Seq::<FrameV>::empty());
        assert(b.view().anchors =~= Seq::<(nat, JV, nat)>::empty());
        assert(b.view().docs =~= Seq::<JV>::empty());
        b
    }

    fn in_key_position(&self) -> (r: bool)
        ensures
            r == in_key_position(self.view().stack),
    {
        let n = self.stack.len();
        if n == 0 {
            return false;
        }
        match &self.stack[n - 1] {
            Frame::Mapping { key: None, .. } => true,
            _ => false,
        }
    }

    /// Charges the budget for a completed value of `size` nodes.
    fn charge(&mut self, size: usize, own: bool) -> (r: Result<(), String>)
        requires
            old(self).nodes <= NODE_BUDGET,
            size <= NODE_BUDGET,
        ensures
            charge(old(self).view(), size as nat, own) is None ==> (r is Err && r->Err_0@ == budget_message()),
            charge(old(self).view(), size as nat, own) matches Some(s) ==> r is Ok && final(self).view() == s,
            final(self).anchors@ == old(self).anchors@,
    {
        if self.in_key_position() {
            return Ok(());
        }
        let slot: usize = if self.stack.len() > 0 { 1 } else { 0 };
        let own_size: usize = if own { size } else { 0 };
        let n = self.nodes + slot + own_size;
        if n > NODE_BUDGET {
            return Err(concat3(
                "expanded tree exceeds the ",
                count_text(NODE_BUDGET).as_str(),
                "-node limit; check for an alias that multiplies its anchor",
            ));
        }
        self.nodes = n;
        Ok(())
    }

    /// Places a completed value of `size` nodes.
    fn place(&mut self, v: Json, size: usize, anchor: usize) -> (r: Result<(), String>)
        requires
            size <= NODE_BUDGET,
            old(self).view().stack.len() > 0 ==> frame_nodes(old(self).view().stack.last()) <= NODE_BUDGET,
        ensures
            place(old(self).view(), v@, size as nat, anchor as nat) is Err ==> r is Err,
            place(old(self).view(), v@, size as nat, anchor as nat) matches Ok(s) ==> r is Ok && final(self).view() == s,
    {
        broadcast use crate::json::lemma_jv_seq, crate::json::lemma_jv_entries;
        let ghost st = self.view();
        let ghost vv = v@;
        if anchor != 0 {
            let c = copy_json(&v);
            self.anchors.push((anchor, c, size));
        }
        let ghost anchors = if anchor != 0 { st.anchors.push((anchor as nat, vv, size as nat)) } else { st.anchors };
        assert(self.view().anchors =~= anchors);
        if self.stack.len() == 0 {
            self.documents.push(v);
            assert(self.view().docs =~= st.docs.push(vv));
            return Ok(());
        }
        let f = self.stack.pop().unwrap();
        assert(frame_view(f) == st.stack.last());
        assert(self.view().stack =~= st.stack.drop_last());
        match f {
            Frame::Sequence { anchor: a, mut items, nodes } => {
                let ghost iv = crate::json::jv_seq(items@);
                items.push(v);
                assert(crate::json::jv_seq(items@) =~= iv.push(vv));
                self.stack.push(Frame::Sequence { anchor: a, items, nodes: nodes + 1 + size });
                assert(self.view().stack =~= st.stack.update(st.stack.len() - 1, push_into(st.stack.last(), vv, size as nat)->Ok_0));
                Ok(())
            },
            Frame::Mapping { anchor: a, mut members, key, nodes } => {
                match key {
                    None => {
                        match v {
                            Json::Str(k) => {
                                self.stack.push(Frame::Mapping { anchor: a, members, key: Some(k), nodes });
                                assert(self.view().stack =~= st.stack.update(st.stack.len() - 1, push_into(st.stack.last(), vv, size as nat)->Ok_0));
                                Ok(())
                            },
                            _ => Err(crate::text::owned(
                                "a mapping key is not a string; the entryconf data model has string keys only",
                            )),
                        }
                    },
                    Some(k) => {
                        let ghost before = crate::json::jv_entries(members@);
                        let (p, found) = obj_find(&members, k.as_str());
                        proof {
                            lemma_obj_pos(before, k@);
                        }
                        if found {
                            return Err(concat3("duplicate key \"", k.as_str(), "\""));
                        }
                        members.insert(p, (k, v));
                        assert(crate::json::jv_entries(members@) =~= obj_insert(before, k@, vv));
                        self.stack.push(Frame::Mapping { anchor: a, members, key: None, nodes: nodes + 1 + size });
                        assert(self.view().stack =~= st.stack.update(st.stack.len() - 1, push_into(st.stack.last(), vv, size as nat)->Ok_0));
                        Ok(())
                    },
                }
            },
        }
    }
}

} // verus!

verus! {

impl Builder {
    /// Where the value most recently anchored under `id` is held.
    fn find_anchor(&self, id: usize) -> (r: Option<usize>)
        ensures
            r matches Some(i) ==> i < self.anchors.len() && anchor_lookup(self.view().anchors, id as nat)
                == Some((self.anchors@[i as int].1@, self.anchors@[i as int].2 as nat)),
            r is None ==> anchor_lookup(self.view().anchors, id as nat) is None,
    {
        let ghost av = self.view().anchors;
        let mut i = self.anchors.len();
        assert(av.take(i as int) =~= av);
        while i > 0
            invariant
                i <= self.anchors.len(),
                av == self.view().anchors,
                av.len() == self.anchors.len(),
                anchor_lookup(av, id as nat) == anchor_lookup(av.take(i as int), id as nat),
            decreases i,
        {
            let ghost t = av.take(i as int);
            assert(t.last() == av[i - 1]);
            assert(t.drop_last() =~= av.take(i - 1));
            if self.anchors[i - 1].0 == id {
                return Some(i - 1);
            }
            i = i - 1;
        }
        None
    }

    /// One event's effect.
    fn handle(&mut self, ev: &YamlEvent) -> (r: Result<(), String>)
        requires
            state_ok(old(self).view()),
        ensures
            step(old(self).view(), ev@) is Err ==> r is Err,
            step(old(self).view(), ev@) matches Ok(s) ==> r is Ok && final(self).view() == s && state_ok(s),
            step_over_budget(old(self).view(), ev@) ==> (r is Err && r->Err_0@ == budget_message()),
    {
        let ghost st = self.view();
        proof {
            if step(st, ev@) is Ok {
                lemma_step_ok(st, ev@, NODE_BUDGET as nat);
            }
            if st.stack.len() > 0 {
                lemma_frames_sum_bound(st.stack, st.stack.len() - 1);
            }
        }
        match ev {
            YamlEvent::Scalar { value, style, anchor, tag } => {
                let plain = match style {
                    YamlStyle::Plain => true,
                    _ => false,
                };
                let v = match resolve_scalar(value.as_str(), plain, tag) {
                    Ok(v) => v,
                    Err(e) => {
                        return Err(e);
                    },
                };
                match self.charge(1, true) {
                    Ok(()) => {},
                    Err(e) => {
                        return Err(e);
                    },
                }
                self.place(v, 1, *anchor)
            },
            YamlEvent::SequenceStart { anchor, tag } => {
                if !container_tag(tag, "seq") {
                    return Err(unsupported_tag(tag));
                }
                self.stack.push(Frame::Sequence { anchor: *anchor, items: Vec::new(), nodes: 0 });
                assert(crate::json::jv_seq(Seq::<Json>::empty()) =~= Seq::<JV>::empty());
                assert(self.view().stack =~= st.stack.push(FrameV::Sequence { anchor: *anchor as nat, items: Seq::empty(), nodes: 0 }));
                Ok(())
            },
            YamlEvent::MappingStart { anchor, tag } => {
                if !container_tag(tag, "map") {
                    return Err(unsupported_tag(tag));
                }
                self.stack.push(Frame::Mapping { anchor: *anchor, members: Vec::new(), key: None, nodes: 0 });
                assert(crate::json::jv_entries(Seq::<(String, Json)>::empty()) =~= Seq::<(Seq<char>, JV)>::empty());
                assert(self.view().stack =~= st.stack.push(FrameV::Mapping { anchor: *anchor as nat, members: Seq::empty(), key: None, nodes: 0 }));
                Ok(())
            },
            YamlEvent::SequenceEnd => {
                let n = self.stack.len();
                if n == 0 {
                    return Err(crate::text::owned("unbalanced sequence end"));
                }
                match self.stack.pop().unwrap() {
                    Frame::Sequence { anchor, items, nodes } => {
                        assert(self.view().stack =~= st.stack.drop_last());
                        proof {
                            if self.view().stack.len() > 0 {
                                lemma_frames_sum_bound(st.stack, self.view().stack.len() - 1);
                                assert(self.view().stack.last() == st.stack[self.view().stack.len() - 1]);
                            }
                        }
                        match self.charge(nodes, false) {
                            Ok(()) => {},
                            Err(e) => {
                                return Err(e);
                            },
                        }
                        self.place(Json::Array(items), nodes, anchor)
                    },
                    _ => Err(crate::text::owned("unbalanced sequence end")),
                }
            },
            YamlEvent::MappingEnd => {
                let n = self.stack.len();
                if n == 0 {
                    return Err(crate::text::owned("unbalanced mapping end"));
                }
                match self.stack.pop().unwrap() {
                    Frame::Mapping { anchor, members, key: None, nodes } => {
                        assert(self.view().stack =~= st.stack.drop_last());
                        proof {
                            if self.view().stack.len() > 0 {
                                lemma_frames_sum_bound(st.stack, self.view().stack.len() - 1);
                                assert(self.view().stack.last() == st.stack[self.view().stack.len() - 1]);
                            }
                        }
                        match self.charge(nodes, false) {
                            Ok(()) => {},
                            Err(e) => {
                                return Err(e);
                            },
                        }
                        self.place(Json::Object(members), nodes, anchor)
                    },
                    Frame::Mapping { .. } => Err(crate::text::owned("mapping ended with a key but no value")),
                    _ => Err(crate::text::owned("unbalanced mapping end")),
                }
            },
            YamlEvent::Alias(id) => {
                let i = match self.find_anchor(*id) {
                    Some(i) => i,
                    None => {
                        return Err(concat2("alias to unknown or recursive anchor ", count_text(*id).as_str()));
                    },
                };
                let size = self.anchors[i].2;
                proof {
                    lemma_anchor_lookup(st.anchors, *id as nat);
                }
                match self.charge(size, true) {
                    Ok(()) => {},
                    Err(e) => {
                        return Err(e);
                    },
                }
                let v = copy_json(&self.anchors[i].1);
                self.place(v, size, 0)
            },
            _ => Ok(()),
        }
    }

    /// The file's value once the stream ends.
    fn finish(self) -> (r: Result<Json, String>)
        ensures
            finish(self.view()) is Err ==> r is Err,
            finish(self.view()) matches Ok(v) ==> r matches Ok(j) && j@ == v,
    {
        let mut documents = self.documents;
        if self.stack.len() > 0 {
            return Err(crate::text::owned("unterminated collection"));
        }
        let n = documents.len();
        if n == 0 {
            Ok(Json::Null)
        } else if n == 1 {
            Ok(documents.pop().unwrap())
        } else {
            Err(concat2(count_text(n).as_str(), " documents in one file; entryconf files hold exactly one"))
        }
    }
}

/// Whether a collection's tag is absent, `!`, or the core tag `want`.
fn container_tag(tag: &Option<(String, String)>, want: &str) -> (r: bool)
    ensures
        r == container_tag_ok(tag_view(*tag), want@),
{
    proof {
        reveal_strlit("");
    }
    match tag {
        None => true,
        Some((h, s)) => {
            proof {
                if s@.len() == 0 {
                    assert(s@ =~= ""@);
                }
            }
            (same_text(h.as_str(), "!") && same_text(s.as_str(), "")) || (same_text(h.as_str(), "tag:yaml.org,2002:")
                && same_text(s.as_str(), want))
        },
    }
}

fn unsupported_tag(tag: &Option<(String, String)>) -> (r: String)
    ensures
        r@ == match tag_view(*tag) {
            Some((h, s)) => "unsupported tag `"@ + (h + s) + "`"@,
            None => "unsupported tag"@,
        },
{
    match tag {
        Some((h, s)) => concat3("unsupported tag `", concat2(h.as_str(), s.as_str()).as_str(), "`"),
        None => crate::text::owned("unsupported tag"),
    }
}

/// Folds a YAML event stream into the file's value, given the
/// events the scanner produced and the error it stopped on, if any. Every
/// failure is a parse failure, described by the message.
pub fn build_yaml(events: &Vec<YamlEvent>, scan_error: Option<String>) -> (r: Result<Json, String>)
    ensures
        r is Ok <==> yaml_value(ev_views(events@), opt_text(scan_error)) is Ok,
        r matches Ok(v) ==> yaml_value(ev_views(events@), opt_text(scan_error)) == Ok::<JV, ()>(v@),
        run_over_budget(start_state(), ev_views(events@)) ==> (r is Err && r->Err_0@ == budget_message()),
{
    let ghost evs = ev_views(events@);
    let mut b = Builder::new();
    let mut i: usize = 0;
    assert(evs.skip(0) =~= evs);
    while i < events.len()
        invariant
            i <= events.len(),
            evs == ev_views(events@),
            evs.len() == events.len(),
            state_ok(b.view()),
            run(start_state(), evs) == run(b.view(), evs.skip(i as int)),
            run_over_budget(start_state(), evs) == run_over_budget(b.view(), evs.skip(i as int)),
        decreases events.len() - i,
    {
        assert(evs.skip(i as int)[0] == events@[i as int]@);
        assert(evs.skip(i as int).drop_first() =~= evs.skip(i + 1));
        match b.handle(&events[i]) {
            Ok(()) => {},
            Err(e) => {
                return Err(e);
            },
        }
        i = i + 1;
    }
    assert(evs.skip(i as int) =~= Seq::<Ev>::empty());
    match scan_error {
        Some(e) => Err(e),
        None => b.finish(),
    }
}

} // verus!

verus! {

#[verifier::external_type_specification]
#[verifier::external_body]
pub struct ExYamlParserEvent<'input>(Event<'input>);

/// A saphyr-parser `Parser` over a text: a queue of what it will still
/// report.
#[verifier::external_body]
pub struct YamlParser<'input> {
    parser: Parser<'input, StrInput<'input>>,
}

#[verifier::external_type_specification]
#[verifier::external_body]
pub struct ExYamlScalarStyle(ScalarStyle);

#[verifier::external_type_specification]
#[verifier::external_body]
pub struct ExYamlTag(Tag);

/// What a parser will still report, in order, up to and including the end
/// of the stream or the first scanning error: each event by its view, or the
/// scanner's message for the error. (After an error the parser reports the
/// same error again on every call; those repeats are not part of this.)
pub uninterp spec fn parser_reports(p: YamlParser<'_>) -> Seq<Result<Ev, Seq<char>>>;

/// What a parser made for a text reports, from the start.
pub uninterp spec fn yaml_reports(text: Seq<char>) -> Seq<Result<Ev, Seq<char>>>;

/// Whether a list of reports ends the stream: its last report is the end
/// of the stream or an error.
pub open spec fn ends_stream(rs: Seq<Result<Ev, Seq<char>>>) -> bool {
    rs.len() > 0 && match rs.last() {
        Ok(Ev::End) => true,
        Ok(_) => false,
        Err(_) => true,
    }
}

/// Runs saphyr-parser's `Parser::new_from_str`. The contract claims that
/// what the new parser will report is a function of the text alone, named
/// [`yaml_reports`], and that it ends with the end of the stream or an
/// error; which events they are is saphyr-parser's YAML 1.2 grammar and not
/// stated.
#[verifier::external_body]
fn yaml_parser(text: &str) -> (p: YamlParser<'_>)
    ensures
        parser_reports(p) == yaml_reports(text@),
        ends_stream(parser_reports(p)),
{
    YamlParser { parser: Parser::new_from_str(text) }
}

/// Converts one saphyr-parser event into a [`YamlEvent`], variant by
/// variant and field by field, for [`next_yaml_event`].
#[verifier::external_body]
fn yaml_event(event: Event<'_>) -> YamlEvent {
    match event {
        Event::Nothing => YamlEvent::Nothing,
        Event::StreamStart => YamlEvent::StreamStart,
        Event::StreamEnd => YamlEvent::StreamEnd,
        Event::DocumentStart(explicit) => YamlEvent::DocumentStart(explicit),
        Event::DocumentEnd => YamlEvent::DocumentEnd,
        Event::Alias(id) => YamlEvent::Alias(id),
        Event::Scalar(v, style, anchor, t) => YamlEvent::Scalar { value: v.into_owned(), style: yaml_style(style), anchor, tag: yaml_tag(t) },
        Event::SequenceStart(anchor, t) => YamlEvent::SequenceStart { anchor, tag: yaml_tag(t) },
        Event::SequenceEnd => YamlEvent::SequenceEnd,
        Event::MappingStart(anchor, t) => YamlEvent::MappingStart { anchor, tag: yaml_tag(t) },
        Event::MappingEnd => YamlEvent::MappingEnd,
    }
}

/// Converts a saphyr-parser tag into its handle and suffix, for
/// [`yaml_event`].
#[verifier::external_body]
fn yaml_tag(tag: Option<Cow<'_, Tag>>) -> Option<(String, String)> {
    tag.map(|t| (t.handle.clone(), t.suffix.clone()))
}

/// Converts saphyr-parser's scalar style, variant by variant, for
/// [`yaml_event`].
#[verifier::external_body]
fn yaml_style(style: ScalarStyle) -> YamlStyle {
    match style {
        ScalarStyle::Plain => YamlStyle::Plain,
        ScalarStyle::SingleQuoted => YamlStyle::SingleQuoted,
        ScalarStyle::DoubleQuoted => YamlStyle::DoubleQuoted,
        ScalarStyle::Literal => YamlStyle::Literal,
        ScalarStyle::Folded => YamlStyle::Folded,
    }
}

/// The view of one report: an event or a message.
pub open spec fn report_view(x: Result<YamlEvent, String>) -> Result<Ev, Seq<char>> {
    match x {
        Ok(e) => Ok(e@),
        Err(m) => Err(m@),
    }
}

/// Runs saphyr-parser's `Parser::next_event`. The contract claims that,
/// while reports are left, it hands out the next one (the event, converted,
/// or the scanner's message) and drops it; that `None` comes only once
/// nothing is left; and nothing of what it returns after that.
#[verifier::external_body]
fn next_yaml_event(p: &mut YamlParser<'_>) -> (r: Option<Result<YamlEvent, String>>)
    ensures
        r is None ==> parser_reports(*old(p)).len() == 0,
        parser_reports(*old(p)).len() > 0 ==> r is Some,
        parser_reports(*old(p)).len() > 0 ==> parser_reports(*final(p)) == parser_reports(*old(p)).drop_first(),
        parser_reports(*old(p)).len() > 0 ==> parser_reports(*old(p))[0] == report_view(r.unwrap()),
{
    match p.parser.next_event() {
        None => None,
        Some(Ok((event, _))) => Some(Ok(yaml_event(event))),
        Some(Err(e)) => Some(Err(e.to_string())),
    }
}

/// The events of a stream of reports up to its end, and the scanner's
/// message when an error comes first.
pub open spec fn scan_reports(rs: Seq<Result<Ev, Seq<char>>>) -> (Seq<Ev>, Option<Seq<char>>)
    decreases rs.len(),
{
    if rs.len() == 0 {
        (Seq::empty(), None)
    } else {
        match rs[0] {
            Err(m) => (Seq::empty(), Some(m)),
            Ok(Ev::End) => (Seq::empty(), None),
            Ok(e) => {
                let rest = scan_reports(rs.drop_first());
                (seq![e] + rest.0, rest.1)
            },
        }
    }
}

/// The event stream saphyr-parser reports for a text, up to the end of the
/// stream, with the scanner's message when it stops on an error instead.
pub open spec fn yaml_scan(text: Seq<char>) -> (Seq<Ev>, Option<Seq<char>>) {
    scan_reports(yaml_reports(text))
}

/// Collects the events of `text` until the end of the stream or the first
/// scanning error.
fn scan_yaml(text: &str) -> (r: (Vec<YamlEvent>, Option<String>))
    ensures
        (ev_views(r.0@), opt_text(r.1)) == yaml_scan(text@),
{
    let mut p = yaml_parser(text);
    let mut events: Vec<YamlEvent> = Vec::new();
    let ghost all = yaml_reports(text@);
    loop
        invariant
            all == yaml_reports(text@),
            ends_stream(parser_reports(p)),
            scan_reports(all) == ({
                let rest = scan_reports(parser_reports(p));
                (ev_views(events@) + rest.0, rest.1)
            }),
        decreases parser_reports(p).len(),
    {
        let ghost before = parser_reports(p);
        let ghost seen = ev_views(events@);
        match next_yaml_event(&mut p) {
            None => {
                assert(ev_views(events@) + Seq::<Ev>::empty() =~= ev_views(events@));
                return (events, None);
            },
            Some(Err(m)) => {
                assert(ev_views(events@) + Seq::<Ev>::empty() =~= ev_views(events@));
                return (events, Some(m));
            },
            Some(Ok(e)) => {
                match e {
                    YamlEvent::StreamEnd => {
                        assert(ev_views(events@) + Seq::<Ev>::empty() =~= ev_views(events@));
                        return (events, None);
                    },
                    _ => {},
                }
                let ghost ev = e@;
                assert(before.len() > 1) by {
                    if before.len() == 1 {
                        assert(before.last() == before[0]);
                    }
                }
                assert(parser_reports(p).last() == before.last());
                events.push(e);
                assert(ev_views(events@) =~= seen.push(ev));
                assert(seen + (seq![ev] + scan_reports(parser_reports(p)).0) =~= seen.push(ev) + scan_reports(parser_reports(p)).0);
            },
        }
    }
}

/// Parses a YAML 1.2 document under the core schema: the value
/// its event stream folds to, or a message saying why it has none.
pub fn parse_yaml(text: &str) -> (r: Result<Json, String>)
    ensures
        r is Ok <==> yaml_value(yaml_scan(text@).0, yaml_scan(text@).1) is Ok,
        r matches Ok(v) ==> yaml_value(yaml_scan(text@).0, yaml_scan(text@).1) == Ok::<JV, ()>(v@),
        run_over_budget(start_state(), yaml_scan(text@).0) ==> (r is Err && r->Err_0@ == budget_message()),
{
    let (events, error) = scan_yaml(text);
    build_yaml(&events, error)
}

} // verus!
