//! The per-target reconciler: `Read → Plan → Apply → Commit`.
//!
//! The library holds the steps that decide: the plan, its application to
//! the live data, the markers it records, the drift it observes, what gets
//! written, and the reconciler's phase. Reading and writing the files, the
//! lock and the clock are the caller's.
use vstd::prelude::*;

use crate::declared::{declared_refusal, nearest_mode, parse_declared, Declared, DeclaredView};
use crate::drift::{
    empty_object, merge_apply, no_null_members, observed_drift, DriftEntry, DriftPatch,
};
use crate::error::{error_message, Error};
use crate::json::{Json, JsonValue};
use crate::live::{
    format_called_for, format_reading, format_rendering, live_rendering, Live, LiveFormat, LiveView,
};
use crate::plan::{is_plan_for, leaves, ActionView, Action, Plan};
use crate::pointer::{assign, lookup, object_path, token_prefix};
use crate::snapshot::{
    once_markers, parse_snapshot, snapshot_json, snapshot_refusal, Marker, Snapshot, SnapshotView,
};
use crate::syntax::{json_reading, json_rendering};
use crate::types::{FileId, Mode};

verus! {

broadcast use {vstd::seq::group_seq_axioms, vstd::std_specs::vec::group_vec_axioms};

#[verifier::external_type_specification]
#[verifier::external_body]
pub struct ExPathBuf(std::path::PathBuf);

/// `PathBuf`'s `clone`. A path is opaque here, so nothing is stated of the
/// copy.
pub assume_specification[ <std::path::PathBuf as Clone>::clone ](path: &std::path::PathBuf) -> std::path::PathBuf;

/// The value an action writes, if it writes one.
pub open spec fn written_value(action: ActionView) -> Option<JsonValue> {
    match action {
        ActionView::WriteOnce(v) => Some(v),
        ActionView::Ensure(v) => Some(v),
        ActionView::Always(v) => Some(v),
        ActionView::LeaveAlone => None,
    }
}

/// The document after carrying out the plan's writes in order; `None`
/// where a write runs through a value that is not an object.
pub open spec fn apply_plan(doc: JsonValue, plan: Seq<(Seq<Seq<char>>, ActionView)>) -> Option<
    JsonValue,
>
    decreases plan.len(),
{
    if plan.len() == 0 {
        Some(doc)
    } else {
        match apply_plan(doc, plan.drop_last()) {
            Some(d) => match written_value(plan.last().1) {
                Some(v) => assign(d, plan.last().0, v),
                None => Some(d),
            },
            None => None,
        }
    }
}

/// The markers after the plan: each `WriteOnce` records when and what.
pub open spec fn markers_after(
    markers: Map<Seq<Seq<char>>, (Seq<char>, JsonValue)>,
    plan: Seq<(Seq<Seq<char>>, ActionView)>,
    now: Seq<char>,
) -> Map<Seq<Seq<char>>, (Seq<char>, JsonValue)>
    decreases plan.len(),
{
    if plan.len() == 0 {
        markers
    } else {
        let before = markers_after(markers, plan.drop_last(), now);
        match plan.last().1 {
            ActionView::WriteOnce(v) => before.insert(plan.last().0, (now, v)),
            _ => before,
        }
    }
}

/// The live data the plan is applied to: the live root if it is an
/// object, an empty object otherwise.
pub open spec fn live_base(live: JsonValue) -> JsonValue {
    if live is Object {
        live
    } else {
        empty_object()
    }
}

/// The result of the plan and apply steps.
#[derive(Debug)]
pub struct Outcome {
    pub plan: Plan,
    pub live: Json,
    pub snapshot: Snapshot,
    pub drift: DriftPatch,
}

/// What the commit step writes.
#[derive(Debug)]
pub struct Commit {
    pub write_live: bool,
    pub write_snapshot: bool,
    pub write_drift: bool,
}

/// Whether `r` is the outcome of planning `declared` against `snapshot` and
/// applying the plan to `live` at time `now`: on success the plan, the new
/// live data (the plan's writes carried out in order), the snapshot without
/// the markers of keys whose mode is no longer `once`, with a marker for
/// each first write of a `once` key, and with the new data as its image,
/// and the drift since the last image; a failure exactly when some
/// write of the plan runs through a value that is not an object.
pub open spec fn reconciled(
    declared: DeclaredView,
    live: JsonValue,
    snapshot: SnapshotView,
    now: Seq<char>,
    r: Result<Outcome, Error>,
) -> bool {
    match r {
        Ok(o) => {
            &&& is_plan_for(o.plan@, declared.data, declared.modes, snapshot.markers.dom())
            &&& apply_plan(live_base(live), o.plan@) == Some(o.live@)
            &&& o.snapshot@ == SnapshotView {
                markers: markers_after(once_markers(snapshot.markers, declared.modes), o.plan@, now),
                image: o.live@,
                source_path: snapshot.source_path,
            }
            &&& o.drift@ == observed_drift(snapshot.image, live)
        },
        Err(e) => {
            &&& exists|plan: Seq<(Seq<Seq<char>>, ActionView)>|
                is_plan_for(plan, declared.data, declared.modes, snapshot.markers.dom())
                    && apply_plan(live_base(live), plan) is None
            &&& e is PointerThroughNonObject
        },
    }
}

pub struct Reconciler;

/// What a reconciler reads before it plans: each file's path and, where
/// the file exists, its text.
pub struct Reading {
    pub declared_path: String,
    pub declared_text: String,
    pub live_path: String,
    pub live_text: Option<String>,
    pub snapshot_path: String,
    pub snapshot_text: Option<String>,
}

/// What the commit step writes: the new text of the live file and of the
/// snapshot, and the drift report to add to the journal; `None` where it
/// writes nothing.
#[derive(Debug)]
pub struct Writing {
    pub live_text: Option<String>,
    pub snapshot_text: Option<String>,
    pub drift: Option<DriftEntry>,
}

/// The declared overlay a reading holds, if its text reads as one.
pub open spec fn declared_read(reading: Reading) -> Option<DeclaredView> {
    match json_reading(reading.declared_text@) {
        Ok(v) => parse_declared(v),
        Err(_) => None,
    }
}

/// The live data a reading holds, its file read in `format`: an empty
/// object where there is no file yet, else what its text reads as.
pub open spec fn live_read(reading: Reading, format: LiveFormat) -> Option<JsonValue> {
    match reading.live_text {
        None => Some(empty_object()),
        Some(t) => match format_reading(format, t@) {
            Ok(v) => Some(v),
            Err(_) => None,
        },
    }
}

/// The snapshot a reading holds: an empty one where there is no file yet,
/// else what its text reads as.
pub open spec fn snapshot_read(reading: Reading) -> Option<SnapshotView> {
    match reading.snapshot_text {
        None => Some(
            SnapshotView {
                markers: Map::empty(),
                image: JsonValue::Null,
                source_path: reading.snapshot_path@,
            },
        ),
        Some(t) => match json_reading(t@) {
            Ok(v) => parse_snapshot(v, reading.snapshot_path@),
            Err(_) => None,
        },
    }
}

/// Whether `t` is the snapshot file's text for `s`.
pub open spec fn snapshot_rendering(s: SnapshotView, t: Seq<char>) -> bool {
    json_rendering(snapshot_json(s)) matches Ok(text) && t == text + "\n"@
}

/// Whether `w` is what the commit step writes after the outcome `o`, for a
/// live file in `format`, at time `now`: nothing on a dry run; otherwise the
/// live file's and the snapshot's new text, and a drift report exactly
/// when there is drift.
pub open spec fn written(
    reading: Reading,
    format: LiveFormat,
    o: Outcome,
    now: Seq<char>,
    dry_run: bool,
    w: Writing,
) -> bool {
    if dry_run {
        &&& w.live_text is None
        &&& w.snapshot_text is None
        &&& w.drift is None
    } else {
        &&& w.live_text matches Some(t) && live_rendering(
            format,
            o.live@,
            reading.live_path@,
            Ok::<String, Error>(t),
        )
        &&& w.snapshot_text matches Some(t) && snapshot_rendering(o.snapshot@, t@)
        &&& w.drift is Some == (o.drift@ != empty_object())
        &&& w.drift matches Some(entry) ==> entry@ == (now, o.drift@)
    }
}

/// Whether `o` is an outcome of planning and applying `reading`, with its
/// live file read in `format`, at time `now`.
pub open spec fn applied(reading: Reading, format: LiveFormat, now: Seq<char>, o: Outcome) -> bool {
    &&& format_called_for(reading.live_path@, format)
    &&& declared_read(reading) is Some
    &&& live_read(reading, format) is Some
    &&& snapshot_read(reading) is Some
    &&& reconciled(
        declared_read(reading)->Some_0,
        live_read(reading, format)->Some_0,
        snapshot_read(reading)->Some_0,
        now,
        Ok(o),
    )
}

/// `e` is the error reading the declared overlay gives.
pub open spec fn declared_refused(reading: Reading, e: Error) -> bool {
    declared_read(reading) is None && match e {
        Error::DeclaredParse { source_path, reason } => source_path@ == reading.declared_path@
            && match json_reading(reading.declared_text@) {
            Err(m) => reason@ == m,
            Ok(v) => declared_refusal(v) matches Some(m) ==> reason@ == m,
        },
        _ => false,
    }
}

/// `e` is the error reading the live file in `format` gives.
pub open spec fn live_refused(reading: Reading, format: LiveFormat, e: Error) -> bool {
    format_called_for(reading.live_path@, format) && match reading.live_text {
        Some(t) => match format_reading(format, t@) {
            Err(m) => match e {
                Error::LiveParse { source_path, reason } => source_path@ == reading.live_path@
                    && reason@ == m,
                _ => false,
            },
            Ok(_) => false,
        },
        None => false,
    }
}

/// `e` is the error reading the snapshot gives.
pub open spec fn snapshot_refused(reading: Reading, e: Error) -> bool {
    snapshot_read(reading) is None && match e {
        Error::SnapshotParse { source_path, reason } => source_path@ == reading.snapshot_path@
            && match reading.snapshot_text {
            Some(t) => match json_reading(t@) {
                Err(m) => reason@ == m,
                Ok(v) => reason@ == snapshot_refusal(v),
            },
            None => true,
        },
        _ => false,
    }
}

/// `e` is the error of a plan whose writes run through a value that is not
/// an object, the live file read in `format`.
pub open spec fn plan_refused(reading: Reading, format: LiveFormat, e: Error) -> bool {
    &&& e is PointerThroughNonObject
    &&& declared_read(reading) is Some
    &&& live_read(reading, format) is Some
    &&& snapshot_read(reading) is Some
    &&& exists|plan: Seq<(Seq<Seq<char>>, ActionView)>|
        is_plan_for(
            plan,
            declared_read(reading)->Some_0.data,
            declared_read(reading)->Some_0.modes,
            snapshot_read(reading)->Some_0.markers.dom(),
        ) && apply_plan(live_base(live_read(reading, format)->Some_0), plan) is None
}

/// `e` is the error rendering the snapshot `s` for the file at `path` gives.
pub open spec fn snapshot_render_refused(s: SnapshotView, path: Seq<char>, e: Error) -> bool {
    match json_rendering(snapshot_json(s)) {
        Err(m) => match e {
            Error::SnapshotWrite { destination_path, reason } => destination_path@ == path && reason@
                == "serialize: "@ + m,
            _ => false,
        },
        Ok(_) => false,
    }
}

/// Whether `e` is why `reading` cannot be reconciled: the first step that
/// fails, in order — the declared overlay, the live file, the snapshot,
/// the plan's writes, then (unless on a dry run) rendering the live file
/// and the snapshot.
pub open spec fn refused(reading: Reading, now: Seq<char>, dry_run: bool, e: Error) -> bool {
    ||| declared_refused(reading, e)
    ||| declared_read(reading) is Some && exists|format: LiveFormat|
        #![trigger live_read(reading, format)]
        live_read(reading, format) is None && live_refused(reading, format, e)
    ||| declared_read(reading) is Some && exists|format: LiveFormat|
        #![trigger live_read(reading, format)]
        format_called_for(reading.live_path@, format) && live_read(reading, format) is Some
            && snapshot_refused(reading, e)
    ||| exists|format: LiveFormat|
        #![trigger live_read(reading, format)]
        format_called_for(reading.live_path@, format) && plan_refused(reading, format, e)
    ||| !dry_run && exists|format: LiveFormat, o: Outcome|
        #![trigger applied(reading, format, now, o)]
        applied(reading, format, now, o) && live_rendering(
            format,
            o.live@,
            reading.live_path@,
            Err::<String, Error>(e),
        )
    ||| !dry_run && exists|format: LiveFormat, o: Outcome|
        #![trigger applied(reading, format, now, o)]
        applied(reading, format, now, o) && format_rendering(format, o.live@) is Ok
            && snapshot_render_refused(o.snapshot@, reading.snapshot_path@, e)
}


/// Where one target's files live.
#[derive(Clone, Debug)]
pub struct Arguments {
    pub file_id: FileId,
    pub declared_path: std::path::PathBuf,
    pub live_path: std::path::PathBuf,
    pub snapshot_dir: std::path::PathBuf,
    pub drift_dir: std::path::PathBuf,
    pub dry_run: bool,
}

impl Reconciler {
    /// Plan and apply: build the plan for `declared` against `snapshot`,
    /// write the planned values into the live data, record a marker for
    /// each first write of a `once` key, observe the drift since the last
    /// image, and take the new live data as the image.
    pub fn reconcile(declared: &Declared, live: &Json, snapshot: Snapshot, now: &str) -> (r: Result<
        Outcome,
        Error,
    >)
        ensures
            reconciled(declared@, live@, snapshot@, now@, r),
            r matches Ok(o) ==> forall|i: int|
                0 <= i < o.plan@.len() && #[trigger] o.plan@[i].1 is WriteOnce
                    ==> o.snapshot@.markers.contains_key(o.plan@[i].0)
                    && o.snapshot@.markers[o.plan@[i].0] == (now@, o.plan@[i].1->WriteOnce_0),
            r matches Ok(o) ==> (!(snapshot@.image is Null) && no_null_members(live@)
                ==> merge_apply(snapshot@.image, o.drift@) == live@),
    {
        let plan = Plan::build(declared, &snapshot);
        let ghost s0 = snapshot@;
        let mut working = snapshot;
        working.keep_once_markers(declared);
        let ghost markers0 = working@.markers;
        let mut new_live = if live.is_object() {
            live.deep_copy()
        } else {
            Json::empty_object()
        };
        let ghost base = live_base(live@);
        let actions = plan.actions();
        let ghost steps = plan@;
        let mut i: usize = 0;
        proof {
            assert(steps.subrange(0, 0) =~= Seq::<(Seq<Seq<char>>, ActionView)>::empty());
        }
        while i < actions.len()
            invariant
                i <= actions.len(),
                steps == plan@,
                steps == crate::plan::action_views(actions@),
                is_plan_for(steps, declared@.data, declared@.modes, s0.markers.dom()),
                base == live_base(live@),
                apply_plan(base, steps.subrange(0, i as int)) == Some(new_live@),
                working@.markers == markers_after(markers0, steps.subrange(0, i as int), now@),
                working@.image == s0.image,
                snapshot@ == s0,
                working@.source_path == s0.source_path,
                markers0 == once_markers(s0.markers, declared@.modes),
            decreases actions.len() - i,
        {
            let ghost prefix = steps.subrange(0, i as int);
            let ghost next = steps.subrange(0, i + 1);
            proof {
                assert(next.drop_last() =~= prefix);
                assert(next.last() == actions@[i as int]@);
            }
            match &actions[i] {
                Action::WriteOnce { pointer, value } => {
                    let ghost d = new_live@;
                    match pointer.set_in(&mut new_live, value.deep_copy()) {
                        Ok(()) => {},
                        Err(e) => {
                            proof {
                                assert(next.last() == (pointer@, ActionView::WriteOnce(value@)));
                                assert(assign(d, pointer@, value@) is None);
                                assert(apply_plan(base, next) is None);
                                lemma_apply_plan_stuck(base, steps, i + 1);
                                assert(e is PointerThroughNonObject);
                            }
                            return Err(e);
                        },
                    }
                    working.set_marker(pointer.duplicate(), Marker::new(now.to_owned(), value.deep_copy()));
                },
                Action::Ensure { pointer, value } => {
                    match pointer.set_in(&mut new_live, value.deep_copy()) {
                        Ok(()) => {},
                        Err(e) => {
                            proof {
                                lemma_apply_plan_stuck(base, steps, i + 1);
                            }
                            return Err(e);
                        },
                    }
                },
                Action::Always { pointer, value } => {
                    match pointer.set_in(&mut new_live, value.deep_copy()) {
                        Ok(()) => {},
                        Err(e) => {
                            proof {
                                lemma_apply_plan_stuck(base, steps, i + 1);
                            }
                            return Err(e);
                        },
                    }
                },
                Action::LeaveAlone { .. } => {},
            }
            i = i + 1;
        }
        proof {
            assert(steps.subrange(0, steps.len() as int) =~= steps);
        }
        let drift = if working.image().is_null() {
            DriftPatch::empty()
        } else {
            DriftPatch::between(working.image(), live)
        };
        working.set_image(new_live.deep_copy());
        proof {
            assert forall|i: int|
                0 <= i < steps.len() && #[trigger] steps[i].1 is WriteOnce implies working@.markers.contains_key(
                steps[i].0,
            ) && working@.markers[steps[i].0] == (now@, steps[i].1->WriteOnce_0) by {
                lemma_write_once_recorded(markers0, steps, now@, i);
            }
            if !(s0.image is Null) && no_null_members(live@) {
                crate::drift::lemma_observed_drift_replays(s0.image, live@);
            }
        }
        Ok(Outcome { plan, live: new_live, snapshot: working, drift })
    }

    /// `Read → Plan → Apply → Commit` on what was read: read the declared
    /// overlay, the live file and the snapshot (a live file or snapshot not
    /// created yet reads as empty), plan and apply at time `now`, and
    /// render what the commit step writes. `now` is the time of the run: of
    /// each marker it records and of its drift report. Nothing is decided
    /// before every step has succeeded.
    pub fn apply(reading: &Reading, now: &str, dry_run: bool) -> (r: Result<Writing, Error>)
        ensures
            match r {
                Ok(w) => exists|format: LiveFormat, o: Outcome|
                    #![trigger written(*reading, format, o, now@, dry_run, w)]
                    applied(*reading, format, now@, o) && written(*reading, format, o, now@, dry_run, w),
                Err(e) => refused(*reading, now@, dry_run, e),
            },
    {
        let declared = match Declared::from_text(
            reading.declared_text.as_str(),
            reading.declared_path.as_str(),
        ) {
            Ok(d) => d,
            Err(e) => {
                return Err(e);
            },
        };
        let mut live = match &reading.live_text {
            Some(text) => {
                let read_live = Live::from_text(text.as_str(), reading.live_path.clone());
                let ghost seen = read_live;
                match read_live {
                    Ok(l) => l,
                    Err(e) => {
                        proof {
                            let f = choose|f: LiveFormat|
                                #![trigger format_reading(f, text@)]
                                format_called_for(reading.live_path@, f) && match format_reading(
                                    f,
                                    text@,
                                ) {
                                    Ok(v) => seen matches Ok(live) && live@ == LiveView {
                                        data: v,
                                        format: f,
                                        source_path: reading.live_path@,
                                    },
                                    Err(message) => seen matches Err(
                                        Error::LiveParse { source_path: p, reason: q },
                                    ) && p@ == reading.live_path@ && q@ == message,
                                };
                            assert(live_read(*reading, f) is None);
                            assert(live_refused(*reading, f, e));
                        }
                        return Err(e);
                    },
                }
            },
            None => Live::empty(reading.live_path.clone()),
        };
        let ghost format = live@.format;
        proof {
            assert(format_called_for(reading.live_path@, format));
            assert(live_read(*reading, format) == Some(live@.data));
        }
        let snapshot = match &reading.snapshot_text {
            Some(text) => match Snapshot::from_text(text.as_str(), reading.snapshot_path.clone()) {
                Ok(s) => s,
                Err(e) => {
                    proof {
                        assert(live_read(*reading, format) is Some);
                    }
                    return Err(e);
                },
            },
            None => Snapshot::empty(reading.snapshot_path.clone()),
        };
        proof {
            assert(snapshot_read(*reading) == Some(snapshot@));
        }
        let outcome = match Reconciler::reconcile(&declared, live.data(), snapshot, now) {
            Ok(o) => o,
            Err(e) => {
                proof {
                    assert(live_read(*reading, format) is Some);
                }
                return Err(e);
            },
        };
        let ghost o = outcome;
        proof {
            assert(applied(*reading, format, now@, o));
        }
        let commit = Reconciler::commit(dry_run, &outcome.drift);
        let live_text = if commit.write_live {
            live.set_data(outcome.live);
            match live.render(reading.live_path.as_str()) {
                Ok(text) => Some(text),
                Err(e) => {
                    proof {
                        assert(live_rendering(format, o.live@, reading.live_path@, Err::<String, Error>(e)));
                    }
                    return Err(e);
                },
            }
        } else {
            None
        };
        let snapshot_text = if commit.write_snapshot {
            match outcome.snapshot.render(reading.snapshot_path.as_str()) {
                Ok(text) => Some(text),
                Err(e) => {
                    proof {
                        assert(format_rendering(format, o.live@) is Ok);
                    }
                    return Err(e);
                },
            }
        } else {
            None
        };
        let drift = if commit.write_drift {
            Some(DriftEntry::new(now.to_owned(), outcome.drift))
        } else {
            None
        };
        let w = Writing { live_text, snapshot_text, drift };
        proof {
            assert(written(*reading, format, o, now@, dry_run, w));
        }
        Ok(w)
    }

    /// What the commit step writes: nothing on a dry run; otherwise the
    /// live file and the snapshot, and the drift report when there is
    /// drift.
    pub fn commit(dry_run: bool, drift: &DriftPatch) -> (r: Commit)
        ensures
            r.write_live == !dry_run,
            r.write_snapshot == !dry_run,
            r.write_drift == (!dry_run && drift@ != empty_object()),
    {
        if dry_run {
            Commit { write_live: false, write_snapshot: false, write_drift: false }
        } else {
            Commit { write_live: true, write_snapshot: true, write_drift: !drift.is_empty() }
        }
    }
}

proof fn lemma_apply_plan_stuck(
    base: JsonValue,
    plan: Seq<(Seq<Seq<char>>, ActionView)>,
    k: int,
)
    requires
        0 < k <= plan.len(),
        apply_plan(base, plan.subrange(0, k)) is None,
    ensures
        apply_plan(base, plan) is None,
    decreases plan.len() - k,
{
    if k < plan.len() {
        assert(plan.subrange(0, k + 1).drop_last() =~= plan.subrange(0, k));
        lemma_apply_plan_stuck(base, plan, k + 1);
    } else {
        assert(plan.subrange(0, k) =~= plan);
    }
}

proof fn lemma_apply_plan_prefix(
    base: JsonValue,
    plan: Seq<(Seq<Seq<char>>, ActionView)>,
    k: int,
)
    requires
        0 <= k <= plan.len(),
        apply_plan(base, plan) is Some,
    ensures
        apply_plan(base, plan.subrange(0, k)) is Some,
{
    if k > 0 && apply_plan(base, plan.subrange(0, k)) is None {
        lemma_apply_plan_stuck(base, plan, k);
    }
    if k == 0 {
        assert(plan.subrange(0, 0) =~= Seq::<(Seq<Seq<char>>, ActionView)>::empty());
    }
}

/// Two distinct leaves of a document never lie one under the other.
pub proof fn lemma_leaves_diverge(v: JsonValue, p: Seq<Seq<char>>, q: Seq<Seq<char>>)
    requires
        leaves(v).contains_key(p),
        leaves(v).contains_key(q),
        p != q,
    ensures
        !token_prefix(p, q),
    decreases v,
{
    if let JsonValue::Object(m) = v {
        if token_prefix(p, q) {
            assert(q.subrange(0, p.len() as int)[0] == q[0]);
            if p[0] == q[0] {
                let k = p[0];
                let p2 = p.drop_first();
                let q2 = q.drop_first();
                if p2 == q2 {
                    assert(p =~= seq![k] + p2);
                    assert(q =~= seq![k] + q2);
                }
                lemma_leaves_diverge(m[k], p2, q2);
                assert(q2.subrange(0, p2.len() as int) =~= q.subrange(0, p.len() as int).drop_first());
            }
        }
    }
}

/// After a plan whose writes all succeed, every leaf that the plan writes
/// holds its declared value: declared wins where it speaks.
pub proof fn lemma_declared_value_lands(
    base: JsonValue,
    plan: Seq<(Seq<Seq<char>>, ActionView)>,
    data: JsonValue,
    modes: Map<Seq<Seq<char>>, Mode>,
    markers: Set<Seq<Seq<char>>>,
    i: int,
)
    requires
        is_plan_for(plan, data, modes, markers),
        apply_plan(base, plan) is Some,
        0 <= i < plan.len(),
        written_value(plan[i].1) is Some,
    ensures
        lookup(apply_plan(base, plan)->Some_0, plan[i].0) == written_value(plan[i].1),
        object_path(apply_plan(base, plan)->Some_0, plan[i].0),
{
    lemma_value_lands_from(base, plan, data, modes, markers, i, plan.len() as int);
    assert(plan.subrange(0, plan.len() as int) =~= plan);
}

proof fn lemma_value_lands_from(
    base: JsonValue,
    plan: Seq<(Seq<Seq<char>>, ActionView)>,
    data: JsonValue,
    modes: Map<Seq<Seq<char>>, Mode>,
    markers: Set<Seq<Seq<char>>>,
    i: int,
    k: int,
)
    requires
        is_plan_for(plan, data, modes, markers),
        apply_plan(base, plan) is Some,
        0 <= i < k <= plan.len(),
        written_value(plan[i].1) is Some,
    ensures
        apply_plan(base, plan.subrange(0, k)) is Some,
        lookup(apply_plan(base, plan.subrange(0, k))->Some_0, plan[i].0) == written_value(plan[i].1),
        object_path(apply_plan(base, plan.subrange(0, k))->Some_0, plan[i].0),
    decreases k,
{
    lemma_apply_plan_prefix(base, plan, k);
    let steps = plan.subrange(0, k);
    assert(steps.drop_last() =~= plan.subrange(0, k - 1));
    assert(steps.last() == plan[k - 1]);
    lemma_apply_plan_prefix(base, plan, k - 1);
    let d = apply_plan(base, plan.subrange(0, k - 1))->Some_0;
    if k - 1 == i {
        crate::pointer::lemma_read_after_write(d, plan[i].0, written_value(plan[i].1)->Some_0);
        crate::pointer::lemma_write_makes_object_path(d, plan[i].0, written_value(plan[i].1)->Some_0);
    } else {
        lemma_value_lands_from(base, plan, data, modes, markers, i, k - 1);
        if let Some(w) = written_value(plan[k - 1].1) {
            let p = plan[k - 1].0;
            let q = plan[i].0;
            assert(leaves(data).contains_key(p));
            assert(leaves(data).contains_key(q));
            lemma_leaves_diverge(data, p, q);
            lemma_leaves_diverge(data, q, p);
            crate::pointer::lemma_write_leaves_other_pointers(d, p, w, q);
            crate::pointer::lemma_write_keeps_object_path(d, p, w, q);
        }
    }
}

/// A pointer that no write of the plan lies above or under keeps its
/// value: user data survives wherever declared is silent, and a `once`
/// key left alone keeps the user's value.
pub proof fn lemma_silent_pointer_survives(
    base: JsonValue,
    plan: Seq<(Seq<Seq<char>>, ActionView)>,
    q: Seq<Seq<char>>,
)
    requires
        apply_plan(base, plan) is Some,
        forall|i: int|
            0 <= i < plan.len() && #[trigger] written_value(plan[i].1) is Some ==> !token_prefix(
                plan[i].0,
                q,
            ) && !token_prefix(q, plan[i].0),
    ensures
        lookup(apply_plan(base, plan)->Some_0, q) == lookup(base, q),
    decreases plan.len(),
{
    if plan.len() > 0 {
        let front = plan.drop_last();
        assert forall|i: int|
            0 <= i < front.len() && #[trigger] written_value(front[i].1) is Some implies !token_prefix(
            front[i].0,
            q,
        ) && !token_prefix(q, front[i].0) by {
            assert(front[i] == plan[i]);
        }
        lemma_apply_plan_prefix(base, plan, plan.len() - 1);
        assert(plan.subrange(0, plan.len() - 1) =~= front);
        lemma_silent_pointer_survives(base, front, q);
        let d = apply_plan(base, front)->Some_0;
        if let Some(w) = written_value(plan.last().1) {
            assert(written_value(plan[plan.len() - 1].1) is Some);
            crate::pointer::lemma_write_leaves_other_pointers(d, plan.last().0, w, q);
        }
    }
}

proof fn lemma_reapply(base: JsonValue, plan: Seq<(Seq<Seq<char>>, ActionView)>)
    requires
        forall|i: int|
            0 <= i < plan.len() ==> (#[trigger] written_value(plan[i].1) matches Some(v) ==> lookup(
                base,
                plan[i].0,
            ) == Some(v) && object_path(base, plan[i].0)),
    ensures
        apply_plan(base, plan) == Some(base),
    decreases plan.len(),
{
    if plan.len() > 0 {
        let front = plan.drop_last();
        assert forall|i: int| 0 <= i < front.len() implies (#[trigger] written_value(front[i].1) matches Some(
            v,
        ) ==> lookup(base, front[i].0) == Some(v) && object_path(base, front[i].0)) by {
            assert(front[i] == plan[i]);
        }
        lemma_reapply(base, front);
        if let Some(w) = written_value(plan.last().1) {
            assert(written_value(plan[plan.len() - 1].1) is Some);
            crate::pointer::lemma_assign_same(base, plan.last().0, w);
        }
    }
}

/// Carrying out a plan drops no marker, and records one for every `once` key
/// the plan writes.
pub proof fn lemma_markers_grow(
    markers: Map<Seq<Seq<char>>, (Seq<char>, JsonValue)>,
    plan: Seq<(Seq<Seq<char>>, ActionView)>,
    now: Seq<char>,
)
    ensures
        markers.dom().subset_of(markers_after(markers, plan, now).dom()),
        forall|i: int|
            0 <= i < plan.len() && #[trigger] plan[i].1 is WriteOnce ==> markers_after(
                markers,
                plan,
                now,
            ).contains_key(plan[i].0),
    decreases plan.len(),
{
    if plan.len() > 0 {
        let front = plan.drop_last();
        lemma_markers_grow(markers, front, now);
        assert forall|p: Seq<Seq<char>>| markers.dom().contains(p) implies #[trigger] markers_after(
            markers,
            plan,
            now,
        ).dom().contains(p) by {
            assert(markers_after(markers, front, now).dom().contains(p));
        }
        assert forall|i: int| 0 <= i < plan.len() && #[trigger] plan[i].1 is WriteOnce implies markers_after(
            markers,
            plan,
            now,
        ).contains_key(plan[i].0) by {
            if i < plan.len() - 1 {
                assert(front[i] == plan[i]);
            }
        }
    }
}

/// A first run, with no snapshot yet, reports no drift: there is no image
/// to compare the live file with.
pub proof fn lemma_first_run_reports_no_drift(
    reading: Reading,
    format: LiveFormat,
    now: Seq<char>,
    o: Outcome,
    dry_run: bool,
    w: Writing,
)
    requires
        reading.snapshot_text is None,
        applied(reading, format, now, o),
        written(reading, format, o, now, dry_run, w),
    ensures
        w.drift is None,
{
}

/// Each `once` key a plan writes gets a marker that records the time of the
/// pass and the value written.
pub proof fn lemma_write_once_recorded(
    markers: Map<Seq<Seq<char>>, (Seq<char>, JsonValue)>,
    plan: Seq<(Seq<Seq<char>>, ActionView)>,
    now: Seq<char>,
    i: int,
)
    requires
        0 <= i < plan.len(),
        plan[i].1 is WriteOnce,
        forall|a: int, b: int| 0 <= a < b < plan.len() ==> plan[a].0 != plan[b].0,
    ensures
        markers_after(markers, plan, now).contains_key(plan[i].0),
        markers_after(markers, plan, now)[plan[i].0] == (now, plan[i].1->WriteOnce_0),
    decreases plan.len(),
{
    if i < plan.len() - 1 {
        let front = plan.drop_last();
        assert(front[i] == plan[i]);
        lemma_write_once_recorded(markers, front, now, i);
        assert(plan.last().0 != plan[i].0);
    }
}

/// A `once` key is written at most once: after a pass whose plan writes it,
/// every later plan against the markers that pass leaves behind (those of
/// `markers_after`, whatever markers the pass started from) leaves it alone
/// while its mode stays `once`, whatever the declared data holds then.
pub proof fn lemma_once_is_written_once(
    first: Seq<(Seq<Seq<char>>, ActionView)>,
    markers: Map<Seq<Seq<char>>, (Seq<char>, JsonValue)>,
    now: Seq<char>,
    later: Seq<(Seq<Seq<char>>, ActionView)>,
    data: JsonValue,
    modes: Map<Seq<Seq<char>>, Mode>,
    i: int,
    j: int,
)
    requires
        0 <= i < first.len(),
        first[i].1 is WriteOnce,
        is_plan_for(later, data, modes, markers_after(markers, first, now).dom()),
        0 <= j < later.len(),
        later[j].0 == first[i].0,
        nearest_mode(modes, later[j].0) == Mode::Once,
    ensures
        later[j].1 == ActionView::LeaveAlone,
{
    lemma_markers_grow(markers, first, now);
    assert(markers_after(markers, first, now).contains_key(first[i].0));
}

/// Carrying out a plan records a marker only where the plan writes a `once`
/// key.
proof fn lemma_markers_only_from_writes(
    markers: Map<Seq<Seq<char>>, (Seq<char>, JsonValue)>,
    plan: Seq<(Seq<Seq<char>>, ActionView)>,
    now: Seq<char>,
    q: Seq<Seq<char>>,
)
    requires
        !markers.contains_key(q),
        forall|i: int| 0 <= i < plan.len() && #[trigger] plan[i].0 == q ==> !(plan[i].1 is WriteOnce),
    ensures
        !markers_after(markers, plan, now).contains_key(q),
    decreases plan.len(),
{
    if plan.len() > 0 {
        let front = plan.drop_last();
        assert forall|i: int| 0 <= i < front.len() && #[trigger] front[i].0 == q implies !(
        front[i].1 is WriteOnce) by {
            assert(front[i] == plan[i]);
        }
        lemma_markers_only_from_writes(markers, front, now, q);
        assert(plan.last() == plan[plan.len() - 1]);
    }
}

/// A key whose mode moved away from `once` is reset: the pass drops its
/// marker, so that once its mode is `once` again, the next plan seeds it
/// again with the declared value.
pub proof fn lemma_flip_back_to_once_seeds_again(
    markers: Map<Seq<Seq<char>>, (Seq<char>, JsonValue)>,
    first: Seq<(Seq<Seq<char>>, ActionView)>,
    data: JsonValue,
    modes: Map<Seq<Seq<char>>, Mode>,
    now: Seq<char>,
    later: Seq<(Seq<Seq<char>>, ActionView)>,
    later_data: JsonValue,
    later_modes: Map<Seq<Seq<char>>, Mode>,
    j: int,
)
    requires
        is_plan_for(first, data, modes, markers.dom()),
        nearest_mode(modes, later[j].0) != Mode::Once,
        is_plan_for(
            later,
            later_data,
            later_modes,
            markers_after(once_markers(markers, modes), first, now).dom(),
        ),
        0 <= j < later.len(),
        nearest_mode(later_modes, later[j].0) == Mode::Once,
    ensures
        !markers_after(once_markers(markers, modes), first, now).contains_key(later[j].0),
        later[j].1 == ActionView::WriteOnce(leaves(later_data)[later[j].0]),
{
    let q = later[j].0;
    assert forall|i: int| 0 <= i < first.len() && #[trigger] first[i].0 == q implies !(
    first[i].1 is WriteOnce) by {
        assert(leaves(data).contains_key(first[i].0));
    }
    lemma_markers_only_from_writes(once_markers(markers, modes), first, now, q);
}

/// Reconciling a second time, with the declared overlay and the live file
/// unchanged since the first pass, writes nothing new: every write of the
/// second plan finds its value already in place.
pub proof fn lemma_second_pass_is_noop(
    base: JsonValue,
    first: Seq<(Seq<Seq<char>>, ActionView)>,
    second: Seq<(Seq<Seq<char>>, ActionView)>,
    data: JsonValue,
    modes: Map<Seq<Seq<char>>, Mode>,
    markers: Map<Seq<Seq<char>>, (Seq<char>, JsonValue)>,
    now: Seq<char>,
)
    requires
        is_plan_for(first, data, modes, markers.dom()),
        apply_plan(base, first) is Some,
        is_plan_for(
            second,
            data,
            modes,
            markers_after(once_markers(markers, modes), first, now).dom(),
        ),
    ensures
        apply_plan(apply_plan(base, first)->Some_0, second) == apply_plan(base, first),
{
    let live1 = apply_plan(base, first)->Some_0;
    let markers1 = markers_after(once_markers(markers, modes), first, now);
    lemma_markers_grow(once_markers(markers, modes), first, now);
    assert forall|j: int| 0 <= j < second.len() implies (#[trigger] written_value(second[j].1) matches Some(
        v,
    ) ==> lookup(live1, second[j].0) == Some(v) && object_path(live1, second[j].0)) by {
        if let Some(v) = written_value(second[j].1) {
            let p = second[j].0;
            assert(leaves(data).contains_key(p));
            let i = choose|i: int| 0 <= i < first.len() && first[i].0 == p;
            assert(leaves(data).contains_key(first[i].0));
            if nearest_mode(modes, p) == Mode::Once {
                if !markers.dom().contains(p) {
                    assert(first[i].1 is WriteOnce);
                } else {
                    assert(once_markers(markers, modes).contains_key(p));
                }
                assert(markers1.contains_key(p));
                assert(false);
            }
            lemma_declared_value_lands(base, first, data, modes, markers.dom(), i);
        }
    }
    lemma_reapply(live1, second);
}

/// With no change since the last image there is no drift.
pub proof fn lemma_unchanged_live_has_no_drift(live: JsonValue)
    requires
        live is Object,
    ensures
        observed_drift(live, live) == empty_object(),
{
    crate::drift::lemma_no_change_no_drift(live);
}

/// Where a reconciler is in its run.
#[derive(Debug)]
pub enum Phase {
    Idle,
    Committed,
    Failed(Error),
}

/// The phase as reported to callers.
#[derive(Clone, Debug, PartialEq, Eq)]
pub enum PhaseReport {
    Idle,
    Committed,
    Failed(String),
}

impl Phase {
    /// The report of this phase: a failure by its message.
    pub fn report(&self) -> (r: PhaseReport)
        ensures
            match self {
                Phase::Idle => r is Idle,
                Phase::Committed => r is Committed,
                Phase::Failed(e) => r matches PhaseReport::Failed(m) && m@ == error_message(*e),
            },
    {
        match self {
            Phase::Idle => PhaseReport::Idle,
            Phase::Committed => PhaseReport::Committed,
            Phase::Failed(error) => PhaseReport::Failed(error.message()),
        }
    }
}

/// A reconciler actor's state: its target and its phase.
pub struct State {
    arguments: Arguments,
    phase: Phase,
}

impl State {
    /// A reconciler for `arguments` that has not run yet.
    pub fn new(arguments: Arguments) -> (r: State)
        ensures
            r.phase() is Idle,
            r.target() == arguments,
    {
        State { arguments, phase: Phase::Idle }
    }

    pub closed spec fn phase(&self) -> Phase {
        self.phase
    }

    /// The target the reconciler runs for.
    pub closed spec fn target(&self) -> Arguments {
        self.arguments
    }

    pub fn arguments(&self) -> (r: &Arguments)
        ensures
            *r == self.target(),
    {
        &self.arguments
    }

    /// Record the end of a run: committed on success, failed with the
    /// error otherwise.
    pub fn finish_run(&mut self, result: Result<(), Error>)
        ensures
            match result {
                Ok(()) => final(self).phase() is Committed,
                Err(e) => final(self).phase() == Phase::Failed(e),
            },
            final(self).target() == old(self).target(),
    {
        self.phase = match result {
            Ok(()) => Phase::Committed,
            Err(error) => Phase::Failed(error),
        };
    }

    /// The phase, as reported to callers.
    pub fn phase_report(&self) -> (r: PhaseReport)
        ensures
            match self.phase() {
                Phase::Idle => r is Idle,
                Phase::Committed => r is Committed,
                Phase::Failed(e) => r matches PhaseReport::Failed(m) && m@ == error_message(e),
            },
    {
        self.phase.report()
    }
}

} // verus!
