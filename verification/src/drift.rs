//! User drift — the difference between what hexis last wrote (the
//! snapshot image) and what the file holds now — as an RFC 7396 JSON Merge
//! Patch, and the journal that keeps the latest drift reports.
use vstd::prelude::*;

use crate::error::Error;
use crate::json::{Json, JsonObject, JsonValue};
use crate::syntax::{json_reading, json_rendering, read_json, render_json};

verus! {

/// The merge patch that turns `before` into `after` (RFC 7396): members
/// that went away become `null`, new or changed members carry their new
/// value, and changed objects are diffed member by member.
pub open spec fn merge_diff(before: JsonValue, after: JsonValue) -> JsonValue
    decreases after,
{
    match (before, after) {
        (JsonValue::Object(b), JsonValue::Object(a)) => JsonValue::Object(
            Map::new(
                |k: Seq<char>|
                    (b.contains_key(k) && !a.contains_key(k)) || (a.contains_key(k) && (
                    !b.contains_key(k) || b[k] != a[k])),
                |k: Seq<char>|
                    if !a.contains_key(k) {
                        JsonValue::Null
                    } else if !b.contains_key(k) {
                        a[k]
                    } else {
                        merge_diff(b[k], a[k])
                    },
            ),
        ),
        _ => after,
    }
}

/// `target` after applying the merge patch `patch` (RFC 7396).
pub open spec fn merge_apply(target: JsonValue, patch: JsonValue) -> JsonValue
    decreases patch,
{
    match patch {
        JsonValue::Object(p) => {
            let t = match target {
                JsonValue::Object(t) => t,
                _ => Map::empty(),
            };
            JsonValue::Object(
                Map::new(
                    |k: Seq<char>|
                        if p.contains_key(k) {
                            p[k] != JsonValue::Null
                        } else {
                            t.contains_key(k)
                        },
                    |k: Seq<char>|
                        if p.contains_key(k) {
                            merge_apply(
                                if t.contains_key(k) {
                                    t[k]
                                } else {
                                    JsonValue::Null
                                },
                                p[k],
                            )
                        } else {
                            t[k]
                        },
                ),
            )
        },
        _ => patch,
    }
}


/// Whether `k` is among the first `n` keys.
pub open spec fn seen(keys: Seq<String>, n: int, k: Seq<char>) -> bool {
    exists|l: int| 0 <= l < n && keys[l]@ == k
}

/// No object member anywhere along objects is `null` (a merge patch
/// cannot set a member to `null`: it reads `null` as "remove").
pub open spec fn no_null_members(v: JsonValue) -> bool
    decreases v,
{
    match v {
        JsonValue::Object(m) => forall|k: Seq<char>|
            #[trigger] m.contains_key(k) ==> m[k] != JsonValue::Null && no_null_members(m[k]),
        _ => true,
    }
}

pub open spec fn empty_object() -> JsonValue {
    JsonValue::Object(Map::empty())
}

/// The drift observed: none on a first run (no image yet), else the merge
/// patch from the last image to the live data.
pub open spec fn observed_drift(image: JsonValue, live: JsonValue) -> JsonValue {
    if image is Null {
        empty_object()
    } else {
        merge_diff(image, live)
    }
}

/// Applying a patch without `null` members to a value that is not an
/// object gives the patch itself.
pub proof fn lemma_apply_to_non_object(target: JsonValue, patch: JsonValue)
    requires
        !(target is Object),
        no_null_members(patch),
    ensures
        merge_apply(target, patch) == patch,
    decreases patch,
{
    if let JsonValue::Object(p) = patch {
        let r = merge_apply(target, patch)->Object_0;
        assert forall|k: Seq<char>| #[trigger] p.contains_key(k) implies r.contains_key(k) && r[k]
            == p[k] by {
            lemma_apply_to_non_object(JsonValue::Null, p[k]);
        }
        assert(r =~= p);
    }
}

/// Applying the drift between two documents to the first gives the second
/// back (RFC 7396), wherever the second has no `null` object member, which
/// a merge patch cannot express.
pub proof fn lemma_diff_then_apply(before: JsonValue, after: JsonValue)
    requires
        no_null_members(after),
    ensures
        merge_apply(before, merge_diff(before, after)) == after,
    decreases after,
{
    match (before, after) {
        (JsonValue::Object(b), JsonValue::Object(a)) => {
            let d = merge_diff(before, after)->Object_0;
            let r = merge_apply(before, merge_diff(before, after))->Object_0;
            assert forall|k: Seq<char>| #[trigger] r.contains_key(k) == a.contains_key(k) by {
                if a.contains_key(k) && b.contains_key(k) && b[k] != a[k] {
                    assert(d[k] == merge_diff(b[k], a[k]));
                }
            }
            assert forall|k: Seq<char>| #[trigger] a.contains_key(k) implies r[k] == a[k] by {
                if !b.contains_key(k) {
                    lemma_apply_to_non_object(JsonValue::Null, a[k]);
                } else if b[k] != a[k] {
                    lemma_diff_then_apply(b[k], a[k]);
                }
            }
            assert(r =~= a);
        },
        _ => {
            if after is Object {
                lemma_apply_to_non_object(before, after);
            }
        },
    }
}

/// Replaying the observed drift on the last image gives the live data back,
/// wherever there is an image and the live data has no `null` member: every
/// change the user made since the image, a removal included, is in the
/// drift.
pub proof fn lemma_observed_drift_replays(image: JsonValue, live: JsonValue)
    requires
        !(image is Null),
        no_null_members(live),
    ensures
        merge_apply(image, observed_drift(image, live)) == live,
{
    lemma_diff_then_apply(image, live);
}

/// A member of the imaged object that the live object no longer has shows
/// in the drift as `null`.
pub proof fn lemma_removed_member_reported(
    image: Map<Seq<char>, JsonValue>,
    live: Map<Seq<char>, JsonValue>,
    k: Seq<char>,
)
    requires
        image.contains_key(k),
        !live.contains_key(k),
    ensures
        observed_drift(JsonValue::Object(image), JsonValue::Object(live)) matches JsonValue::Object(d)
            && d.contains_key(k) && d[k] == JsonValue::Null,
{
}

/// A member the live object changed or added shows in the drift, and a
/// member it kept as it was does not.
pub proof fn lemma_kept_member_not_reported(
    image: Map<Seq<char>, JsonValue>,
    live: Map<Seq<char>, JsonValue>,
    k: Seq<char>,
)
    ensures
        observed_drift(JsonValue::Object(image), JsonValue::Object(live)) matches JsonValue::Object(d)
            && (d.contains_key(k) <==> !(image.contains_key(k) && live.contains_key(k) && image[k]
            == live[k]) && (image.contains_key(k) || live.contains_key(k))),
{
}

/// Between an object and itself there is no drift, and applying an empty
/// patch to an object leaves it as it is.
pub proof fn lemma_no_change_no_drift(doc: JsonValue)
    requires
        doc is Object,
    ensures
        merge_diff(doc, doc) == empty_object(),
        merge_apply(doc, empty_object()) == doc,
{
    let m = doc->Object_0;
    assert(merge_diff(doc, doc)->Object_0 =~= Map::<Seq<char>, JsonValue>::empty());
    assert(merge_apply(doc, empty_object())->Object_0 =~= m);
}

/// Between two objects the drift is empty exactly when they are the same.
pub proof fn lemma_empty_drift_means_no_change(before: JsonValue, after: JsonValue)
    requires
        before is Object,
        after is Object,
    ensures
        (merge_diff(before, after) == empty_object()) <==> (before == after),
{
    let b = before->Object_0;
    let a = after->Object_0;
    if merge_diff(before, after) == empty_object() {
        let d = merge_diff(before, after)->Object_0;
        assert forall|k: Seq<char>| #[trigger] a.contains_key(k) == b.contains_key(k) by {
            assert(!d.contains_key(k));
        }
        assert forall|k: Seq<char>| #[trigger] a.contains_key(k) implies a[k] == b[k] by {
            assert(!d.contains_key(k));
        }
        assert(a =~= b);
    }
    if before == after {
        lemma_no_change_no_drift(before);
    }
}

/// A merge patch.
#[derive(Debug)]
pub struct DriftPatch {
    value: Json,
}

impl View for DriftPatch {
    type V = JsonValue;

    closed spec fn view(&self) -> JsonValue {
        self.value@
    }
}

/// The merge patch that turns `before` into `after`.
pub fn diff(before: &Json, after: &Json) -> (r: Json)
    ensures
        r@ == merge_diff(before@, after@),
    decreases after@,
{
    match (before, after) {
        (Json::Object(b), Json::Object(a)) => {
            let ghost bm = b@;
            let ghost am = a@;
            let mut patch = JsonObject::new();
            let bkeys = b.keys();
            let mut i: usize = 0;
            while i < bkeys.len()
                invariant
                    i <= bkeys.len(),
                    bm == b@,
                    am == a@,
                    forall|k: Seq<char>|
                        #[trigger] patch@.contains_key(k) <==> (exists|j: int|
                            0 <= j < i && bkeys@[j]@ == k) && bm.contains_key(k) && !am.contains_key(k),
                    forall|k: Seq<char>|
                        #[trigger] patch@.contains_key(k) ==> patch@[k] == JsonValue::Null,
                    forall|j: int| 0 <= j < bkeys.len() ==> bm.contains_key(#[trigger] bkeys@[j]@),
                decreases bkeys.len() - i,
            {
                let key = &bkeys[i];
                if !a.contains_key(key.as_str()) {
                    patch.insert(key.clone(), Json::Null);
                }
                i = i + 1;
            }
            let akeys = a.keys();
            let mut j: usize = 0;
            while j < akeys.len()
                invariant
                    j <= akeys.len(),
                    bm == b@,
                    am == a@,
                    am.dom().finite(),
                    after@ == JsonValue::Object(am),
                    before@ == JsonValue::Object(bm),
                    forall|l: int| 0 <= l < akeys.len() ==> am.contains_key(#[trigger] akeys@[l]@),
                    forall|l: int, m: int| 0 <= l < m < akeys.len() ==> akeys@[l]@ != akeys@[m]@,
                    forall|k: Seq<char>|
                        #[trigger] patch@.contains_key(k) <==> ((bm.contains_key(k) && !am.contains_key(k))
                            || ((exists|l: int| 0 <= l < j && akeys@[l]@ == k) && am.contains_key(k)
                            && (!bm.contains_key(k) || bm[k] != am[k]))),
                    forall|k: Seq<char>|
                        #[trigger] patch@.contains_key(k) ==> patch@[k] == merge_diff(
                            before@,
                            after@,
                        )->Object_0[k],
                decreases akeys.len() - j,
            {
                let key = &akeys[j];
                let ghost k = key@;
                match a.get(key.as_str()) {
                    Some(av) => {
                        match b.get(key.as_str()) {
                            None => {
                                patch.insert(key.clone(), av.deep_copy());
                            },
                            Some(bv) => {
                                if !bv.equals(av) {
                                    proof {
                                        broadcast use vstd::map::axiom_map_index_decreases_finite;
                                        assert(decreases_to!(after@ => am));
                                        assert(decreases_to!(am => am[k]));
                                    }
                                    let sub = diff(bv, av);
                                    patch.insert(key.clone(), sub);
                                }
                            },
                        }
                    },
                    None => {},
                }
                proof {
                    assert forall|kk: Seq<char>| #[trigger] patch@.contains_key(kk) <==> ((bm.contains_key(kk)
                        && !am.contains_key(kk)) || ((exists|l: int| 0 <= l < j + 1 && akeys@[l]@ == kk)
                        && am.contains_key(kk) && (!bm.contains_key(kk) || bm[kk] != am[kk]))) by {
                        if kk == k {
                            assert(akeys@[j as int]@ == kk);
                        } else if exists|l: int| 0 <= l < j + 1 && akeys@[l]@ == kk {
                            let l = choose|l: int| 0 <= l < j + 1 && akeys@[l]@ == kk;
                            assert(l < j);
                        }
                    }
                }
                j = j + 1;
            }
            proof {
                let d = merge_diff(before@, after@)->Object_0;
                assert forall|k: Seq<char>| #[trigger] patch@.contains_key(k) == d.contains_key(k) by {
                    if am.contains_key(k) {
                        let l = choose|l: int| 0 <= l < akeys.len() && #[trigger] akeys@[l]@ == k;
                        assert(akeys@[l]@ == k);
                    }
                }
                assert(patch@ =~= d);
            }
            Json::Object(patch)
        },
        _ => after.deep_copy(),
    }
}

/// Apply the merge patch `patch` to `target`.
pub fn merge_into(target: &mut Json, patch: &Json)
    ensures
        final(target)@ == merge_apply(old(target)@, patch@),
    decreases patch@,
{
    match patch {
        Json::Object(p) => {
            let mut taken = Json::Null;
            std::mem::swap(&mut taken, target);
            let ghost t0 = match taken@ {
                JsonValue::Object(t) => t,
                _ => Map::empty(),
            };
            let ghost before_merge = taken@;
            let mut t = match taken {
                Json::Object(o) => o,
                _ => JsonObject::new(),
            };
            let ghost pm = p@;
            let pkeys = p.keys();
            let mut i: usize = 0;
            while i < pkeys.len()
                invariant
                    i <= pkeys.len(),
                    pm == p@,
                    pm.dom().finite(),
                    patch@ == JsonValue::Object(pm),
                    forall|l: int| 0 <= l < pkeys.len() ==> pm.contains_key(#[trigger] pkeys@[l]@),
                    forall|l: int, m: int| 0 <= l < m < pkeys.len() ==> pkeys@[l]@ != pkeys@[m]@,
                    forall|k: Seq<char>|
                        #[trigger] t@.contains_key(k) <==> (if seen(pkeys@, i as int, k) {
                            pm[k] != JsonValue::Null
                        } else {
                            t0.contains_key(k)
                        }),
                    forall|k: Seq<char>|
                        #[trigger] t@.contains_key(k) ==> t@[k] == (if seen(pkeys@, i as int, k) {
                            merge_apply(
                                if t0.contains_key(k) {
                                    t0[k]
                                } else {
                                    JsonValue::Null
                                },
                                pm[k],
                            )
                        } else {
                            t0[k]
                        }),
                decreases pkeys.len() - i,
            {
                let key = &pkeys[i];
                let ghost k = key@;
                let ghost before = t@;
                proof {
                    assert(!seen(pkeys@, i as int, k)) by {
                        if seen(pkeys@, i as int, k) {
                            let l = choose|l: int| 0 <= l < i && pkeys@[l]@ == k;
                            assert(pkeys@[l]@ != pkeys@[i as int]@);
                        }
                    }
                }
                match p.get(key.as_str()) {
                    Some(pv) => {
                        if pv.is_null() {
                            t.remove(key.as_str());
                        } else {
                            let mut child = match t.remove(key.as_str()) {
                                Some(c) => c,
                                None => Json::Null,
                            };
                            proof {
                                broadcast use vstd::map::axiom_map_index_decreases_finite;
                                assert(pm.contains_key(k));
                                assert(decreases_to!(pm => pm[k]));
                                assert(patch@->Object_0 == pm);
                                assert(decreases_to!(patch@ => patch@->Object_0));
                            }
                            merge_into(&mut child, pv);
                            t.insert(key.clone(), child);
                        }
                    },
                    None => {},
                }
                proof {
                    assert forall|kk: Seq<char>|
                        #[trigger] seen(pkeys@, i + 1, kk) == (kk == k || seen(pkeys@, i as int, kk)) by {
                        if seen(pkeys@, i + 1, kk) {
                            let l = choose|l: int| 0 <= l < i + 1 && pkeys@[l]@ == kk;
                            if l == i {
                                assert(kk == k);
                            }
                        }
                        if kk == k {
                            assert(pkeys@[i as int]@ == kk);
                        }
                    }
                }
                i = i + 1;
            }
            proof {
                let r = merge_apply(before_merge, patch@)->Object_0;
                assert forall|k: Seq<char>| pm.contains_key(k) implies #[trigger] seen(pkeys@, pkeys.len() as int, k) by {
                    let l = choose|l: int| 0 <= l < pkeys.len() && #[trigger] pkeys@[l]@ == k;
                    assert(pkeys@[l]@ == k);
                }
                assert forall|k: Seq<char>| #[trigger] t@.contains_key(k) == r.contains_key(k) by {
                    if pm.contains_key(k) {
                        let l = choose|l: int| 0 <= l < pkeys.len() && #[trigger] pkeys@[l]@ == k;
                    }
                }
                assert forall|k: Seq<char>| #[trigger] t@.contains_key(k) implies t@[k] == r[k] by {
                    if pm.contains_key(k) {
                        let l = choose|l: int| 0 <= l < pkeys.len() && #[trigger] pkeys@[l]@ == k;
                    }
                }
                assert(t@ =~= r);
            }
            *target = Json::Object(t);
        },
        _ => {
            *target = patch.deep_copy();
        },
    }
}

impl DriftPatch {
    /// The patch that changes nothing.
    pub fn empty() -> (r: DriftPatch)
        ensures
            r@ == empty_object(),
    {
        DriftPatch { value: Json::empty_object() }
    }

    /// Wrap a merge patch given as a document.
    pub fn from_value(value: Json) -> (r: DriftPatch)
        ensures
            r@ == value@,
    {
        DriftPatch { value }
    }

    /// The patch as a document.
    pub fn as_value(&self) -> (r: &Json)
        ensures
            r@ == self@,
    {
        &self.value
    }

    /// Whether the patch is the empty object, which changes nothing.
    pub fn is_empty(&self) -> (r: bool)
        ensures
            r == (self@ == empty_object()),
    {
        match &self.value {
            Json::Object(o) => {
                let r = o.is_empty();
                proof {
                    if r {
                        assert(o@ =~= Map::<Seq<char>, JsonValue>::empty());
                    } else {
                        assert(o@.dom() != Map::<Seq<char>, JsonValue>::empty().dom());
                    }
                }
                r
            },
            _ => false,
        }
    }

    /// The drift that turns `before` into `after`.
    pub fn between(before: &Json, after: &Json) -> (r: DriftPatch)
        ensures
            r@ == merge_diff(before@, after@),
    {
        DriftPatch { value: diff(before, after) }
    }

    /// Apply this patch to `target`.
    pub fn apply_to(&self, target: &mut Json)
        ensures
            final(target)@ == merge_apply(old(target)@, self@),
    {
        merge_into(target, &self.value)
    }

    /// A copy of this patch.
    pub fn duplicate(&self) -> (r: DriftPatch)
        ensures
            r@ == self@,
    {
        DriftPatch { value: self.value.deep_copy() }
    }
}

/// One drift report: when it was observed, and the drift.
#[derive(Debug)]
pub struct DriftEntry {
    applied_at: String,
    drift: DriftPatch,
}

impl View for DriftEntry {
    type V = (Seq<char>, JsonValue);

    closed spec fn view(&self) -> (Seq<char>, JsonValue) {
        (self.applied_at@, self.drift@)
    }
}

impl DriftEntry {
    pub fn new(applied_at: String, drift: DriftPatch) -> (r: DriftEntry)
        ensures
            r@ == (applied_at@, drift@),
    {
        DriftEntry { applied_at, drift }
    }

    pub fn applied_at(&self) -> (r: &str)
        ensures
            r@ == self@.0,
    {
        self.applied_at.as_str()
    }

    pub fn drift(&self) -> (r: &DriftPatch)
        ensures
            r@ == self@.1,
    {
        &self.drift
    }
}

/// How a drift report is written in the journal.
pub open spec fn entry_json(entry: (Seq<char>, JsonValue)) -> JsonValue {
    JsonValue::Object(
        Map::empty().insert("applied_at"@, JsonValue::String(entry.0)).insert("drift"@, entry.1),
    )
}

/// How a journal is written.
pub open spec fn journal_json(entries: Seq<(Seq<char>, JsonValue)>) -> JsonValue {
    JsonValue::Object(
        Map::empty().insert("schema"@, JsonValue::Number("1"@)).insert(
            "entries"@,
            JsonValue::Array(entries.map_values(|e: (Seq<char>, JsonValue)| entry_json(e))),
        ),
    )
}

/// The drift report a document stands for: an object with a string
/// `applied_at` and a `drift` member.
pub open spec fn parse_entry(v: JsonValue) -> Option<(Seq<char>, JsonValue)> {
    match v {
        JsonValue::Object(m) => if m.contains_key("applied_at"@) && m["applied_at"@] is String
            && m.contains_key("drift"@) {
            Some((m["applied_at"@]->String_0, m["drift"@]))
        } else {
            None
        },
        _ => None,
    }
}

pub open spec fn parse_entries(items: Seq<JsonValue>) -> Option<Seq<(Seq<char>, JsonValue)>>
    decreases items.len(),
{
    if items.len() == 0 {
        Some(Seq::empty())
    } else {
        match (parse_entries(items.drop_last()), parse_entry(items.last())) {
            (Some(front), Some(e)) => Some(front.push(e)),
            _ => None,
        }
    }
}

/// The entries a journal document stands for: the current shape
/// `{ "schema": 1, "entries": [...] }`, or an older single report
/// `{ "applied_at": ..., "drift": ... }` read as a journal of one.
pub open spec fn parse_journal(v: JsonValue) -> Option<Seq<(Seq<char>, JsonValue)>> {
    match v {
        JsonValue::Object(m) => if m.contains_key("schema"@) {
            if m["schema"@] == JsonValue::Number("1"@) && m.contains_key("entries"@)
                && m["entries"@] is Array {
                parse_entries(m["entries"@]->Array_0)
            } else {
                None
            }
        } else {
            match parse_entry(v) {
                Some(e) => Some(seq![e]),
                None => None,
            }
        },
        _ => None,
    }
}

/// Why a document is not a journal.
pub open spec fn journal_refusal(v: JsonValue) -> Seq<char> {
    match v {
        JsonValue::Object(m) => if !m.contains_key("schema"@) {
            "neither a drift journal nor a legacy drift report"@
        } else if m["schema"@] != JsonValue::Number("1"@) {
            "unsupported drift journal schema"@
        } else if !(m.contains_key("entries"@) && m["entries"@] is Array) {
            "drift journal entries must be an array"@
        } else {
            "malformed drift journal entry"@
        },
        _ => "neither a drift journal nor a legacy drift report"@,
    }
}

/// The entries a journal file holds: none when there is no file, else what
/// its text reads as (`None` when that is not a journal).
pub open spec fn journal_read(text: Option<&str>) -> Option<Seq<(Seq<char>, JsonValue)>> {
    match text {
        None => Some(Seq::empty()),
        Some(t) => match json_reading(t@) {
            Ok(v) => parse_journal(v),
            Err(_) => None,
        },
    }
}

/// The entries kept after appending one: the newest `MAX_ENTRIES`.
pub open spec fn appended(
    entries: Seq<(Seq<char>, JsonValue)>,
    entry: (Seq<char>, JsonValue),
) -> Seq<(Seq<char>, JsonValue)> {
    let all = entries.push(entry);
    if all.len() > DriftJournal::MAX_ENTRIES {
        all.subrange(all.len() - DriftJournal::MAX_ENTRIES, all.len() as int)
    } else {
        all
    }
}

/// Appending keeps the newest reports, at most `MAX_ENTRIES` of them, in
/// order, ending with the new one: below the limit nothing is dropped, and
/// at the limit exactly the oldest one is.
pub proof fn lemma_append_keeps_newest(
    entries: Seq<(Seq<char>, JsonValue)>,
    entry: (Seq<char>, JsonValue),
)
    ensures
        appended(entries, entry).len() == if entries.len() + 1 > DriftJournal::MAX_ENTRIES {
            DriftJournal::MAX_ENTRIES as int
        } else {
            entries.len() + 1 as int
        },
        appended(entries, entry).last() == entry,
        forall|j: int|
            0 <= j < appended(entries, entry).len() ==> #[trigger] appended(entries, entry)[j]
                == entries.push(entry)[entries.len() + 1 - appended(entries, entry).len() + j],
{
}

/// The latest drift reports for one managed file, oldest first.
#[derive(Debug)]
pub struct DriftJournal {
    entries: Vec<DriftEntry>,
}

impl View for DriftJournal {
    type V = Seq<(Seq<char>, JsonValue)>;

    closed spec fn view(&self) -> Seq<(Seq<char>, JsonValue)> {
        self.entries@.map_values(|e: DriftEntry| e@)
    }
}

impl DriftJournal {
    /// How many reports a journal keeps.
    pub const MAX_ENTRIES: usize = 30;

    pub fn empty() -> (r: DriftJournal)
        ensures
            r@ == Seq::<(Seq<char>, JsonValue)>::empty(),
    {
        let r = DriftJournal { entries: Vec::new() };
        assert(r@ =~= Seq::<(Seq<char>, JsonValue)>::empty());
        r
    }

    pub fn is_empty(&self) -> (r: bool)
        ensures
            r == (self@.len() == 0),
    {
        self.entries.len() == 0
    }

    pub fn entries(&self) -> (r: &Vec<DriftEntry>)
        ensures
            r@.map_values(|e: DriftEntry| e@) == self@,
    {
        &self.entries
    }

    /// Add a report, dropping the oldest ones beyond `MAX_ENTRIES`.
    pub fn append(&mut self, entry: DriftEntry)
        ensures
            final(self)@ == appended(old(self)@, entry@),
            final(self)@.len() == if old(self)@.len() + 1 > DriftJournal::MAX_ENTRIES {
                DriftJournal::MAX_ENTRIES as int
            } else {
                old(self)@.len() + 1 as int
            },
            final(self)@.last() == entry@,
            forall|j: int|
                0 <= j < final(self)@.len() ==> #[trigger] final(self)@[j] == old(self)@.push(
                    entry@,
                )[old(self)@.len() + 1 - final(self)@.len() + j],
    {
        proof {
            lemma_append_keeps_newest(old(self)@, entry@);
        }
        let ghost e = entry@;
        self.entries.push(entry);
        let ghost all = self.entries@;
        proof {
            assert(all.map_values(|x: DriftEntry| x@) =~= old(self)@.push(e));
            assert(all.subrange(0, all.len() as int) =~= all);
        }
        while self.entries.len() > DriftJournal::MAX_ENTRIES
            invariant
                self.entries.len() <= all.len(),
                self.entries.len() >= (if all.len() > DriftJournal::MAX_ENTRIES {
                    DriftJournal::MAX_ENTRIES as int
                } else {
                    all.len() as int
                }),
                self.entries@ == all.subrange(all.len() - self.entries.len(), all.len() as int),
                all.map_values(|x: DriftEntry| x@) == old(self)@.push(e),
            decreases self.entries.len(),
        {
            self.entries.remove(0);
            proof {
                assert(self.entries@ =~= all.subrange(all.len() - self.entries.len(), all.len() as int));
            }
        }
        proof {
            assert(self@ =~= appended(old(self)@, e));
        }
    }

    /// The journal as a document.
    pub fn to_value(&self) -> (r: Json)
        ensures
            r@ == journal_json(self@),
    {
        let mut items: Vec<Json> = Vec::new();
        let mut i: usize = 0;
        while i < self.entries.len()
            invariant
                i <= self.entries.len(),
                items.len() == i,
                forall|j: int|
                    0 <= j < i ==> #[trigger] items@[j]@ == entry_json(self.entries@[j]@),
            decreases self.entries.len() - i,
        {
            let entry = &self.entries[i];
            let mut o = JsonObject::new();
            o.insert("applied_at".to_owned(), Json::String(entry.applied_at.clone()));
            o.insert("drift".to_owned(), entry.drift.value.deep_copy());
            proof {
                assert(o@ =~= entry_json(entry@)->Object_0);
            }
            items.push(Json::Object(o));
            i = i + 1;
        }
        let entries = Json::array(items);
        let mut root = JsonObject::new();
        root.insert("schema".to_owned(), Json::number("1"));
        root.insert("entries".to_owned(), entries);
        proof {
            assert(entries@->Array_0 =~= self@.map_values(
                |e: (Seq<char>, JsonValue)| entry_json(e),
            ));
            assert(root@ =~= journal_json(self@)->Object_0);
        }
        Json::Object(root)
    }

    /// Read a journal document. `source_path` names where it came from in
    /// the error.
    pub fn from_value(value: &Json, source_path: &str) -> (r: Result<DriftJournal, Error>)
        ensures
            match parse_journal(value@) {
                Some(entries) => r matches Ok(j) && j@ == entries,
                None => r matches Err(Error::DriftParse { source_path: p, reason: q }) && p@
                    == source_path@ && q@ == journal_refusal(value@),
            },
    {
        let fail = Err(Error::DriftParse {
            source_path: source_path.to_owned(),
            reason: "neither a drift journal nor a legacy drift report".to_owned(),
        });
        let object = match value.as_object() {
            Some(o) => o,
            None => {
                return fail;
            },
        };
        match object.get("schema") {
            Some(schema) => {
                let is_one = match schema {
                    Json::Number(text) => text.as_str().to_owned() == "1".to_owned(),
                    _ => false,
                };
                proof {
                    reveal_strlit("1");
                }
                if !is_one {
                    return Err(Error::DriftParse {
                        source_path: source_path.to_owned(),
                        reason: "unsupported drift journal schema".to_owned(),
                    });
                }
                match object.get("entries") {
                    Some(Json::Array(items)) => {
                        let mut entries: Vec<DriftEntry> = Vec::new();
                        let mut i: usize = 0;
                        proof {
                            crate::json::lemma_items_view(items@);
                        }
                        let ghost views = object@["entries"@]->Array_0;
                        proof {
                            assert(parse_journal(value@) == parse_entries(views));
                        }
                        while i < items.len()
                            invariant
                                i <= items.len(),
                                views.len() == items.len(),
                                parse_journal(value@) == parse_entries(views),
                                journal_refusal(value@) == "malformed drift journal entry"@,
                                forall|j: int| 0 <= j < items.len() ==> #[trigger] views[j] == items@[j]@,
                                parse_entries(views.subrange(0, i as int)) == Some(
                                    entries@.map_values(|e: DriftEntry| e@),
                                ),
                            decreases items.len() - i,
                        {
                            proof {
                                assert(views.subrange(0, i + 1).drop_last() =~= views.subrange(
                                    0,
                                    i as int,
                                ));
                            }
                            match entry_from_value(&items[i]) {
                                Some(entry) => {
                                    let ghost before = entries@;
                                    entries.push(entry);
                                    proof {
                                        assert(entries@.map_values(|e: DriftEntry| e@) =~= before.map_values(
                                            |e: DriftEntry| e@,
                                        ).push(entry@));
                                    }
                                },
                                None => {
                                    proof {
                                        assert(views.subrange(0, i + 1).last() == views[i as int]);
                                        assert(parse_entry(views[i as int]) is None);
                                        assert(parse_entries(views.subrange(0, i + 1)) is None);
                                        lemma_parse_entries_prefix(views, i + 1);
                                    }
                                    return Err(Error::DriftParse {
                                        source_path: source_path.to_owned(),
                                        reason: "malformed drift journal entry".to_owned(),
                                    });
                                },
                            }
                            i = i + 1;
                        }
                        proof {
                            assert(views.subrange(0, items.len() as int) =~= views);
                        }
                        Ok(DriftJournal { entries })
                    },
                    _ => Err(Error::DriftParse {
                        source_path: source_path.to_owned(),
                        reason: "drift journal entries must be an array".to_owned(),
                    }),
                }
            },
            None => {
                match entry_from_value(value) {
                    Some(entry) => {
                        let mut entries: Vec<DriftEntry> = Vec::new();
                        entries.push(entry);
                        let j = DriftJournal { entries };
                        proof {
                            assert(j@ =~= seq![entry@]);
                        }
                        Ok(j)
                    },
                    None => fail,
                }
            },
        }
    }

    /// Read a journal from its file's JSON text. `source_path` names where
    /// it came from; text that is not JSON is refused with the parser's
    /// message.
    pub fn from_text(text: &str, source_path: &str) -> (r: Result<DriftJournal, Error>)
        ensures
            match json_reading(text@) {
                Err(message) => r matches Err(Error::DriftParse { source_path: p, reason: q }) && p@
                    == source_path@ && q@ == message,
                Ok(v) => match parse_journal(v) {
                    Some(entries) => r matches Ok(j) && j@ == entries,
                    None => r matches Err(Error::DriftParse { source_path: p, reason: q }) && p@
                        == source_path@ && q@ == journal_refusal(v),
                },
            },
    {
        match read_json(text) {
            Ok(value) => DriftJournal::from_value(&value, source_path),
            Err(message) => Err(Error::DriftParse { source_path: source_path.to_owned(), reason: message }),
        }
    }

    /// Read a journal from JSON text that came from no file.
    pub fn from_text_for_test(text: &str) -> (r: Result<DriftJournal, Error>)
        ensures
            match json_reading(text@) {
                Err(message) => r matches Err(Error::DriftParse { source_path: p, reason: q }) && p@
                    == "<test>"@ && q@ == message,
                Ok(v) => match parse_journal(v) {
                    Some(entries) => r matches Ok(j) && j@ == entries,
                    None => r matches Err(Error::DriftParse { source_path: p, reason: q }) && p@
                        == "<test>"@ && q@ == journal_refusal(v),
                },
            },
    {
        DriftJournal::from_text(text, "<test>")
    }

    /// The journal file's new text after adding `entry`: the journal read
    /// from `text` (an empty one when there is no file yet), with `entry`
    /// appended, rendered. `path` names the file in the error.
    pub fn record(text: Option<&str>, path: &str, entry: DriftEntry) -> (r: Result<String, Error>)
        ensures
            match journal_read(text) {
                Some(entries) => match json_rendering(journal_json(appended(entries, entry@))) {
                    Ok(rendered) => r matches Ok(t) && t@ == rendered + "\n"@,
                    Err(message) => r matches Err(Error::DriftWrite { destination_path: p, reason: q })
                        && p@ == path@ && q@ == "serialize: "@ + message,
                },
                None => r matches Err(Error::DriftParse { source_path: p, reason: q }) && p@ == path@
                    && (text matches Some(t) && match json_reading(t@) {
                    Err(m) => q@ == m,
                    Ok(v) => q@ == journal_refusal(v),
                }),
            },
    {
        let mut journal = match text {
            Some(t) => match DriftJournal::from_text(t, path) {
                Ok(j) => j,
                Err(e) => {
                    return Err(e);
                },
            },
            None => DriftJournal::empty(),
        };
        journal.append(entry);
        journal.render(path)
    }

    /// The text of the journal file: the document pretty-printed, and a
    /// closing newline. `destination_path` names the file in the error.
    pub fn render(&self, destination_path: &str) -> (r: Result<String, Error>)
        ensures
            match json_rendering(journal_json(self@)) {
                Ok(text) => r matches Ok(t) && t@ == text + "\n"@,
                Err(message) => r matches Err(Error::DriftWrite { destination_path: p, reason: q })
                    && p@ == destination_path@ && q@ == "serialize: "@ + message,
            },
    {
        let document = self.to_value();
        match render_json(&document) {
            Ok(text) => Ok(text.concat("\n")),
            Err(message) => Err(
                Error::DriftWrite {
                    destination_path: destination_path.to_owned(),
                    reason: "serialize: ".to_owned().concat(message.as_str()),
                },
            ),
        }
    }
}

impl DriftEntry {
    /// A copy of this report.
    pub fn duplicate(&self) -> (r: DriftEntry)
        ensures
            r@ == self@,
    {
        DriftEntry { applied_at: self.applied_at.clone(), drift: self.drift.duplicate() }
    }
}

proof fn lemma_parse_entries_prefix(items: Seq<JsonValue>, k: int)
    requires
        0 <= k <= items.len(),
        parse_entries(items.subrange(0, k)) is None,
    ensures
        parse_entries(items) is None,
    decreases items.len() - k,
{
    if k < items.len() {
        assert(items.subrange(0, k + 1).drop_last() =~= items.subrange(0, k));
        lemma_parse_entries_prefix(items, k + 1);
    } else {
        assert(items.subrange(0, k) =~= items);
    }
}

/// Read one drift report from a document.
fn entry_from_value(value: &Json) -> (r: Option<DriftEntry>)
    ensures
        match parse_entry(value@) {
            Some(e) => r matches Some(entry) && entry@ == e,
            None => r is None,
        },
{
    let object = match value.as_object() {
        Some(o) => o,
        None => {
            return None;
        },
    };
    let applied_at = match object.get("applied_at") {
        Some(Json::String(s)) => s.clone(),
        _ => {
            return None;
        },
    };
    match object.get("drift") {
        Some(drift) => Some(DriftEntry::new(applied_at, DriftPatch::from_value(drift.deep_copy()))),
        None => None,
    }
}

/// Reading back a written journal gives the same journal.
pub proof fn lemma_journal_round_trip(entries: Seq<(Seq<char>, JsonValue)>)
    ensures
        parse_journal(journal_json(entries)) == Some(entries),
{
    reveal_strlit("schema");
    reveal_strlit("entries");
    reveal_strlit("applied_at");
    reveal_strlit("drift");
    assert("schema"@.len() != "entries"@.len());
    let items = entries.map_values(|e: (Seq<char>, JsonValue)| entry_json(e));
    lemma_parse_entries_of_written(entries);
    assert(journal_json(entries)->Object_0["entries"@]->Array_0 == items);
}

proof fn lemma_parse_entries_of_written(entries: Seq<(Seq<char>, JsonValue)>)
    ensures
        parse_entries(entries.map_values(|e: (Seq<char>, JsonValue)| entry_json(e))) == Some(entries),
    decreases entries.len(),
{
    reveal_strlit("applied_at");
    reveal_strlit("drift");
    assert("applied_at"@.len() != "drift"@.len());
    let items = entries.map_values(|e: (Seq<char>, JsonValue)| entry_json(e));
    if entries.len() > 0 {
        lemma_parse_entries_of_written(entries.drop_last());
        assert(items.drop_last() =~= entries.drop_last().map_values(
            |e: (Seq<char>, JsonValue)| entry_json(e),
        ));
        let last = entries.last();
        assert(entry_json(last)->Object_0["applied_at"@] == JsonValue::String(last.0));
        assert(parse_entry(items.last()) == Some(last));
        assert(entries =~= entries.drop_last().push(last));
    } else {
        assert(items =~= Seq::<JsonValue>::empty());
    }
}
} // verus!
