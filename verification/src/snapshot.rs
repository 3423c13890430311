//! The snapshot — what hexis last wrote, kept on disk as state.
//!
//! It holds the per-pointer applied markers (for `once` keys) and the
//! post-apply image of the live file (for `ensure` and `always` regions).
//! On disk:
//!
//! ```text
//! {
//!   "schema": 1,
//!   "applied_markers": {
//!     "/devtools/autoConnect": { "applied_at": "...", "value_when_applied": true }
//!   },
//!   "image": { ... }
//! }
//! ```
use vstd::prelude::*;

use crate::declared::{nearest_mode, Declared};
use crate::error::Error;
use crate::json::{Json, JsonObject, JsonValue};
use crate::pointer::{encode, lemma_pointer_text_round_trip, token_prefix, well_formed, JsonPointer};
use crate::drift::{lemma_observed_drift_replays, merge_apply, no_null_members, observed_drift, DriftPatch};
use crate::live::Live;
use crate::pointer_map::PointerMap;
use crate::syntax::{json_reading, json_rendering, read_json, render_json};
use crate::text_order::{
    lemma_text_less_asymmetric, lemma_text_less_total, lemma_text_less_transitive, text_less,
    text_precedes,
};
use crate::types::Mode;

verus! {

/// A "this `once` key has been applied" marker: when the value was
/// written, and what value.
#[derive(Debug)]
pub struct Marker {
    applied_at: String,
    value_when_applied: Json,
}

impl View for Marker {
    type V = (Seq<char>, JsonValue);

    closed spec fn view(&self) -> (Seq<char>, JsonValue) {
        (self.applied_at@, self.value_when_applied@)
    }
}

/// How a marker is written.
pub open spec fn marker_json(marker: (Seq<char>, JsonValue)) -> JsonValue {
    JsonValue::Object(
        Map::empty().insert("applied_at"@, JsonValue::String(marker.0)).insert(
            "value_when_applied"@,
            marker.1,
        ),
    )
}

/// The marker a document stands for: an object with a string
/// `applied_at` and a `value_when_applied` member.
pub open spec fn parse_marker(v: JsonValue) -> Option<(Seq<char>, JsonValue)> {
    match v {
        JsonValue::Object(m) => if m.contains_key("applied_at"@) && m["applied_at"@] is String
            && m.contains_key("value_when_applied"@) {
            Some((m["applied_at"@]->String_0, m["value_when_applied"@]))
        } else {
            None
        },
        _ => None,
    }
}

impl Marker {
    pub fn new(applied_at: String, value_when_applied: Json) -> (r: Marker)
        ensures
            r@ == (applied_at@, value_when_applied@),
    {
        Marker { applied_at, value_when_applied }
    }

    pub fn applied_at(&self) -> (r: &str)
        ensures
            r@ == self@.0,
    {
        self.applied_at.as_str()
    }

    pub fn value_when_applied(&self) -> (r: &Json)
        ensures
            r@ == self@.1,
    {
        &self.value_when_applied
    }

    /// The marker as a document.
    pub fn to_json(&self) -> (r: Json)
        ensures
            r@ == marker_json(self@),
    {
        let mut o = JsonObject::new();
        o.insert("applied_at".to_owned(), Json::String(self.applied_at.clone()));
        o.insert("value_when_applied".to_owned(), self.value_when_applied.deep_copy());
        proof {
            assert(o@ =~= marker_json(self@)->Object_0);
        }
        Json::Object(o)
    }

    /// Read a marker from a document.
    pub fn from_json(value: &Json) -> (r: Result<Marker, String>)
        ensures
            match parse_marker(value@) {
                Some(m) => r matches Ok(marker) && marker@ == m,
                None => r matches Err(reason) && reason@ == marker_refusal(value@),
            },
    {
        let object = match value.as_object() {
            Some(o) => o,
            None => {
                return Err("marker must be an object".to_owned());
            },
        };
        let applied_at = match object.get("applied_at") {
            Some(Json::String(s)) => s.clone(),
            _ => {
                return Err("marker.applied_at must be a string".to_owned());
            },
        };
        match object.get("value_when_applied") {
            Some(v) => Ok(Marker::new(applied_at, v.deep_copy())),
            None => Err("marker.value_when_applied required".to_owned()),
        }
    }

    /// A copy of this marker.
    pub fn duplicate(&self) -> (r: Marker)
        ensures
            r@ == self@,
    {
        Marker { applied_at: self.applied_at.clone(), value_when_applied: self.value_when_applied.deep_copy() }
    }
}

/// What a snapshot holds: markers by pointer, the post-apply image, and
/// where the snapshot lives.
pub struct SnapshotView {
    pub markers: Map<Seq<Seq<char>>, (Seq<char>, JsonValue)>,
    pub image: JsonValue,
    pub source_path: Seq<char>,
}

/// The marker table as written: keyed by pointer text.
pub open spec fn markers_json(markers: Map<Seq<Seq<char>>, (Seq<char>, JsonValue)>) -> Map<
    Seq<char>,
    JsonValue,
> {
    Map::new(
        |k: Seq<char>| exists|t: Seq<Seq<char>>| markers.contains_key(t) && encode(t) == k,
        |k: Seq<char>|
            marker_json(markers[choose|t: Seq<Seq<char>>| markers.contains_key(t) && encode(t) == k]),
    )
}

/// How a snapshot is written.
pub open spec fn snapshot_json(s: SnapshotView) -> JsonValue {
    JsonValue::Object(
        Map::empty().insert("schema"@, JsonValue::Number("1"@)).insert(
            "applied_markers"@,
            JsonValue::Object(markers_json(s.markers)),
        ).insert("image"@, s.image),
    )
}

/// The markers a written marker table stands for: every key must be
/// pointer text and every value a marker.
pub open spec fn parse_markers(m: Map<Seq<char>, JsonValue>) -> Option<
    Map<Seq<Seq<char>>, (Seq<char>, JsonValue)>,
> {
    if forall|k: Seq<char>|
        #[trigger] m.contains_key(k) ==> well_formed(k) && parse_marker(m[k]) is Some {
        Some(
            Map::new(
                |t: Seq<Seq<char>>| m.contains_key(encode(t)),
                |t: Seq<Seq<char>>| parse_marker(m[encode(t)])->Some_0,
            ),
        )
    } else {
        None
    }
}

/// The snapshot a document stands for: an object whose `schema` is 1,
/// with an optional marker table and an optional image (`null` when
/// absent).
pub open spec fn parse_snapshot(v: JsonValue, source_path: Seq<char>) -> Option<SnapshotView> {
    match v {
        JsonValue::Object(r) => if r.contains_key("schema"@) && r["schema"@] == JsonValue::Number(
            "1"@,
        ) {
            let markers = if r.contains_key("applied_markers"@) {
                match r["applied_markers"@] {
                    JsonValue::Object(m) => parse_markers(m),
                    _ => None,
                }
            } else {
                Some(Map::empty())
            };
            match markers {
                Some(ms) => Some(
                    SnapshotView {
                        markers: ms,
                        image: if r.contains_key("image"@) {
                            r["image"@]
                        } else {
                            JsonValue::Null
                        },
                        source_path,
                    },
                ),
                None => None,
            }
        } else {
            None
        },
        _ => None,
    }
}

/// Whether `t` is the text of a non-negative integer: digits only.
pub open spec fn is_digits(t: Seq<char>) -> bool {
    t.len() > 0 && forall|i: int| 0 <= i < t.len() ==> 48 <= #[trigger] (t[i] as int) <= 57
}

/// What `format!("{:?}", text)` renders: the text quoted, with escapes.
pub uninterp spec fn debug_text(text: Seq<char>) -> Seq<char>;

/// `text` quoted as Rust's `Debug` for `str` writes it.
#[verifier::external_body]
fn quoted(text: &str) -> (r: String)
    ensures
        r@ == debug_text(text@),
{
    format!("{text:?}")
}

/// Why a document is not a marker.
pub open spec fn marker_refusal(v: JsonValue) -> Seq<char> {
    match v {
        JsonValue::Object(m) => if !(m.contains_key("applied_at"@) && m["applied_at"@] is String) {
            "marker.applied_at must be a string"@
        } else {
            "marker.value_when_applied required"@
        },
        _ => "marker must be an object"@,
    }
}

/// Whether the member `k` of a marker table is bad: its key is not pointer
/// text, or its value is not a marker.
pub open spec fn bad_marker_entry(m: Map<Seq<char>, JsonValue>, k: Seq<char>) -> bool {
    m.contains_key(k) && (!well_formed(k) || parse_marker(m[k]) is None)
}

/// The bad member of a marker table that comes first in code-point order:
/// the one a sorted table meets first.
pub open spec fn least_bad_key(m: Map<Seq<char>, JsonValue>) -> Seq<char> {
    choose|k: Seq<char>|
        bad_marker_entry(m, k) && forall|k2: Seq<char>|
            bad_marker_entry(m, k2) ==> !text_less(k2, k)
}

/// Why one member of a marker table is bad: its key is not pointer text,
/// or its value is not a marker.
pub open spec fn entry_refusal(k: Seq<char>, v: JsonValue) -> Seq<char> {
    if !well_formed(k) {
        "invalid JSON pointer: "@ + k
    } else {
        marker_refusal(v)
    }
}

/// Why a marker table is refused: its first bad member, named.
pub open spec fn table_refusal(m: Map<Seq<char>, JsonValue>) -> Seq<char> {
    let k = least_bad_key(m);
    "applied_markers["@ + debug_text(k) + "]: "@ + entry_refusal(k, m[k])
}

/// Why a document is not a snapshot.
pub open spec fn snapshot_refusal(v: JsonValue) -> Seq<char> {
    match v {
        JsonValue::Object(r) => if !(r.contains_key("schema"@) && r["schema"@] is Number && is_digits(
            r["schema"@]->Number_0,
        )) {
            "missing or non-integer schema field"@
        } else if r["schema"@]->Number_0 != "1"@ {
            "schema = "@ + r["schema"@]->Number_0 + ", expected 1"@
        } else if r.contains_key("applied_markers"@) && !(r["applied_markers"@] is Object) {
            "applied_markers must be an object"@
        } else {
            table_refusal(r["applied_markers"@]->Object_0)
        },
        _ => "root must be an object"@,
    }
}

/// Whether `text` is digits only.
fn all_digits(text: &str) -> (r: bool)
    ensures
        r == is_digits(text@),
{
    let n = text.unicode_len();
    if n == 0 {
        return false;
    }
    let mut i: usize = 0;
    while i < n
        invariant
            n == text@.len(),
            i <= n,
            forall|j: int| 0 <= j < i ==> 48 <= #[trigger] (text@[j] as int) <= 57,
        decreases n - i,
    {
        let c = text.get_char(i);
        if (c as u32) < 48 || (c as u32) > 57 {
            return false;
        }
        i = i + 1;
    }
    true
}

/// Why `key`, a member of a marker table, is bad, where it is.
fn entry_problem(key: &str, value: &Json) -> (r: Option<String>)
    ensures
        match r {
            Some(m) => (!well_formed(key@) || parse_marker(value@) is None) && m@ == entry_refusal(
                key@,
                value@,
            ),
            None => well_formed(key@) && parse_marker(value@) is Some,
        },
{
    match JsonPointer::from_str(key) {
        Err(e) => Some(e.message()),
        Ok(_) => match Marker::from_json(value) {
            Err(reason) => Some(reason),
            Ok(_) => None,
        },
    }
}

/// The refusal of a marker table that has a bad member.
fn refuse_table(table: &JsonObject) -> (r: String)
    requires
        exists|k: Seq<char>| bad_marker_entry(table@, k),
    ensures
        r@ == table_refusal(table@),
{
    let ghost tm = table@;
    let keys = table.keys();
    let mut best: Option<usize> = None;
    let mut i: usize = 0;
    while i < keys.len()
        invariant
            i <= keys.len(),
            tm == table@,
            forall|l: int| 0 <= l < keys.len() ==> tm.contains_key(#[trigger] keys@[l]@),
            forall|k: Seq<char>|
                tm.contains_key(k) ==> exists|l: int| 0 <= l < keys.len() && #[trigger] keys@[l]@ == k,
            match best {
                None => forall|l: int| 0 <= l < i ==> !bad_marker_entry(tm, #[trigger] keys@[l]@),
                Some(b) => b < i && bad_marker_entry(tm, keys@[b as int]@) && forall|l: int|
                    0 <= l < i && bad_marker_entry(tm, #[trigger] keys@[l]@) ==> !text_less(
                        keys@[l]@,
                        keys@[b as int]@,
                    ),
            },
        decreases keys.len() - i,
    {
        let key = &keys[i];
        proof {
            assert(tm.contains_key(keys@[i as int]@));
        }
        let value = table.get(key.as_str()).unwrap();
        if entry_problem(key.as_str(), value).is_some() {
            match best {
                None => {
                    proof {
                        lemma_text_less_asymmetric(keys@[i as int]@, keys@[i as int]@);
                    }
                    best = Some(i);
                },
                Some(b) => {
                    if text_precedes(key.as_str(), keys[b].as_str()) {
                        proof {
                            let kn = keys@[i as int]@;
                            let kb = keys@[b as int]@;
                            assert forall|l: int|
                                0 <= l < i + 1 && bad_marker_entry(tm, #[trigger] keys@[l]@) implies !text_less(
                                keys@[l]@,
                                kn,
                            ) by {
                                let kl = keys@[l]@;
                                lemma_text_less_asymmetric(kn, kl);
                                lemma_text_less_transitive(kn, kb, kl);
                                lemma_text_less_total(kl, kb);
                                lemma_text_less_asymmetric(kn, kb);
                                lemma_text_less_asymmetric(kb, kl);
                            }
                        }
                        best = Some(i);
                    } else {
                        proof {
                            lemma_text_less_total(keys@[i as int]@, keys@[b as int]@);
                        }
                    }
                },
            }
        }
        i = i + 1;
    }
    let b = match best {
        Some(b) => b,
        None => {
            proof {
                let k = choose|k: Seq<char>| bad_marker_entry(table@, k);
                let l = choose|l: int| 0 <= l < keys.len() && #[trigger] keys@[l]@ == k;
                assert(bad_marker_entry(tm, keys@[l]@));
            }
            0
        },
    };
    let key = &keys[b];
    proof {
        let kb = keys@[b as int]@;
        assert forall|k2: Seq<char>| bad_marker_entry(tm, k2) implies !text_less(k2, kb) by {
            let l = choose|l: int| 0 <= l < keys.len() && #[trigger] keys@[l]@ == k2;
            assert(bad_marker_entry(tm, keys@[l]@));
        }
        let c = least_bad_key(tm);
        assert(bad_marker_entry(tm, c) && forall|k2: Seq<char>|
            bad_marker_entry(tm, k2) ==> !text_less(k2, c));
        lemma_text_less_total(c, kb);
        assert(c == kb);
        assert(tm.contains_key(kb));
    }
    let value = table.get(key.as_str()).unwrap();
    let problem = entry_problem(key.as_str(), value).unwrap();
    "applied_markers[".to_owned().concat(quoted(key.as_str()).as_str()).concat("]: ").concat(
        problem.as_str(),
    )
}

/// The markers that still govern a `once` key under `modes`: those whose
/// pointer's nearest listed mode is `once`.
pub open spec fn once_markers(
    markers: Map<Seq<Seq<char>>, (Seq<char>, JsonValue)>,
    modes: Map<Seq<Seq<char>>, Mode>,
) -> Map<Seq<Seq<char>>, (Seq<char>, JsonValue)> {
    markers.restrict(markers.dom().filter(|q: Seq<Seq<char>>| nearest_mode(modes, q) == Mode::Once))
}

#[derive(Debug)]
pub struct Snapshot {
    markers: PointerMap<Marker>,
    image: Json,
    source_path: String,
}

impl View for Snapshot {
    type V = SnapshotView;

    closed spec fn view(&self) -> SnapshotView {
        SnapshotView { markers: self.markers@, image: self.image@, source_path: self.source_path@ }
    }
}

impl Snapshot {
    /// An empty snapshot: no markers, `null` image.
    pub fn empty(source_path: String) -> (r: Snapshot)
        ensures
            r@.markers == Map::<Seq<Seq<char>>, (Seq<char>, JsonValue)>::empty(),
            r@.image == JsonValue::Null,
            r@.source_path == source_path@,
    {
        Snapshot { markers: PointerMap::new(), image: Json::Null, source_path }
    }

    /// The marker recorded at `pointer`.
    pub fn marker(&self, pointer: &JsonPointer) -> (r: Option<&Marker>)
        ensures
            r is Some == self@.markers.contains_key(pointer@),
            r matches Some(m) ==> m@ == self@.markers[pointer@],
    {
        self.markers.get(pointer)
    }

    /// Record a marker at `pointer`.
    pub fn set_marker(&mut self, pointer: JsonPointer, marker: Marker)
        ensures
            final(self)@.markers == old(self)@.markers.insert(pointer@, marker@),
            final(self)@.image == old(self)@.image,
            final(self)@.source_path == old(self)@.source_path,
    {
        self.markers.insert(pointer, marker);
    }

    /// Drop every marker whose pointer `declared` no longer governs as
    /// `once`: a key whose mode moved away from `once` is reset, so that a
    /// later move back to `once` seeds it again.
    pub fn keep_once_markers(&mut self, declared: &Declared)
        ensures
            final(self)@.markers == once_markers(old(self)@.markers, declared@.modes),
            final(self)@.image == old(self)@.image,
            final(self)@.source_path == old(self)@.source_path,
    {
        let n = self.markers.len();
        let ghost ms = self.markers@;
        let ghost modes = declared@.modes;
        let mut kept: PointerMap<Marker> = PointerMap::new();
        let mut i: usize = 0;
        while i < n
            invariant
                n == self.markers.size(),
                i <= n,
                ms == self.markers@,
                modes == declared@.modes,
                forall|j: int| 0 <= j < n ==> ms.contains_key(#[trigger] self.markers.pointer_at(j)),
                forall|j: int| 0 <= j < n ==> #[trigger] ms[self.markers.pointer_at(j)] == self.markers.value_at(j),
                forall|k: Seq<Seq<char>>|
                    #[trigger] ms.contains_key(k) ==> exists|j: int| 0 <= j < n && self.markers.pointer_at(j) == k,
                forall|k: Seq<Seq<char>>|
                    #[trigger] kept@.contains_key(k) <==> exists|j: int|
                        0 <= j < i && self.markers.pointer_at(j) == k && nearest_mode(modes, k) == Mode::Once,
                forall|k: Seq<Seq<char>>| #[trigger] kept@.contains_key(k) ==> kept@[k] == ms[k],
            decreases n - i,
        {
            let pointer = self.markers.pointer(i);
            if declared.mode_at(pointer) == Mode::Once {
                let marker = self.markers.value(i).duplicate();
                kept.insert(pointer.duplicate(), marker);
            }
            proof {
                let t = self.markers.pointer_at(i as int);
                assert forall|k: Seq<Seq<char>>| #[trigger] kept@.contains_key(k) <==> exists|j: int|
                    0 <= j < i + 1 && self.markers.pointer_at(j) == k && nearest_mode(modes, k)
                        == Mode::Once by {
                    if k == t && nearest_mode(modes, k) == Mode::Once {
                        assert(self.markers.pointer_at(i as int) == k);
                    }
                }
            }
            i = i + 1;
        }
        proof {
            let target = once_markers(ms, modes);
            assert forall|k: Seq<Seq<char>>| #[trigger] kept@.contains_key(k) == target.contains_key(k) by {
                if target.contains_key(k) {
                    let j = choose|j: int| 0 <= j < n && self.markers.pointer_at(j) == k;
                    assert(0 <= j < n && self.markers.pointer_at(j) == k && nearest_mode(modes, k) == Mode::Once);
                }
                if kept@.contains_key(k) {
                    let j = choose|j: int|
                        0 <= j < n && self.markers.pointer_at(j) == k && nearest_mode(modes, k) == Mode::Once;
                    assert(ms.contains_key(self.markers.pointer_at(j)));
                }
            }
            assert(kept@ =~= target);
        }
        self.markers = kept;
    }

    /// Drop all markers at or under `root`: used when a pointer's mode
    /// moves away from `once`.
    pub fn clear_subtree(&mut self, root: &JsonPointer)
        ensures
            final(self)@.markers == old(self)@.markers.restrict(
                old(self)@.markers.dom().filter(|k: Seq<Seq<char>>| !token_prefix(root@, k)),
            ),
            final(self)@.image == old(self)@.image,
            final(self)@.source_path == old(self)@.source_path,
    {
        self.markers.remove_subtree(root);
    }

    pub fn image(&self) -> (r: &Json)
        ensures
            r@ == self@.image,
    {
        &self.image
    }

    pub fn set_image(&mut self, image: Json)
        ensures
            final(self)@.image == image@,
            final(self)@.markers == old(self)@.markers,
            final(self)@.source_path == old(self)@.source_path,
    {
        self.image = image;
    }

    pub fn source_path(&self) -> (r: &str)
        ensures
            r@ == self@.source_path,
    {
        self.source_path.as_str()
    }

    /// The snapshot as a document.
    pub fn to_value(&self) -> (r: Json)
        ensures
            r@ == snapshot_json(self@),
    {
        let n = self.markers.len();
        let mut table = JsonObject::new();
        let mut i: usize = 0;
        let ghost ms = self.markers@;
        while i < n
            invariant
                n == self.markers.size(),
                i <= n,
                ms == self.markers@,
                forall|j: int| 0 <= j < n ==> ms.contains_key(#[trigger] self.markers.pointer_at(j)),
                forall|j: int| 0 <= j < n ==> #[trigger] ms[self.markers.pointer_at(j)] == self.markers.value_at(j),
                forall|a: int, b: int|
                    0 <= a < b < n ==> self.markers.pointer_at(a) != self.markers.pointer_at(b),
                forall|k: Seq<char>|
                    #[trigger] table@.contains_key(k) <==> exists|j: int|
                        0 <= j < i && encode(self.markers.pointer_at(j)) == k,
                forall|j: int|
                    0 <= j < i ==> #[trigger] table@[encode(self.markers.pointer_at(j))] == marker_json(
                        self.markers.value_at(j),
                    ),
            decreases n - i,
        {
            let pointer = self.markers.pointer(i);
            let marker = self.markers.value(i);
            let ghost t = self.markers.pointer_at(i as int);
            table.insert(pointer.to_string(), marker.to_json());
            proof {
                assert forall|j: int| 0 <= j < i + 1 implies #[trigger] table@[encode(
                    self.markers.pointer_at(j),
                )] == marker_json(self.markers.value_at(j)) by {
                    if j < i {
                        lemma_pointer_text_round_trip(self.markers.pointer_at(j), t);
                    }
                }
                assert forall|k: Seq<char>| #[trigger] table@.contains_key(k) implies exists|j: int|
                    0 <= j < i + 1 && encode(self.markers.pointer_at(j)) == k by {
                    if k == encode(t) {
                        assert(encode(self.markers.pointer_at(i as int)) == k);
                    }
                }
            }
            i = i + 1;
        }
        proof {
            let target = markers_json(ms);
            assert forall|k: Seq<char>| #[trigger] table@.contains_key(k) == target.contains_key(k) by {
                if table@.contains_key(k) {
                    let j = choose|j: int| 0 <= j < n && encode(self.markers.pointer_at(j)) == k;
                    assert(ms.contains_key(self.markers.pointer_at(j)));
                }
                if target.contains_key(k) {
                    let t = choose|t: Seq<Seq<char>>| ms.contains_key(t) && encode(t) == k;
                    let j = choose|j: int| 0 <= j < n && self.markers.pointer_at(j) == t;
                    assert(encode(self.markers.pointer_at(j)) == k);
                }
            }
            assert forall|k: Seq<char>| #[trigger] table@.contains_key(k) implies table@[k] == target[k] by {
                let j = choose|j: int| 0 <= j < n && encode(self.markers.pointer_at(j)) == k;
                let t = choose|t: Seq<Seq<char>>| ms.contains_key(t) && encode(t) == k;
                lemma_pointer_text_round_trip(t, self.markers.pointer_at(j));
            }
            assert(table@ =~= target);
        }
        let mut root = JsonObject::new();
        root.insert("schema".to_owned(), Json::number("1"));
        root.insert("applied_markers".to_owned(), Json::Object(table));
        root.insert("image".to_owned(), self.image.deep_copy());
        proof {
            assert(root@ =~= snapshot_json(self@)->Object_0);
        }
        Json::Object(root)
    }

    /// Read a snapshot document. `source_path` is where it came from.
    pub fn from_value(value: &Json, source_path: String) -> (r: Result<Snapshot, Error>)
        ensures
            match parse_snapshot(value@, source_path@) {
                Some(s) => r matches Ok(snapshot) && snapshot@ == s,
                None => r matches Err(Error::SnapshotParse { source_path: p, reason: q }) && p@
                    == source_path@ && q@ == snapshot_refusal(value@),
            },
    {
        let object = match value.as_object() {
            Some(o) => o,
            None => {
                return Err(Error::SnapshotParse {
                    source_path,
                    reason: "root must be an object".to_owned(),
                });
            },
        };
        match object.get("schema") {
            Some(Json::Number(text)) => {
                proof {
                    assert(object@["schema"@] == JsonValue::Number(text@));
                    reveal_strlit("1");
                    assert(is_digits("1"@));
                }
                if !all_digits(text.as_str()) {
                    return Err(Error::SnapshotParse {
                        source_path,
                        reason: "missing or non-integer schema field".to_owned(),
                    });
                }
                if !(text.as_str().to_owned() == "1".to_owned()) {
                    return Err(Error::SnapshotParse {
                        source_path,
                        reason: "schema = ".to_owned().concat(text.as_str()).concat(", expected 1"),
                    });
                }
            },
            _ => {
                return Err(Error::SnapshotParse {
                    source_path,
                    reason: "missing or non-integer schema field".to_owned(),
                });
            },
        }
        let mut markers: PointerMap<Marker> = PointerMap::new();
        match object.get("applied_markers") {
            Some(table_value) => {
                let table = match table_value.as_object() {
                    Some(t) => t,
                    None => {
                        return Err(Error::SnapshotParse {
                            source_path,
                            reason: "applied_markers must be an object".to_owned(),
                        });
                    },
                };
                let ghost tm = table@;
                let keys = table.keys();
                let mut i: usize = 0;
                proof {
                    assert(snapshot_refusal(value@) == table_refusal(tm));
                }
                while i < keys.len()
                    invariant
                        i <= keys.len(),
                        tm == table@,
                        snapshot_refusal(value@) == table_refusal(tm),
                        parse_snapshot(value@, source_path@) == (match parse_markers(tm) {
                            Some(ms) => Some(
                                SnapshotView {
                                    markers: ms,
                                    image: if object@.contains_key("image"@) {
                                        object@["image"@]
                                    } else {
                                        JsonValue::Null
                                    },
                                    source_path: source_path@,
                                },
                            ),
                            None => None,
                        }),
                        forall|l: int| 0 <= l < keys.len() ==> tm.contains_key(#[trigger] keys@[l]@),
                        forall|k: Seq<char>|
                            tm.contains_key(k) ==> exists|l: int| 0 <= l < keys.len() && #[trigger] keys@[l]@ == k,
                        forall|l: int, m: int| 0 <= l < m < keys.len() ==> keys@[l]@ != keys@[m]@,
                        forall|l: int|
                            0 <= l < i ==> well_formed(#[trigger] keys@[l]@) && parse_marker(tm[keys@[l]@]) is Some,
                        forall|t: Seq<Seq<char>>|
                            #[trigger] markers@.contains_key(t) <==> exists|l: int|
                                0 <= l < i && keys@[l]@ == encode(t),
                        forall|t: Seq<Seq<char>>|
                            #[trigger] markers@.contains_key(t) ==> markers@[t] == parse_marker(
                                tm[encode(t)],
                            )->Some_0,
                    decreases keys.len() - i,
                {
                    let key = &keys[i];
                    let ghost k = key@;
                    let pointer = match JsonPointer::from_str(key.as_str()) {
                        Ok(p) => p,
                        Err(_) => {
                            proof {
                                assert(bad_marker_entry(tm, keys@[i as int]@));
                            }
                            return Err(Error::SnapshotParse { source_path, reason: refuse_table(table) });
                        },
                    };
                    proof {
                        assert(tm.contains_key(keys@[i as int]@));
                    }
                    let marker = match Marker::from_json(table.get(key.as_str()).unwrap()) {
                        Ok(m) => m,
                        Err(_) => {
                            proof {
                                assert(bad_marker_entry(tm, keys@[i as int]@));
                            }
                            return Err(Error::SnapshotParse { source_path, reason: refuse_table(table) });
                        },
                    };
                    let ghost t = pointer@;
                    markers.insert(pointer, marker);
                    proof {
                        assert forall|tt: Seq<Seq<char>>| #[trigger] markers@.contains_key(tt) <==> exists|l: int|
                            0 <= l < i + 1 && keys@[l]@ == encode(tt) by {
                            if tt == t {
                                assert(keys@[i as int]@ == encode(tt));
                            } else if exists|l: int| 0 <= l < i + 1 && keys@[l]@ == encode(tt) {
                                let l = choose|l: int| 0 <= l < i + 1 && keys@[l]@ == encode(tt);
                                if l == i {
                                    lemma_pointer_text_round_trip(tt, t);
                                }
                            }
                        }
                        assert forall|tt: Seq<Seq<char>>| #[trigger] markers@.contains_key(tt) implies markers@[tt]
                            == parse_marker(tm[encode(tt)])->Some_0 by {
                            if tt == t {
                            }
                        }
                    }
                    i = i + 1;
                }
                proof {
                    assert forall|k: Seq<char>| #[trigger]
                        tm.contains_key(k) implies well_formed(k) && parse_marker(tm[k]) is Some by {
                        let l = choose|l: int| 0 <= l < keys.len() && #[trigger] keys@[l]@ == k;
                        assert(well_formed(keys@[l]@));
                    }
                    let ms = parse_markers(tm)->Some_0;
                    assert forall|t: Seq<Seq<char>>| #[trigger] markers@.contains_key(t) == ms.contains_key(t) by {
                        if ms.contains_key(t) {
                            let l = choose|l: int| 0 <= l < keys.len() && #[trigger] keys@[l]@ == encode(t);
                            assert(keys@[l]@ == encode(t));
                        }
                    }
                    assert(markers@ =~= ms);
                }
            },
            None => {
                proof {
                    assert(markers@ =~= Map::<Seq<Seq<char>>, (Seq<char>, JsonValue)>::empty());
                }
            },
        }
        let image = match object.get("image") {
            Some(v) => v.deep_copy(),
            None => Json::Null,
        };
        Ok(Snapshot { markers, image, source_path })
    }

    /// Read a snapshot from its file's JSON text. `source_path` is where it
    /// came from; text that is not JSON is refused with the parser's
    /// message.
    pub fn from_text(text: &str, source_path: String) -> (r: Result<Snapshot, Error>)
        ensures
            match json_reading(text@) {
                Err(message) => r matches Err(Error::SnapshotParse { source_path: p, reason: q })
                    && p@ == source_path@ && q@ == message,
                Ok(v) => match parse_snapshot(v, source_path@) {
                    Some(s) => r matches Ok(snapshot) && snapshot@ == s,
                    None => r matches Err(Error::SnapshotParse { source_path: p, reason: q }) && p@
                        == source_path@ && q@ == snapshot_refusal(v),
                },
            },
    {
        match read_json(text) {
            Ok(value) => Snapshot::from_value(&value, source_path),
            Err(message) => Err(Error::SnapshotParse { source_path, reason: message }),
        }
    }

    /// Read a snapshot from JSON text that came from no file.
    pub fn from_text_for_test(text: &str) -> (r: Result<Snapshot, Error>)
        ensures
            match json_reading(text@) {
                Err(message) => r matches Err(Error::SnapshotParse { source_path: p, reason: q })
                    && p@ == "<test>"@ && q@ == message,
                Ok(v) => match parse_snapshot(v, "<test>"@) {
                    Some(s) => r matches Ok(snapshot) && snapshot@ == s,
                    None => r matches Err(Error::SnapshotParse { source_path: p, reason: q }) && p@
                        == "<test>"@ && q@ == snapshot_refusal(v),
                },
            },
    {
        Snapshot::from_text(text, "<test>".to_owned())
    }

    /// The text of the snapshot file: the document pretty-printed, and a
    /// closing newline. `destination_path` names the file in the error.
    pub fn render(&self, destination_path: &str) -> (r: Result<String, Error>)
        ensures
            match json_rendering(snapshot_json(self@)) {
                Ok(text) => r matches Ok(t) && t@ == text + "\n"@,
                Err(message) => r matches Err(
                    Error::SnapshotWrite { destination_path: p, reason: q },
                ) && p@ == destination_path@ && q@ == "serialize: "@ + message,
            },
    {
        let document = self.to_value();
        match render_json(&document) {
            Ok(text) => Ok(text.concat("\n")),
            Err(message) => Err(
                Error::SnapshotWrite {
                    destination_path: destination_path.to_owned(),
                    reason: "serialize: ".to_owned().concat(message.as_str()),
                },
            ),
        }
    }

    /// The drift of `live` since this snapshot's image: none while there is
    /// no image yet, else the merge patch from the image to the live data.
    pub fn drift_against(&self, live: &Live) -> (r: DriftPatch)
        ensures
            r@ == observed_drift(self@.image, live@.data),
            !(self@.image is Null) && no_null_members(live@.data) ==> merge_apply(self@.image, r@)
                == live@.data,
    {
        proof {
            if !(self@.image is Null) && no_null_members(live@.data) {
                lemma_observed_drift_replays(self@.image, live@.data);
            }
        }
        if self.image.is_null() {
            DriftPatch::empty()
        } else {
            DriftPatch::between(&self.image, live.data())
        }
    }
}

/// Reading back a written snapshot gives the same snapshot.
pub proof fn lemma_snapshot_round_trip(s: SnapshotView)
    ensures
        parse_snapshot(snapshot_json(s), s.source_path) == Some(s),
{
    reveal_strlit("schema");
    reveal_strlit("applied_markers");
    reveal_strlit("image");
    reveal_strlit("applied_at");
    reveal_strlit("value_when_applied");
    assert("schema"@.len() != "applied_markers"@.len());
    assert("schema"@.len() != "image"@.len());
    assert("applied_markers"@.len() != "image"@.len());
    assert("applied_at"@.len() != "value_when_applied"@.len());
    let table = markers_json(s.markers);
    assert forall|k: Seq<char>| #[trigger] table.contains_key(k) implies well_formed(k) && parse_marker(
        table[k],
    ) is Some by {
        let t = choose|t: Seq<Seq<char>>| s.markers.contains_key(t) && encode(t) == k;
        lemma_pointer_text_round_trip(t, t);
    }
    let ms = parse_markers(table)->Some_0;
    assert forall|t: Seq<Seq<char>>| #[trigger] ms.contains_key(t) == s.markers.contains_key(t) by {
        if ms.contains_key(t) {
            let t2 = choose|t2: Seq<Seq<char>>| s.markers.contains_key(t2) && encode(t2) == encode(t);
            lemma_pointer_text_round_trip(t2, t);
        }
    }
    assert forall|t: Seq<Seq<char>>| #[trigger] ms.contains_key(t) implies ms[t] == s.markers[t] by {
        let t2 = choose|t2: Seq<Seq<char>>| s.markers.contains_key(t2) && encode(t2) == encode(t);
        lemma_pointer_text_round_trip(t2, t);
    }
    assert(ms =~= s.markers);
}

} // verus!
