//! The plan — one action per leaf of the declared overlay, chosen by the
//! leaf's mode and the snapshot's markers: `WriteOnce`, `Ensure`,
//! `Always`, or `LeaveAlone`.
use vstd::prelude::*;

use crate::declared::{nearest_mode, Declared};
use crate::json::{Json, JsonValue};
use crate::pointer::JsonPointer;
use crate::snapshot::Snapshot;
use crate::types::Mode;

verus! {

broadcast use {vstd::seq::group_seq_axioms, vstd::std_specs::vec::group_vec_axioms};

/// The leaves of a document by pointer: every value reached through
/// objects only that is not itself an object. Arrays are leaves: they are
/// replaced whole.
pub open spec fn leaves(v: JsonValue) -> Map<Seq<Seq<char>>, JsonValue>
    decreases v,
{
    match v {
        JsonValue::Object(m) => Map::new(
            |p: Seq<Seq<char>>|
                p.len() > 0 && m.contains_key(p[0]) && leaves(m[p[0]]).contains_key(p.drop_first()),
            |p: Seq<Seq<char>>|
                if p.len() > 0 && m.contains_key(p[0]) {
                    leaves(m[p[0]])[p.drop_first()]
                } else {
                    JsonValue::Null
                },
        ),
        _ => Map::empty().insert(Seq::empty(), v),
    }
}

/// What a planned action does.
pub enum ActionView {
    WriteOnce(JsonValue),
    Ensure(JsonValue),
    Always(JsonValue),
    LeaveAlone,
}

/// The action for a leaf: by its mode, and for `once` by whether the
/// snapshot already has its marker.
pub open spec fn planned(
    modes: Map<Seq<Seq<char>>, Mode>,
    markers: Set<Seq<Seq<char>>>,
    pointer: Seq<Seq<char>>,
    value: JsonValue,
) -> ActionView {
    match nearest_mode(modes, pointer) {
        Mode::Once => if markers.contains(pointer) {
            ActionView::LeaveAlone
        } else {
            ActionView::WriteOnce(value)
        },
        Mode::Ensure => ActionView::Ensure(value),
        Mode::Always => ActionView::Always(value),
    }
}

/// One step of a plan.
#[derive(Debug)]
pub enum Action {
    /// First apply of a `once` key: write it and record a marker.
    WriteOnce { pointer: JsonPointer, value: Json },
    /// Write the declared value.
    Ensure { pointer: JsonPointer, value: Json },
    /// Write the declared value.
    Always { pointer: JsonPointer, value: Json },
    /// A `once` key already applied: do not touch it.
    LeaveAlone { pointer: JsonPointer },
}

impl View for Action {
    type V = (Seq<Seq<char>>, ActionView);

    open spec fn view(&self) -> (Seq<Seq<char>>, ActionView) {
        match self {
            Action::WriteOnce { pointer, value } => (pointer@, ActionView::WriteOnce(value@)),
            Action::Ensure { pointer, value } => (pointer@, ActionView::Ensure(value@)),
            Action::Always { pointer, value } => (pointer@, ActionView::Always(value@)),
            Action::LeaveAlone { pointer } => (pointer@, ActionView::LeaveAlone),
        }
    }
}

impl Action {
    /// The pointer the action is about.
    pub fn pointer(&self) -> (r: &JsonPointer)
        ensures
            r@ == self@.0,
    {
        match self {
            Action::WriteOnce { pointer, .. } => pointer,
            Action::Ensure { pointer, .. } => pointer,
            Action::Always { pointer, .. } => pointer,
            Action::LeaveAlone { pointer } => pointer,
        }
    }
}

/// The part of `p` below `prefix`.
pub open spec fn below(prefix: Seq<Seq<char>>, p: Seq<Seq<char>>) -> Seq<Seq<char>> {
    p.subrange(prefix.len() as int, p.len() as int)
}

/// `action` is the planned action for a leaf of `v`, the document found
/// at `prefix`.
pub open spec fn fits(
    action: (Seq<Seq<char>>, ActionView),
    prefix: Seq<Seq<char>>,
    v: JsonValue,
    modes: Map<Seq<Seq<char>>, Mode>,
    markers: Set<Seq<Seq<char>>>,
) -> bool {
    &&& action.0.len() >= prefix.len()
    &&& action.0.subrange(0, prefix.len() as int) == prefix
    &&& leaves(v).contains_key(below(prefix, action.0))
    &&& action.1 == planned(modes, markers, action.0, leaves(v)[below(prefix, action.0)])
}

pub open spec fn action_views(actions: Seq<Action>) -> Seq<(Seq<Seq<char>>, ActionView)> {
    actions.map_values(|a: Action| a@)
}

/// `plan` holds exactly one action per leaf of the declared data, each the
/// one its mode and the markers call for.
pub open spec fn is_plan_for(
    plan: Seq<(Seq<Seq<char>>, ActionView)>,
    data: JsonValue,
    modes: Map<Seq<Seq<char>>, Mode>,
    markers: Set<Seq<Seq<char>>>,
) -> bool {
    &&& forall|i: int|
        0 <= i < plan.len() ==> leaves(data).contains_key(#[trigger] plan[i].0) && plan[i].1
            == planned(modes, markers, plan[i].0, leaves(data)[plan[i].0])
    &&& forall|p: Seq<Seq<char>>|
        #[trigger] leaves(data).contains_key(p) ==> exists|i: int| 0 <= i < plan.len() && plan[i].0 == p
    &&& forall|i: int, j: int| 0 <= i < j < plan.len() ==> plan[i].0 != plan[j].0
}

/// The plan for a declared overlay against a snapshot.
#[derive(Debug)]
pub struct Plan {
    actions: Vec<Action>,
}

impl View for Plan {
    type V = Seq<(Seq<Seq<char>>, ActionView)>;

    closed spec fn view(&self) -> Seq<(Seq<Seq<char>>, ActionView)> {
        action_views(self.actions@)
    }
}

fn plan_leaf(
    pointer: &JsonPointer,
    value: &Json,
    declared: &Declared,
    snapshot: &Snapshot,
) -> (r: Action)
    ensures
        r@ == (pointer@, planned(declared@.modes, snapshot@.markers.dom(), pointer@, value@)),
{
    match declared.mode_at(pointer) {
        Mode::Once => {
            if snapshot.marker(pointer).is_some() {
                Action::LeaveAlone { pointer: pointer.duplicate() }
            } else {
                Action::WriteOnce { pointer: pointer.duplicate(), value: value.deep_copy() }
            }
        },
        Mode::Ensure => Action::Ensure { pointer: pointer.duplicate(), value: value.deep_copy() },
        Mode::Always => Action::Always { pointer: pointer.duplicate(), value: value.deep_copy() },
    }
}

pub open spec fn seen_view(keys: Seq<Seq<char>>, n: int, k: Seq<char>) -> bool {
    exists|a: int| 0 <= a < n && keys[a] == k
}

#[verifier::opaque]
spec fn block_fits(
    vs: Seq<(Seq<Seq<char>>, ActionView)>,
    start: int,
    prefix: Seq<Seq<char>>,
    v: JsonValue,
    modes: Map<Seq<Seq<char>>, Mode>,
    markers: Set<Seq<Seq<char>>>,
    keys: Seq<Seq<char>>,
    l: int,
) -> bool {
    forall|i: int|
        start <= i < vs.len() ==> fits(#[trigger] vs[i], prefix, v, modes, markers) && seen_view(
            keys,
            l,
            vs[i].0[prefix.len() as int],
        )
}

#[verifier::opaque]
spec fn block_covers(
    vs: Seq<(Seq<Seq<char>>, ActionView)>,
    start: int,
    prefix: Seq<Seq<char>>,
    v: JsonValue,
    keys: Seq<Seq<char>>,
    l: int,
) -> bool {
    forall|q: Seq<Seq<char>>|
        #[trigger] leaves(v).contains_key(q) && seen_view(keys, l, q[0]) ==> exists|i: int|
            start <= i < vs.len() && vs[i].0 == prefix + q
}

#[verifier::opaque]
spec fn block_distinct(vs: Seq<(Seq<Seq<char>>, ActionView)>, start: int) -> bool {
    forall|i: int, j: int| start <= i < j < vs.len() ==> vs[i].0 != vs[j].0
}

proof fn lemma_child_fits(
    a: (Seq<Seq<char>>, ActionView),
    prefix: Seq<Seq<char>>,
    m: Map<Seq<char>, JsonValue>,
    k: Seq<char>,
    modes: Map<Seq<Seq<char>>, Mode>,
    markers: Set<Seq<Seq<char>>>,
)
    requires
        m.contains_key(k),
        fits(a, prefix.push(k), m[k], modes, markers),
    ensures
        fits(a, prefix, JsonValue::Object(m), modes, markers),
        a.0[prefix.len() as int] == k,
{
    let p = a.0;
    let cp = prefix.push(k);
    let plen = prefix.len() as int;
    assert(p.subrange(0, plen) =~= cp.subrange(0, plen));
    assert(p[plen] == p.subrange(0, plen + 1)[plen]);
    let q = below(prefix, p);
    assert(q[0] == p[plen]);
    assert(q.drop_first() =~= below(cp, p));
    assert(q.len() > 0);
    assert(leaves(m[k]).contains_key(q.drop_first()));
    assert(leaves(JsonValue::Object(m)).contains_key(q));
    assert(leaves(JsonValue::Object(m))[q] == leaves(m[k])[q.drop_first()]);
    assert(cp.subrange(0, plen) =~= prefix);
    assert(p.subrange(0, plen) == prefix);
    assert(p.len() >= prefix.len());
}

proof fn lemma_step_fits(
    before: Seq<(Seq<Seq<char>>, ActionView)>,
    after: Seq<(Seq<Seq<char>>, ActionView)>,
    start: int,
    keys: Seq<Seq<char>>,
    l: int,
    prefix: Seq<Seq<char>>,
    m: Map<Seq<char>, JsonValue>,
    modes: Map<Seq<Seq<char>>, Mode>,
    markers: Set<Seq<Seq<char>>>,
)
    requires
        0 <= start <= before.len() <= after.len(),
        after.subrange(0, before.len() as int) == before,
        0 <= l < keys.len(),
        m.contains_key(keys[l]),
        block_fits(before, start, prefix, JsonValue::Object(m), modes, markers, keys, l),
        forall|i: int|
            before.len() <= i < after.len() ==> fits(
                #[trigger] after[i],
                prefix.push(keys[l]),
                m[keys[l]],
                modes,
                markers,
            ),
    ensures
        block_fits(after, start, prefix, JsonValue::Object(m), modes, markers, keys, l + 1),
{
    reveal(block_fits);
    let k = keys[l];
    let mid = before.len() as int;
    let v = JsonValue::Object(m);
    let plen = prefix.len() as int;
    assert forall|i: int| start <= i < after.len() implies fits(#[trigger] after[i], prefix, v, modes, markers)
        && seen_view(keys, l + 1, after[i].0[plen]) by {
        if i < mid {
            assert(after[i] == after.subrange(0, mid)[i]);
            assert(fits(before[i], prefix, v, modes, markers) && seen_view(keys, l, before[i].0[plen]));
            let a = choose|a: int| 0 <= a < l && keys[a] == before[i].0[plen];
            assert(keys[a] == after[i].0[plen]);
        } else {
            lemma_child_fits(after[i], prefix, m, k, modes, markers);
            assert(keys[l] == after[i].0[plen]);
        }
    }
}

proof fn lemma_step_covers(
    before: Seq<(Seq<Seq<char>>, ActionView)>,
    after: Seq<(Seq<Seq<char>>, ActionView)>,
    start: int,
    keys: Seq<Seq<char>>,
    l: int,
    prefix: Seq<Seq<char>>,
    m: Map<Seq<char>, JsonValue>,
)
    requires
        0 <= start <= before.len() <= after.len(),
        after.subrange(0, before.len() as int) == before,
        0 <= l < keys.len(),
        m.contains_key(keys[l]),
        block_covers(before, start, prefix, JsonValue::Object(m), keys, l),
        forall|q: Seq<Seq<char>>|
            #[trigger] leaves(m[keys[l]]).contains_key(q) ==> exists|i: int|
                before.len() <= i < after.len() && after[i].0 == prefix.push(keys[l]) + q,
    ensures
        block_covers(after, start, prefix, JsonValue::Object(m), keys, l + 1),
{
    reveal(block_covers);
    let k = keys[l];
    let mid = before.len() as int;
    let v = JsonValue::Object(m);
    assert forall|q: Seq<Seq<char>>| #[trigger] leaves(v).contains_key(q) && seen_view(keys, l + 1, q[0])
        implies exists|i: int| start <= i < after.len() && after[i].0 == prefix + q by {
        if q[0] == k {
            let q2 = q.drop_first();
            assert(leaves(m[k]).contains_key(q2));
            let i = choose|i: int| mid <= i < after.len() && after[i].0 == prefix.push(k) + q2;
            assert(prefix.push(k) + q2 =~= prefix + q);
        } else {
            let a = choose|a: int| 0 <= a < l + 1 && keys[a] == q[0];
            assert(seen_view(keys, l, q[0]));
            let i = choose|i: int| start <= i < mid && before[i].0 == prefix + q;
            assert(after[i] == after.subrange(0, mid)[i]);
        }
    }
}

proof fn lemma_step_distinct(
    before: Seq<(Seq<Seq<char>>, ActionView)>,
    after: Seq<(Seq<Seq<char>>, ActionView)>,
    start: int,
    keys: Seq<Seq<char>>,
    l: int,
    prefix: Seq<Seq<char>>,
    m: Map<Seq<char>, JsonValue>,
    modes: Map<Seq<Seq<char>>, Mode>,
    markers: Set<Seq<Seq<char>>>,
)
    requires
        0 <= start <= before.len() <= after.len(),
        after.subrange(0, before.len() as int) == before,
        0 <= l < keys.len(),
        m.contains_key(keys[l]),
        forall|a: int, b: int| 0 <= a < b < keys.len() ==> keys[a] != keys[b],
        block_fits(before, start, prefix, JsonValue::Object(m), modes, markers, keys, l),
        block_distinct(before, start),
        forall|i: int|
            before.len() <= i < after.len() ==> fits(
                #[trigger] after[i],
                prefix.push(keys[l]),
                m[keys[l]],
                modes,
                markers,
            ),
        forall|i: int, j: int| before.len() <= i < j < after.len() ==> after[i].0 != after[j].0,
    ensures
        block_distinct(after, start),
{
    reveal(block_fits);
    reveal(block_distinct);
    let k = keys[l];
    let mid = before.len() as int;
    let plen = prefix.len() as int;
    assert forall|i: int, j: int| start <= i < j < after.len() implies after[i].0 != after[j].0 by {
        if j >= mid && i < mid {
            assert(after[i] == after.subrange(0, mid)[i]);
            lemma_child_fits(after[j], prefix, m, k, modes, markers);
            assert(seen_view(keys, l, before[i].0[plen]));
            let a = choose|a: int| 0 <= a < l && keys[a] == before[i].0[plen];
            assert(keys[a] != keys[l]);
        } else if j < mid {
            assert(after[i] == after.subrange(0, mid)[i]);
            assert(after[j] == after.subrange(0, mid)[j]);
        }
    }
}

pub open spec fn key_views(keys: Seq<String>) -> Seq<Seq<char>> {
    keys.map_values(|k: String| k@)
}

/// Append to `out` the actions for the leaves of `value`, found at `prefix`.
fn collect(
    value: &Json,
    prefix: &JsonPointer,
    declared: &Declared,
    snapshot: &Snapshot,
    out: &mut Vec<Action>,
)
    ensures
        final(out)@.len() >= old(out)@.len(),
        final(out)@.subrange(0, old(out)@.len() as int) == old(out)@,
        forall|i: int|
            old(out)@.len() <= i < final(out)@.len() ==> fits(
                #[trigger] final(out)@[i]@,
                prefix@,
                value@,
                declared@.modes,
                snapshot@.markers.dom(),
            ),
        forall|q: Seq<Seq<char>>|
            #[trigger] leaves(value@).contains_key(q) ==> exists|i: int|
                old(out)@.len() <= i < final(out)@.len() && final(out)@[i]@.0 == prefix@ + q,
        forall|i: int, j: int|
            old(out)@.len() <= i < j < final(out)@.len() ==> final(out)@[i]@.0 != final(out)@[j]@.0,
    decreases value@,
{
    let ghost start = out.len() as int;
    let ghost initial = out@;
    let ghost modes = declared@.modes;
    let ghost markers = snapshot@.markers.dom();
    match value {
        Json::Object(o) => {
            let ghost m = o@;
            let keys = o.keys();
            let ghost kv = key_views(keys@);
            let mut l: usize = 0;
            proof {
                reveal(block_fits);
                reveal(block_covers);
                reveal(block_distinct);
                assert forall|a: int, b: int| 0 <= a < b < kv.len() implies kv[a] != kv[b] by {
                    assert(kv[a] == keys@[a]@ && kv[b] == keys@[b]@);
                }
            }
            while l < keys.len()
                invariant
                    value@ == JsonValue::Object(m),
                    m == o@,
                    m.dom().finite(),
                    l <= keys.len(),
                    kv == key_views(keys@),
                    modes == declared@.modes,
                    markers == snapshot@.markers.dom(),
                    forall|a: int| 0 <= a < keys.len() ==> m.contains_key(#[trigger] keys@[a]@),
                    forall|k: Seq<char>|
                        m.contains_key(k) ==> exists|a: int| 0 <= a < keys.len() && #[trigger] keys@[a]@ == k,
                    forall|a: int, b: int| 0 <= a < b < kv.len() ==> kv[a] != kv[b],
                    0 <= start <= out@.len(),
                    out@.subrange(0, start) == initial,
                    block_fits(action_views(out@), start, prefix@, value@, modes, markers, kv, l as int),
                    block_covers(action_views(out@), start, prefix@, value@, kv, l as int),
                    block_distinct(action_views(out@), start),
                decreases keys.len() - l,
            {
                let key = &keys[l];
                let ghost k = key@;
                assert(kv[l as int] == k);
                let child = match o.get(key.as_str()) {
                    Some(c) => c,
                    None => {
                        proof {
                            assert(false);
                        }
                        return;
                    },
                };
                let child_prefix = prefix.child(key.as_str());
                let ghost before = out@;
                proof {
                    broadcast use vstd::map::axiom_map_index_decreases_finite;
                    assert(decreases_to!(value@ => value@->Object_0));
                    assert(decreases_to!(m => m[k]));
                }
                collect(child, &child_prefix, declared, snapshot, out);
                proof {
                    assert(out@.subrange(0, start) =~= before.subrange(0, start));
                    let bv = action_views(before);
                    let av = action_views(out@);
                    assert(av.subrange(0, bv.len() as int) =~= bv);
                    assert forall|i: int| bv.len() <= i < av.len() implies fits(
                        #[trigger] av[i],
                        prefix@.push(kv[l as int]),
                        m[kv[l as int]],
                        modes,
                        markers,
                    ) by {
                        assert(av[i] == out@[i]@);
                    }
                    assert forall|q: Seq<Seq<char>>| #[trigger] leaves(m[kv[l as int]]).contains_key(q) implies exists|i: int|
                        bv.len() <= i < av.len() && av[i].0 == prefix@.push(kv[l as int]) + q by {
                        let i = choose|i: int| before.len() <= i < out@.len() && out@[i]@.0 == child_prefix@ + q;
                        assert(av[i] == out@[i]@);
                    }
                    assert forall|i: int, j: int| bv.len() <= i < j < av.len() implies av[i].0 != av[j].0 by {
                        assert(av[i] == out@[i]@ && av[j] == out@[j]@);
                    }
                    lemma_step_fits(bv, av, start, kv, l as int, prefix@, m, modes, markers);
                    lemma_step_covers(bv, av, start, kv, l as int, prefix@, m);
                    lemma_step_distinct(bv, av, start, kv, l as int, prefix@, m, modes, markers);
                }
                l = l + 1;
            }
            proof {
                reveal(block_fits);
                reveal(block_covers);
                reveal(block_distinct);
                let av = action_views(out@);
                assert forall|i: int| start <= i < out@.len() implies fits(
                    #[trigger] out@[i]@,
                    prefix@,
                    value@,
                    modes,
                    markers,
                ) by {
                    assert(av[i] == out@[i]@);
                }
                assert forall|q: Seq<Seq<char>>| #[trigger] leaves(value@).contains_key(q) implies exists|i: int|
                    start <= i < out@.len() && out@[i]@.0 == prefix@ + q by {
                    let a = choose|a: int| 0 <= a < keys.len() && #[trigger] keys@[a]@ == q[0];
                    assert(kv[a] == q[0]);
                    assert(seen_view(kv, keys.len() as int, q[0]));
                    let i = choose|i: int| start <= i < av.len() && av[i].0 == prefix@ + q;
                    assert(av[i] == out@[i]@);
                }
                assert forall|i: int, j: int| start <= i < j < out@.len() implies out@[i]@.0 != out@[j]@.0 by {
                    assert(av[i] == out@[i]@ && av[j] == out@[j]@);
                }
            }
        },
        _ => {
            let action = plan_leaf(prefix, value, declared, snapshot);
            out.push(action);
            proof {
                assert(out@.subrange(0, start) =~= initial);
                let p = out@[start]@.0;
                assert(below(prefix@, p) =~= Seq::<Seq<char>>::empty());
                assert(p.subrange(0, prefix@.len() as int) =~= prefix@);
                assert forall|q: Seq<Seq<char>>| #[trigger] leaves(value@).contains_key(q) implies exists|i: int|
                    start <= i < out@.len() && out@[i]@.0 == prefix@ + q by {
                    assert(q == Seq::<Seq<char>>::empty());
                    assert(prefix@ + q =~= prefix@);
                }
            }
        },
    }
}

impl Plan {
    /// Walk the leaves of the declared data and choose each one's action.
    pub fn build(declared: &Declared, snapshot: &Snapshot) -> (r: Plan)
        ensures
            is_plan_for(r@, declared@.data, declared@.modes, snapshot@.markers.dom()),
    {
        let mut actions: Vec<Action> = Vec::new();
        let root = JsonPointer::root();
        collect(declared.data(), &root, declared, snapshot, &mut actions);
        proof {
            let v = action_views(actions@);
            let data = declared@.data;
            assert forall|i: int| 0 <= i < v.len() implies leaves(data).contains_key(#[trigger] v[i].0)
                && v[i].1 == planned(declared@.modes, snapshot@.markers.dom(), v[i].0, leaves(data)[v[i].0]) by {
                assert(fits(actions@[i]@, root@, data, declared@.modes, snapshot@.markers.dom()));
                assert(below(root@, v[i].0) =~= v[i].0);
            }
            assert forall|p: Seq<Seq<char>>| #[trigger] leaves(data).contains_key(p) implies exists|i: int|
                0 <= i < v.len() && v[i].0 == p by {
                let i = choose|i: int| 0 <= i < actions.len() && actions@[i]@.0 == root@ + p;
                assert(root@ + p =~= p);
                assert(v[i] == actions@[i]@);
            }
            assert forall|i: int, j: int| 0 <= i < j < v.len() implies v[i].0 != v[j].0 by {
                assert(v[i] == actions@[i]@ && v[j] == actions@[j]@);
            }
        }
        Plan { actions }
    }

    /// The actions, one per declared leaf.
    pub fn actions(&self) -> (r: &Vec<Action>)
        ensures
            action_views(r@) == self@,
    {
        &self.actions
    }

    pub fn is_empty(&self) -> (r: bool)
        ensures
            r == (self@.len() == 0),
    {
        self.actions.len() == 0
    }
}

} // verus!
