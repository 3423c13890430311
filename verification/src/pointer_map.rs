//! A finite map keyed by JSON Pointer, kept as a list of entries with
//! distinct pointers.
use vstd::prelude::*;

use crate::pointer::{token_prefix, JsonPointer};

verus! {

broadcast use {vstd::seq::group_seq_axioms, vstd::std_specs::vec::group_vec_axioms};

#[derive(Debug)]
pub struct PointerMap<V: View> {
    entries: Vec<(JsonPointer, V)>,
}

pub closed spec fn entries_view<V: View>(entries: Seq<(JsonPointer, V)>) -> Map<
    Seq<Seq<char>>,
    V::V,
>
    decreases entries.len(),
{
    if entries.len() == 0 {
        Map::empty()
    } else {
        let last = entries[entries.len() - 1];
        entries_view(entries.subrange(0, entries.len() - 1)).insert(last.0@, last.1@)
    }
}

pub closed spec fn distinct_pointers<V>(entries: Seq<(JsonPointer, V)>) -> bool {
    forall|i: int, j: int| 0 <= i < j < entries.len() ==> entries[i].0@ != entries[j].0@
}

proof fn lemma_entries_view<V: View>(entries: Seq<(JsonPointer, V)>)
    ensures
        entries_view(entries).dom().finite(),
        forall|k: Seq<Seq<char>>|
            #[trigger] entries_view(entries).contains_key(k) <==> exists|i: int|
                0 <= i < entries.len() && entries[i].0@ == k,
        distinct_pointers(entries) ==> forall|i: int|
            0 <= i < entries.len() ==> #[trigger] entries_view(entries)[entries[i].0@]
                == entries[i].1@,
    decreases entries.len(),
{
    if entries.len() > 0 {
        let front = entries.subrange(0, entries.len() - 1);
        let last = entries[entries.len() - 1];
        lemma_entries_view(front);
        assert forall|k: Seq<Seq<char>>| #[trigger]
            entries_view(entries).contains_key(k) <==> exists|i: int|
                0 <= i < entries.len() && entries[i].0@ == k by {
            if entries_view(entries).contains_key(k) && k != last.0@ {
                let i = choose|i: int| 0 <= i < front.len() && front[i].0@ == k;
                assert(entries[i].0@ == k);
            }
            if exists|i: int| 0 <= i < entries.len() && entries[i].0@ == k {
                let i = choose|i: int| 0 <= i < entries.len() && entries[i].0@ == k;
                if i < entries.len() - 1 {
                    assert(front[i].0@ == k);
                }
            }
        }
        if distinct_pointers(entries) {
            assert(distinct_pointers(front)) by {
                assert forall|i: int, j: int| 0 <= i < j < front.len() implies front[i].0@
                    != front[j].0@ by {
                    assert(front[i] == entries[i] && front[j] == entries[j]);
                }
            }
            assert forall|i: int| 0 <= i < entries.len() implies #[trigger] entries_view(
                entries,
            )[entries[i].0@] == entries[i].1@ by {
                if i < entries.len() - 1 {
                    assert(front[i] == entries[i]);
                    assert(entries[i].0@ != last.0@);
                }
            }
        }
    }
}

impl<V: View> View for PointerMap<V> {
    type V = Map<Seq<Seq<char>>, V::V>;

    closed spec fn view(&self) -> Map<Seq<Seq<char>>, V::V> {
        entries_view(self.entries@)
    }
}

impl<V: View> PointerMap<V> {
    #[verifier::type_invariant]
    spec fn pointers_are_distinct(self) -> bool {
        distinct_pointers(self.entries@)
    }

    /// The pointer of the entry at `i` in iteration order.
    pub closed spec fn pointer_at(self, i: int) -> Seq<Seq<char>> {
        self.entries@[i].0@
    }

    /// The value of the entry at `i` in iteration order.
    pub closed spec fn value_at(self, i: int) -> V::V {
        self.entries@[i].1@
    }

    pub closed spec fn size(self) -> nat {
        self.entries@.len()
    }

    pub fn new() -> (r: PointerMap<V>)
        ensures
            r@ == Map::<Seq<Seq<char>>, V::V>::empty(),
    {
        let r = PointerMap { entries: Vec::new() };
        assert(r@ =~= Map::<Seq<Seq<char>>, V::V>::empty());
        r
    }

    /// The number of entries, and how they lay out the map.
    pub fn len(&self) -> (r: usize)
        ensures
            r == self.size(),
            self@.dom().finite(),
            forall|i: int| 0 <= i < r ==> self@.contains_key(#[trigger] self.pointer_at(i)),
            forall|i: int| 0 <= i < r ==> #[trigger] self@[self.pointer_at(i)] == self.value_at(i),
            forall|k: Seq<Seq<char>>|
                #[trigger] self@.contains_key(k) ==> exists|i: int|
                    0 <= i < r && self.pointer_at(i) == k,
            forall|i: int, j: int| 0 <= i < j < r ==> self.pointer_at(i) != self.pointer_at(j),
    {
        proof {
            use_type_invariant(self);
            lemma_entries_view(self.entries@);
            assert forall|i: int| 0 <= i < self.entries.len() implies self@.contains_key(
                #[trigger] self.pointer_at(i),
            ) by {
                assert(self.entries@[i].0@ == self.pointer_at(i));
            }
            assert forall|k: Seq<Seq<char>>| #[trigger] self@.contains_key(k) implies exists|i: int|
                0 <= i < self.entries.len() && self.pointer_at(i) == k by {
                let i = choose|i: int| 0 <= i < self.entries.len() && self.entries@[i].0@ == k;
                assert(self.pointer_at(i) == k);
            }
        }
        self.entries.len()
    }

    /// The pointer of the entry at `i`.
    pub fn pointer(&self, i: usize) -> (r: &JsonPointer)
        requires
            i < self.size(),
        ensures
            r@ == self.pointer_at(i as int),
    {
        &self.entries[i].0
    }

    /// The value of the entry at `i`.
    pub fn value(&self, i: usize) -> (r: &V)
        requires
            i < self.size(),
        ensures
            r@ == self.value_at(i as int),
    {
        &self.entries[i].1
    }

    fn find(&self, pointer: &JsonPointer) -> (r: Option<usize>)
        ensures
            match r {
                Some(i) => i < self.entries.len() && self.entries@[i as int].0@ == pointer@,
                None => forall|i: int|
                    0 <= i < self.entries.len() ==> self.entries@[i].0@ != pointer@,
            },
    {
        let mut i: usize = 0;
        while i < self.entries.len()
            invariant
                i <= self.entries.len(),
                forall|j: int| 0 <= j < i ==> self.entries@[j].0@ != pointer@,
            decreases self.entries.len() - i,
        {
            if self.entries[i].0.same_as(pointer) {
                return Some(i);
            }
            i = i + 1;
        }
        None
    }

    /// The value stored at `pointer`.
    pub fn get(&self, pointer: &JsonPointer) -> (r: Option<&V>)
        ensures
            r is Some == self@.contains_key(pointer@),
            r matches Some(v) ==> v@ == self@[pointer@],
    {
        proof {
            use_type_invariant(self);
            lemma_entries_view(self.entries@);
        }
        match self.find(pointer) {
            Some(i) => {
                assert(self@[self.entries@[i as int].0@] == self.entries@[i as int].1@);
                Some(&self.entries[i].1)
            },
            None => None,
        }
    }

    /// Store `value` at `pointer`, replacing what was there.
    pub fn insert(&mut self, pointer: JsonPointer, value: V)
        ensures
            final(self)@ == old(self)@.insert(pointer@, value@),
    {
        proof {
            use_type_invariant(&*self);
        }
        let found = self.find(&pointer);
        let mut entries: Vec<(JsonPointer, V)> = Vec::new();
        std::mem::swap(&mut entries, &mut self.entries);
        let ghost before = entries@;
        let ghost k = pointer@;
        let ghost v = value@;
        proof {
            lemma_entries_view(before);
        }
        match found {
            Some(i) => {
                entries.set(i, (pointer, value));
                proof {
                    assert forall|a: int, b: int| 0 <= a < b < entries.len() implies entries@[a].0@
                        != entries@[b].0@ by {
                        assert(a != i ==> entries@[a] == before[a]);
                        assert(b != i ==> entries@[b] == before[b]);
                    }
                    lemma_entries_view(entries@);
                    assert forall|kk: Seq<Seq<char>>| #[trigger]
                        entries_view(entries@).contains_key(kk) implies entries_view(entries@)[kk]
                        == entries_view(before).insert(k, v)[kk] by {
                        let j = choose|j: int| 0 <= j < entries.len() && entries@[j].0@ == kk;
                        assert(entries_view(entries@)[entries@[j].0@] == entries@[j].1@);
                        if j != i {
                            assert(entries@[j] == before[j]);
                            assert(entries_view(before)[before[j].0@] == before[j].1@);
                        }
                    }
                    assert forall|kk: Seq<Seq<char>>|
                        entries_view(before).insert(k, v).contains_key(kk) implies #[trigger]
                        entries_view(entries@).contains_key(kk) by {
                        if kk != k {
                            let j = choose|j: int| 0 <= j < before.len() && before[j].0@ == kk;
                            assert(entries@[j] == before[j]);
                        } else {
                            assert(entries@[i as int].0@ == kk);
                        }
                    }
                    assert(entries_view(entries@) =~= entries_view(before).insert(k, v));
                }
            },
            None => {
                entries.push((pointer, value));
                proof {
                    assert(entries@.subrange(0, entries.len() - 1) =~= before);
                    assert forall|a: int, b: int| 0 <= a < b < entries.len() implies entries@[a].0@
                        != entries@[b].0@ by {
                        if b == entries.len() - 1 {
                            assert(entries@[a] == before[a]);
                        } else {
                            assert(entries@[a] == before[a] && entries@[b] == before[b]);
                        }
                    }
                }
            },
        }
        self.entries = entries;
    }

    /// Drop every entry at or under `root`.
    pub fn remove_subtree(&mut self, root: &JsonPointer)
        ensures
            final(self)@ == old(self)@.restrict(
                old(self)@.dom().filter(|k: Seq<Seq<char>>| !token_prefix(root@, k)),
            ),
    {
        proof {
            use_type_invariant(&*self);
        }
        let mut old_entries: Vec<(JsonPointer, V)> = Vec::new();
        std::mem::swap(&mut old_entries, &mut self.entries);
        let ghost before = old_entries@;
        proof {
            lemma_entries_view(before);
        }
        let mut kept: Vec<(JsonPointer, V)> = Vec::new();
        let ghost mut origin: Seq<int> = Seq::empty();
        while old_entries.len() > 0
            invariant
                distinct_pointers(before),
                old_entries.len() <= before.len(),
                old_entries@ == before.subrange(before.len() - old_entries.len(), before.len() as int),
                kept.len() == origin.len(),
                forall|j: int|
                    0 <= j < kept.len() ==> 0 <= #[trigger] origin[j] < before.len() - old_entries.len()
                        && kept@[j] == before[origin[j]],
                forall|a: int, b: int| 0 <= a < b < kept.len() ==> origin[a] < origin[b],
                forall|j: int|
                    0 <= j < before.len() - old_entries.len() && !token_prefix(root@, before[j].0@)
                        ==> exists|a: int| 0 <= a < kept.len() && #[trigger] origin[a] == j,
                forall|j: int| 0 <= j < kept.len() ==> !token_prefix(root@, #[trigger] kept@[j].0@),
            decreases old_entries.len(),
        {
            let ghost taken_index = before.len() - old_entries.len();
            let ghost prior = old_entries@;
            proof {
                assert(prior[0] == before[taken_index]);
            }
            let entry = old_entries.remove(0);
            proof {
                assert(entry == prior[0]);
                assert(old_entries@ =~= prior.subrange(1, prior.len() as int));
                assert(old_entries@ =~= before.subrange(
                    before.len() - old_entries.len(),
                    before.len() as int,
                ));
            }
            let ghost old_origin = origin;
            let ghost old_kept_len = kept.len();
            if !entry.0.is_descendant_of(root) {
                kept.push(entry);
                proof {
                    origin = origin.push(taken_index);
                }
            }
            proof {
                assert forall|j: int|
                    0 <= j < before.len() - old_entries.len() && !token_prefix(root@, before[j].0@)
                        implies exists|a: int| 0 <= a < kept.len() && #[trigger] origin[a] == j by {
                    if j == taken_index {
                        assert(origin[old_kept_len as int] == j);
                    } else {
                        let a = choose|a: int| 0 <= a < old_kept_len && #[trigger] old_origin[a] == j;
                        assert(origin[a] == j);
                    }
                }
            }
        }
        proof {
            assert forall|a: int, b: int| 0 <= a < b < kept.len() implies kept@[a].0@
                != kept@[b].0@ by {
                assert(kept@[a] == before[origin[a]]);
                assert(kept@[b] == before[origin[b]]);
            }
            lemma_entries_view(kept@);
            let target = entries_view(before).restrict(
                entries_view(before).dom().filter(|k: Seq<Seq<char>>| !token_prefix(root@, k)),
            );
            assert forall|k: Seq<Seq<char>>| #[trigger]
                entries_view(kept@).contains_key(k) == target.contains_key(k) by {
                if entries_view(kept@).contains_key(k) {
                    let a = choose|a: int| 0 <= a < kept.len() && kept@[a].0@ == k;
                    assert(kept@[a] == before[origin[a]]);
                    assert(entries_view(before).contains_key(before[origin[a]].0@));
                }
                if target.contains_key(k) {
                    let j = choose|j: int| 0 <= j < before.len() && before[j].0@ == k;
                    let a = choose|a: int| 0 <= a < kept.len() && #[trigger] origin[a] == j;
                    assert(kept@[a] == before[j]);
                }
            }
            assert forall|k: Seq<Seq<char>>| #[trigger]
                entries_view(kept@).contains_key(k) implies entries_view(kept@)[k] == target[k] by {
                let a = choose|a: int| 0 <= a < kept.len() && kept@[a].0@ == k;
                assert(kept@[a] == before[origin[a]]);
                assert(entries_view(kept@)[kept@[a].0@] == kept@[a].1@);
                assert(entries_view(before)[before[origin[a]].0@] == before[origin[a]].1@);
            }
            assert(entries_view(kept@) =~= target);
        }
        self.entries = kept;
    }
}

} // verus!
