//! The JSON value tree that every other module works on.
//!
//! `Json` is the executable document; its meaning is a `JsonValue`, in
//! which an object is a map from key to value, so that member order never
//! decides whether two documents are the same. Numbers are carried as
//! their canonical text.
use vstd::prelude::*;

verus! {

broadcast use {vstd::seq::group_seq_axioms, vstd::std_specs::vec::group_vec_axioms};

/// What a JSON document means.
pub enum JsonValue {
    Null,
    Bool(bool),
    Number(Seq<char>),
    String(Seq<char>),
    Array(Seq<JsonValue>),
    Object(Map<Seq<char>, JsonValue>),
}

/// An executable JSON document.
#[derive(Debug)]
pub enum Json {
    Null,
    Bool(bool),
    /// A number, held as its canonical text (`2`, `-3`, `1.5`).
    Number(String),
    String(String),
    Array(Vec<Json>),
    Object(JsonObject),
}

/// A JSON object: members with pairwise distinct keys.
#[derive(Debug)]
pub struct JsonObject {
    members: Vec<(String, Json)>,
}

pub open spec fn json_view(j: Json) -> JsonValue
    decreases j,
{
    match j {
        Json::Null => JsonValue::Null,
        Json::Bool(b) => JsonValue::Bool(b),
        Json::Number(n) => JsonValue::Number(n@),
        Json::String(s) => JsonValue::String(s@),
        Json::Array(items) => JsonValue::Array(items_view(items@)),
        Json::Object(o) => JsonValue::Object(o@),
    }
}

/// The meaning of an array's items, item by item.
pub closed spec fn items_view(items: Seq<Json>) -> Seq<JsonValue>
    decreases items,
{
    if items.len() == 0 {
        Seq::empty()
    } else {
        items_view(items.subrange(0, items.len() - 1)).push(json_view(items[items.len() - 1]))
    }
}

/// The map that a list of members stands for (a later member with the same
/// key would win; the object's invariant rules that out).
pub closed spec fn members_view(members: Seq<(String, Json)>) -> Map<Seq<char>, JsonValue>
    decreases members,
{
    if members.len() == 0 {
        Map::empty()
    } else {
        let last = members[members.len() - 1];
        members_view(members.subrange(0, members.len() - 1)).insert(last.0@, json_view(last.1))
    }
}

pub closed spec fn distinct_keys(members: Seq<(String, Json)>) -> bool {
    forall|i: int, j: int| 0 <= i < j < members.len() ==> members[i].0@ != members[j].0@
}

impl View for Json {
    type V = JsonValue;

    open spec fn view(&self) -> JsonValue {
        json_view(*self)
    }
}

impl View for JsonObject {
    type V = Map<Seq<char>, JsonValue>;

    closed spec fn view(&self) -> Map<Seq<char>, JsonValue>
        decreases self,
    {
        members_view(self.members@)
    }
}

/// The meaning of an array's items is the items' meanings, in order.
pub proof fn lemma_items_view(items: Seq<Json>)
    ensures
        items_view(items).len() == items.len(),
        forall|i: int| 0 <= i < items.len() ==> #[trigger] items_view(items)[i] == json_view(items[i]),
    decreases items.len(),
{
    if items.len() > 0 {
        let front = items.subrange(0, items.len() - 1);
        lemma_items_view(front);
        assert forall|i: int| 0 <= i < items.len() implies #[trigger] items_view(items)[i] == json_view(
            items[i],
        ) by {
            if i < items.len() - 1 {
                assert(front[i] == items[i]);
            }
        }
    }
}

proof fn lemma_members_view(members: Seq<(String, Json)>)
    ensures
        members_view(members).dom().finite(),
        forall|k: Seq<char>|
            #[trigger] members_view(members).contains_key(k) <==> exists|i: int|
                0 <= i < members.len() && members[i].0@ == k,
        distinct_keys(members) ==> forall|i: int|
            0 <= i < members.len() ==> #[trigger] members_view(members)[members[i].0@] == json_view(
                members[i].1,
            ),
    decreases members.len(),
{
    if members.len() > 0 {
        let front = members.subrange(0, members.len() - 1);
        let last = members[members.len() - 1];
        lemma_members_view(front);
        assert forall|k: Seq<char>| #[trigger]
            members_view(members).contains_key(k) <==> exists|i: int|
                0 <= i < members.len() && members[i].0@ == k by {
            if members_view(members).contains_key(k) && k != last.0@ {
                let i = choose|i: int| 0 <= i < front.len() && front[i].0@ == k;
                assert(members[i].0@ == k);
            }
            if exists|i: int| 0 <= i < members.len() && members[i].0@ == k {
                let i = choose|i: int| 0 <= i < members.len() && members[i].0@ == k;
                if i < members.len() - 1 {
                    assert(front[i].0@ == k);
                }
            }
        }
        if distinct_keys(members) {
            assert(distinct_keys(front)) by {
                assert forall|i: int, j: int| 0 <= i < j < front.len() implies front[i].0@
                    != front[j].0@ by {
                    assert(front[i] == members[i] && front[j] == members[j]);
                }
            }
            assert forall|i: int| 0 <= i < members.len() implies #[trigger] members_view(
                members,
            )[members[i].0@] == json_view(members[i].1) by {
                if i < members.len() - 1 {
                    assert(front[i] == members[i]);
                    assert(members[i].0@ != last.0@);
                }
            }
        }
    }
}

proof fn lemma_pointwise_same_view(a: Seq<(String, Json)>, b: Seq<(String, Json)>)
    requires
        a.len() == b.len(),
        forall|i: int|
            0 <= i < a.len() ==> #[trigger] a[i].0@ == b[i].0@ && json_view(a[i].1) == json_view(
                b[i].1,
            ),
    ensures
        members_view(a) == members_view(b),
    decreases a.len(),
{
    if a.len() > 0 {
        let fa = a.subrange(0, a.len() - 1);
        let fb = b.subrange(0, b.len() - 1);
        assert forall|i: int| 0 <= i < fa.len() implies #[trigger] fa[i].0@ == fb[i].0@ && json_view(
            fa[i].1,
        ) == json_view(fb[i].1) by {
            assert(fa[i] == a[i] && fb[i] == b[i]);
        }
        lemma_pointwise_same_view(fa, fb);
        assert(a[a.len() - 1].0@ == b[b.len() - 1].0@);
    }
}

impl JsonObject {
    #[verifier::type_invariant]
    spec fn keys_are_distinct(self) -> bool {
        distinct_keys(self.members@)
    }

    /// An object with no members.
    pub fn new() -> (o: JsonObject)
        ensures
            o@ == Map::<Seq<char>, JsonValue>::empty(),
    {
        let o = JsonObject { members: Vec::new() };
        assert(o@ =~= Map::<Seq<char>, JsonValue>::empty());
        o
    }

    /// Whether the object has no members.
    pub fn is_empty(&self) -> (r: bool)
        ensures
            r == (self@.dom() =~= Set::<Seq<char>>::empty()),
            self@.dom().finite(),
    {
        proof {
            lemma_members_view(self.members@);
            if self.members.len() > 0 {
                assert(self@.contains_key(self.members@[0].0@));
            }
        }
        self.members.len() == 0
    }

    /// The number of members.
    pub fn len(&self) -> (r: usize)
        ensures
            r == self@.len(),
            self@.dom().finite(),
    {
        proof {
            use_type_invariant(self);
            self.lemma_len();
        }
        self.members.len()
    }

    proof fn lemma_len(&self)
        requires
            distinct_keys(self.members@),
        ensures
            self@.len() == self.members.len(),
            self@.dom().finite(),
        decreases self.members.len(),
    {
        lemma_members_view(self.members@);
        lemma_members_len(self.members@);
    }

    fn find(&self, key: &str) -> (r: Option<usize>)
        ensures
            match r {
                Some(i) => i < self.members.len() && self.members@[i as int].0@ == key@,
                None => forall|i: int| 0 <= i < self.members.len() ==> self.members@[i].0@ != key@,
            },
    {
        let owned = key.to_owned();
        let mut i: usize = 0;
        while i < self.members.len()
            invariant
                i <= self.members.len(),
                owned@ == key@,
                forall|j: int| 0 <= j < i ==> self.members@[j].0@ != key@,
            decreases self.members.len() - i,
        {
            if self.members[i].0 == owned {
                return Some(i);
            }
            i = i + 1;
        }
        None
    }

    /// Whether a member has the given key.
    pub fn contains_key(&self, key: &str) -> (r: bool)
        ensures
            r == self@.contains_key(key@),
    {
        proof {
            lemma_members_view(self.members@);
        }
        match self.find(key) {
            Some(i) => {
                assert(self.members@[i as int].0@ == key@);
                true
            },
            None => false,
        }
    }

    /// The value of the member with the given key.
    pub fn get(&self, key: &str) -> (r: Option<&Json>)
        ensures
            r is Some == self@.contains_key(key@),
            r matches Some(v) ==> v@ == self@[key@],
    {
        proof {
            use_type_invariant(self);
            lemma_members_view(self.members@);
        }
        match self.find(key) {
            Some(i) => {
                assert(self@[self.members@[i as int].0@] == json_view(self.members@[i as int].1));
                Some(&self.members[i].1)
            },
            None => None,
        }
    }

    /// The members, in order.
    pub(crate) fn member_list(&self) -> (r: &Vec<(String, Json)>)
        ensures
            members_view(r@) == self@,
    {
        &self.members
    }

    /// The keys, each once.
    pub fn keys(&self) -> (r: Vec<String>)
        ensures
            self@.dom().finite(),
            forall|i: int| 0 <= i < r.len() ==> self@.contains_key(#[trigger] r@[i]@),
            forall|k: Seq<char>|
                self@.contains_key(k) ==> exists|i: int| 0 <= i < r.len() && #[trigger] r@[i]@ == k,
            forall|i: int, j: int| 0 <= i < j < r.len() ==> r@[i]@ != r@[j]@,
    {
        proof {
            use_type_invariant(self);
            lemma_members_view(self.members@);
        }
        let mut r: Vec<String> = Vec::new();
        let mut i: usize = 0;
        while i < self.members.len()
            invariant
                i <= self.members.len(),
                r.len() == i,
                distinct_keys(self.members@),
                forall|j: int| 0 <= j < i ==> #[trigger] r@[j]@ == self.members@[j].0@,
            decreases self.members.len() - i,
        {
            r.push(self.members[i].0.clone());
            i = i + 1;
        }
        proof {
            assert forall|k: Seq<char>| self@.contains_key(k) implies exists|i: int|
                0 <= i < r.len() && #[trigger] r@[i]@ == k by {
                let j = choose|j: int| 0 <= j < self.members.len() && self.members@[j].0@ == k;
                assert(r@[j]@ == k);
            }
            assert forall|i: int| 0 <= i < r.len() implies self@.contains_key(#[trigger] r@[i]@) by {
                assert(r@[i]@ == self.members@[i].0@);
            }
        }
        r
    }

    /// Set the member `key` to `value`, replacing any member with that key.
    pub fn insert(&mut self, key: String, value: Json)
        ensures
            final(self)@ == old(self)@.insert(key@, value@),
    {
        proof {
            use_type_invariant(&*self);
        }
        let found = self.find(key.as_str());
        let mut members: Vec<(String, Json)> = Vec::new();
        std::mem::swap(&mut members, &mut self.members);
        let ghost before = members@;
        proof {
            lemma_members_view(before);
        }
        match found {
            Some(i) => {
                let ghost k = key@;
                members.set(i, (key, value));
                proof {
                    assert forall|a: int, b: int| 0 <= a < b < members.len() implies members@[a].0@
                        != members@[b].0@ by {
                        assert(a != i ==> members@[a] == before[a]);
                        assert(b != i ==> members@[b] == before[b]);
                    }
                    lemma_members_view(members@);
                    assert forall|kk: Seq<char>| #[trigger]
                        members_view(members@).contains_key(kk) implies members_view(members@)[kk]
                        == members_view(before).insert(k, value@)[kk] by {
                        let j = choose|j: int| 0 <= j < members.len() && members@[j].0@ == kk;
                        assert(members_view(members@)[members@[j].0@] == json_view(members@[j].1));
                        if j != i {
                            assert(members@[j] == before[j]);
                            assert(members_view(before)[before[j].0@] == json_view(before[j].1));
                        }
                    }
                    assert forall|kk: Seq<char>|
                        members_view(before).insert(k, value@).contains_key(kk) implies #[trigger]
                        members_view(members@).contains_key(kk) by {
                        if kk != k {
                            let j = choose|j: int| 0 <= j < before.len() && before[j].0@ == kk;
                            assert(members@[j] == before[j]);
                        } else {
                            assert(members@[i as int].0@ == kk);
                        }
                    }
                    assert(members_view(members@) =~= members_view(before).insert(k, value@));
                }
            },
            None => {
                members.push((key, value));
                proof {
                    assert(members@.subrange(0, members.len() - 1) =~= before);
                    assert forall|a: int, b: int| 0 <= a < b < members.len() implies members@[a].0@
                        != members@[b].0@ by {
                        if b == members.len() - 1 {
                            assert(members@[a] == before[a]);
                        } else {
                            assert(members@[a] == before[a] && members@[b] == before[b]);
                        }
                    }
                }
            },
        }
        self.members = members;
    }

    /// Remove the member `key`, handing back its value if there was one.
    pub fn remove(&mut self, key: &str) -> (r: Option<Json>)
        ensures
            final(self)@ == old(self)@.remove(key@),
            r is Some == old(self)@.contains_key(key@),
            r matches Some(v) ==> v@ == old(self)@[key@],
    {
        proof {
            use_type_invariant(&*self);
        }
        let found = self.find(key);
        let mut members: Vec<(String, Json)> = Vec::new();
        std::mem::swap(&mut members, &mut self.members);
        let ghost before = members@;
        proof {
            lemma_members_view(before);
        }
        match found {
            Some(i) => {
                let removed = members.remove(i);
                proof {
                    assert(members_view(before)[before[i as int].0@] == json_view(before[i as int].1));
                    assert forall|a: int, b: int| 0 <= a < b < members.len() implies members@[a].0@
                        != members@[b].0@ by {
                        let a0 = if a < i { a } else { a + 1 };
                        let b0 = if b < i { b } else { b + 1 };
                        assert(members@[a] == before[a0] && members@[b] == before[b0]);
                    }
                    lemma_members_view(members@);
                    assert forall|kk: Seq<char>| #[trigger]
                        members_view(members@).contains_key(kk) implies members_view(before).remove(
                        key@,
                    ).contains_key(kk) && members_view(members@)[kk] == members_view(before)[kk] by {
                        let j = choose|j: int| 0 <= j < members.len() && members@[j].0@ == kk;
                        let j0 = if j < i { j } else { j + 1 };
                        assert(members@[j] == before[j0]);
                        assert(members_view(members@)[members@[j].0@] == json_view(members@[j].1));
                        assert(members_view(before)[before[j0].0@] == json_view(before[j0].1));
                    }
                    assert forall|kk: Seq<char>|
                        members_view(before).remove(key@).contains_key(kk) implies #[trigger]
                        members_view(members@).contains_key(kk) by {
                        let j = choose|j: int| 0 <= j < before.len() && before[j].0@ == kk;
                        if j < i {
                            assert(members@[j] == before[j]);
                        } else {
                            assert(members@[j - 1] == before[j]);
                        }
                    }
                    assert(members_view(members@) =~= members_view(before).remove(key@));
                }
                self.members = members;
                Some(removed.1)
            },
            None => {
                proof {
                    assert(members_view(before) =~= members_view(before).remove(key@));
                }
                self.members = members;
                None
            },
        }
    }

    /// An independent copy with the same meaning.
    pub fn deep_copy(&self) -> (r: JsonObject)
        ensures
            r@ == self@,
        decreases self,
    {
        proof {
            use_type_invariant(self);
        }
        let mut members: Vec<(String, Json)> = Vec::new();
        let mut i: usize = 0;
        while i < self.members.len()
            invariant
                i <= self.members.len(),
                members.len() == i,
                distinct_keys(self.members@),
                forall|j: int|
                    0 <= j < i ==> #[trigger] members@[j].0@ == self.members@[j].0@ && json_view(
                        members@[j].1,
                    ) == json_view(self.members@[j].1),
            decreases self.members.len() - i,
        {
            let value = self.members[i].1.deep_copy();
            members.push((self.members[i].0.clone(), value));
            i = i + 1;
        }
        proof {
            assert forall|a: int, b: int| 0 <= a < b < members.len() implies members@[a].0@
                != members@[b].0@ by {
                assert(members@[a].0@ == self.members@[a].0@);
                assert(members@[b].0@ == self.members@[b].0@);
            }
            lemma_pointwise_same_view(members@, self.members@);
        }
        JsonObject { members }
    }

    /// Whether the two objects mean the same.
    #[verifier::loop_isolation(false)]
    pub fn equals(&self, other: &JsonObject) -> (r: bool)
        ensures
            r == (self@ == other@),
        decreases self,
    {
        proof {
            use_type_invariant(self);
            use_type_invariant(other);
            lemma_members_view(self.members@);
            lemma_members_view(other.members@);
        }
        let mut i: usize = 0;
        while i < self.members.len()
            invariant
                i <= self.members.len(),
                distinct_keys(self.members@),
                distinct_keys(other.members@),
                forall|j: int|
                    0 <= j < i ==> other@.contains_key(#[trigger] self.members@[j].0@)
                        && other@[self.members@[j].0@] == json_view(self.members@[j].1),
            decreases self.members.len() - i,
        {
            match other.get(self.members[i].0.as_str()) {
                Some(v) => {
                    if !self.members[i].1.equals(v) {
                        proof {
                            assert(self@[self.members@[i as int].0@] == json_view(
                                self.members@[i as int].1,
                            ));
                        }
                        return false;
                    }
                },
                None => {
                    proof {
                        assert(self@.contains_key(self.members@[i as int].0@));
                    }
                    return false;
                },
            }
            i = i + 1;
        }
        let mut j: usize = 0;
        while j < other.members.len()
            invariant
                j <= other.members.len(),
                forall|l: int| 0 <= l < j ==> self@.contains_key(#[trigger] other.members@[l].0@),
            decreases other.members.len() - j,
        {
            if !self.contains_key(other.members[j].0.as_str()) {
                proof {
                    assert(other@.contains_key(other.members@[j as int].0@));
                }
                return false;
            }
            j = j + 1;
        }
        proof {
            assert forall|k: Seq<char>| #[trigger] self@.contains_key(k) implies other@.contains_key(k)
                && self@[k] == other@[k] by {
                let a = choose|a: int| 0 <= a < self.members.len() && self.members@[a].0@ == k;
                assert(self@[self.members@[a].0@] == json_view(self.members@[a].1));
            }
            assert forall|k: Seq<char>| #[trigger] other@.contains_key(k) implies self@.contains_key(
                k,
            ) by {
                let b = choose|b: int| 0 <= b < other.members.len() && other.members@[b].0@ == k;
                assert(self@.contains_key(other.members@[b].0@));
            }
            assert(self@ =~= other@);
        }
        true
    }
}

proof fn lemma_members_len(members: Seq<(String, Json)>)
    requires
        distinct_keys(members),
    ensures
        members_view(members).len() == members.len(),
    decreases members.len(),
{
    if members.len() > 0 {
        let front = members.subrange(0, members.len() - 1);
        let last = members[members.len() - 1];
        assert(distinct_keys(front)) by {
            assert forall|i: int, j: int| 0 <= i < j < front.len() implies front[i].0@
                != front[j].0@ by {
                assert(front[i] == members[i] && front[j] == members[j]);
            }
        }
        lemma_members_len(front);
        lemma_members_view(front);
        if members_view(front).contains_key(last.0@) {
            let i = choose|i: int| 0 <= i < front.len() && front[i].0@ == last.0@;
            assert(members[i].0@ == last.0@);
        }
    }
}

impl Json {
    /// An independent copy with the same meaning.
    #[verifier::loop_isolation(false)]
    pub fn deep_copy(&self) -> (r: Json)
        ensures
            r@ == self@,
        decreases self,
    {
        match self {
            Json::Null => Json::Null,
            Json::Bool(b) => Json::Bool(*b),
            Json::Number(n) => Json::Number(n.clone()),
            Json::String(s) => Json::String(s.clone()),
            Json::Array(items) => {
                let mut copied: Vec<Json> = Vec::new();
                let mut i: usize = 0;
                while i < items.len()
                    invariant
                        i <= items.len(),
                        copied.len() == i,
                        forall|j: int| 0 <= j < i ==> #[trigger] json_view(copied@[j]) == json_view(items@[j]),
                    decreases items.len() - i,
                {
                    let c = items[i].deep_copy();
                    copied.push(c);
                    i = i + 1;
                }
                proof {
                    lemma_items_view(copied@);
                    lemma_items_view(items@);
                    assert(items_view(copied@) =~= items_view(items@));
                }
                Json::Array(copied)
            },
            Json::Object(o) => Json::Object(o.deep_copy()),
        }
    }

    /// Whether the two documents mean the same.
    #[verifier::loop_isolation(false)]
    pub fn equals(&self, other: &Json) -> (r: bool)
        ensures
            r == (self@ == other@),
        decreases self,
    {
        match (self, other) {
            (Json::Null, Json::Null) => true,
            (Json::Bool(a), Json::Bool(b)) => *a == *b,
            (Json::Number(a), Json::Number(b)) => *a == *b,
            (Json::String(a), Json::String(b)) => *a == *b,
            (Json::Array(a), Json::Array(b)) => {
                proof {
                    lemma_items_view(a@);
                    lemma_items_view(b@);
                }
                if a.len() != b.len() {
                    return false;
                }
                let mut i: usize = 0;
                while i < a.len()
                    invariant
                        i <= a.len(),
                        a.len() == b.len(),
                        forall|j: int| 0 <= j < i ==> #[trigger] json_view(a@[j]) == json_view(b@[j]),
                    decreases a.len() - i,
                {
                    if !a[i].equals(&b[i]) {
                        proof {
                            assert(items_view(a@)[i as int] != items_view(b@)[i as int]);
                        }
                        return false;
                    }
                    i = i + 1;
                }
                proof {
                    assert(items_view(a@) =~= items_view(b@));
                }
                true
            },
            (Json::Object(a), Json::Object(b)) => a.equals(b),
            _ => false,
        }
    }

    /// Whether the document is an object.
    pub fn is_object(&self) -> (r: bool)
        ensures
            r == self@ is Object,
    {
        matches!(self, Json::Object(_))
    }

    /// Whether the document is `null`.
    pub fn is_null(&self) -> (r: bool)
        ensures
            r == self@ is Null,
    {
        matches!(self, Json::Null)
    }

    /// The object, if the document is one.
    pub fn as_object(&self) -> (r: Option<&JsonObject>)
        ensures
            r is Some == self@ is Object,
            r matches Some(o) ==> self@ == JsonValue::Object(o@),
    {
        match self {
            Json::Object(o) => Some(o),
            _ => None,
        }
    }

    /// An empty object.
    pub fn empty_object() -> (r: Json)
        ensures
            r@ == JsonValue::Object(Map::empty()),
    {
        Json::Object(JsonObject::new())
    }

    /// A string value.
    pub fn string(text: &str) -> (r: Json)
        ensures
            r@ == JsonValue::String(text@),
    {
        Json::String(text.to_owned())
    }

    /// A number value from its text.
    pub fn number(text: &str) -> (r: Json)
        ensures
            r@ == JsonValue::Number(text@),
    {
        Json::Number(text.to_owned())
    }

    /// The item at `index` of an array.
    pub fn array_item(&self, index: usize) -> (r: Option<&Json>)
        ensures
            match self@ {
                JsonValue::Array(items) => match r {
                    Some(v) => index < items.len() && v@ == items[index as int],
                    None => index >= items.len(),
                },
                _ => r is None,
            },
    {
        match self {
            Json::Array(items) => {
                proof {
                    lemma_items_view(items@);
                }
                if index < items.len() {
                    Some(&items[index])
                } else {
                    None
                }
            },
            _ => None,
        }
    }

    /// An array of the given items.
    pub fn array(items: Vec<Json>) -> (r: Json)
        ensures
            r@ is Array,
            r@->Array_0.len() == items.len(),
            forall|i: int| 0 <= i < items.len() ==> #[trigger] r@->Array_0[i] == items@[i]@,
    {
        proof {
            lemma_items_view(items@);
        }
        Json::Array(items)
    }
}


impl PartialEq for Json {
    fn eq(&self, other: &Json) -> (r: bool) {
        self.equals(other)
    }
}

impl vstd::std_specs::cmp::PartialEqSpecImpl for Json {
    open spec fn obeys_eq_spec() -> bool {
        true
    }

    open spec fn eq_spec(&self, other: &Json) -> bool {
        self@ == other@
    }
}
} // verus!
