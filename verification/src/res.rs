//! The typed singleton store: a map from resource kind to the one stored
//! value of that kind.
//!
//! A resource kind is named by a [`ResourceId`]; the store owns at most one
//! value per kind. Its mathematical model is a `Map<ResourceId, V>`, and every
//! operation is specified against that map.

use vstd::prelude::*;

use vstd::pervasive::unreached;

verus! {

/// Process-wide identity of a resource kind: unique per distinct kind, equal
/// for every value of the same kind.
#[derive(Clone, Copy, PartialEq, Eq, Hash, Debug, Structural)]
pub struct ResourceId {
    pub id: u64,
}

impl ResourceId {
    pub fn new(id: u64) -> (r: ResourceId)
        ensures
            r.id == id,
    {
        ResourceId { id }
    }
}

/// The map described by an association list of slots, later entries winning.
pub open spec fn slots_to_map<V>(s: Seq<(ResourceId, V)>) -> Map<ResourceId, V>
    decreases s.len(),
{
    if s.len() == 0 {
        Map::empty()
    } else {
        slots_to_map(s.drop_last()).insert(s.last().0, s.last().1)
    }
}

/// No two slots name the same resource kind.
pub open spec fn keys_unique<V>(s: Seq<(ResourceId, V)>) -> bool {
    forall|i: int, j: int| 0 <= i < j < s.len() ==> (#[trigger] s[i]).0 != (#[trigger] s[j]).0
}

proof fn lemma_slots_contains<V>(s: Seq<(ResourceId, V)>, k: ResourceId)
    ensures
        slots_to_map(s).contains_key(k) <==> exists|i: int|
            0 <= i < s.len() && (#[trigger] s[i]).0 == k,
    decreases s.len(),
{
    if s.len() > 0 {
        lemma_slots_contains(s.drop_last(), k);
        if s.last().0 == k {
            assert(s[s.len() - 1].0 == k);
        } else {
            if slots_to_map(s).contains_key(k) {
                let i = choose|i: int| 0 <= i < s.drop_last().len() && (#[trigger] s.drop_last()[i]).0 == k;
                assert(s[i].0 == k);
            }
            if exists|i: int| 0 <= i < s.len() && (#[trigger] s[i]).0 == k {
                let i = choose|i: int| 0 <= i < s.len() && (#[trigger] s[i]).0 == k;
                assert(i < s.len() - 1);
                assert(s.drop_last()[i].0 == k);
            }
        }
    }
}

proof fn lemma_slots_get<V>(s: Seq<(ResourceId, V)>, i: int)
    requires
        keys_unique(s),
        0 <= i < s.len(),
    ensures
        slots_to_map(s).contains_key(s[i].0),
        slots_to_map(s)[s[i].0] == s[i].1,
    decreases s.len(),
{
    if i == s.len() - 1 {
    } else {
        assert(s[i].0 != s.last().0);
        assert(s.drop_last()[i] == s[i]);
        lemma_slots_get(s.drop_last(), i);
    }
}

proof fn lemma_slots_update<V>(s: Seq<(ResourceId, V)>, i: int, v: V)
    requires
        keys_unique(s),
        0 <= i < s.len(),
    ensures
        slots_to_map(s.update(i, (s[i].0, v))) == slots_to_map(s).insert(s[i].0, v),
        keys_unique(s.update(i, (s[i].0, v))),
    decreases s.len(),
{
    let k = s[i].0;
    let t = s.update(i, (k, v));
    assert(keys_unique(t)) by {
        assert forall|a: int, b: int| 0 <= a < b < t.len() implies (#[trigger] t[a]).0
            != (#[trigger] t[b]).0 by {
            assert(s[a].0 != s[b].0);
        }
    }
    if i == s.len() - 1 {
        assert(t.drop_last() =~= s.drop_last());
        assert(slots_to_map(t) =~= slots_to_map(s).insert(k, v));
    } else {
        assert(t.drop_last() =~= s.drop_last().update(i, (k, v)));
        assert(s.drop_last()[i] == s[i]);
        lemma_slots_update(s.drop_last(), i, v);
        assert(s[i].0 != s.last().0);
        assert(slots_to_map(t) =~= slots_to_map(s).insert(k, v));
    }
}

proof fn lemma_slots_remove<V>(s: Seq<(ResourceId, V)>, i: int)
    requires
        keys_unique(s),
        0 <= i < s.len(),
    ensures
        slots_to_map(s.remove(i)) == slots_to_map(s).remove(s[i].0),
        keys_unique(s.remove(i)),
    decreases s.len(),
{
    let k = s[i].0;
    let t = s.remove(i);
    assert(keys_unique(t)) by {
        assert forall|a: int, b: int| 0 <= a < b < t.len() implies (#[trigger] t[a]).0
            != (#[trigger] t[b]).0 by {
            let sa = if a < i { a } else { a + 1 };
            let sb = if b < i { b } else { b + 1 };
            assert(t[a] == s[sa]);
            assert(t[b] == s[sb]);
        }
    }
    if i == s.len() - 1 {
        assert(t =~= s.drop_last());
        lemma_slots_contains(s.drop_last(), k);
        assert(!slots_to_map(s.drop_last()).contains_key(k)) by {
            if slots_to_map(s.drop_last()).contains_key(k) {
                let j = choose|j: int|
                    0 <= j < s.drop_last().len() && (#[trigger] s.drop_last()[j]).0 == k;
                assert(s[j].0 == k);
            }
        }
        assert(slots_to_map(t) =~= slots_to_map(s).remove(k));
    } else {
        assert(t.drop_last() =~= s.drop_last().remove(i));
        assert(t.last() == s.last());
        assert(s.drop_last()[i] == s[i]);
        lemma_slots_remove(s.drop_last(), i);
        assert(s[i].0 != s.last().0);
        assert(slots_to_map(t) =~= slots_to_map(s).remove(k));
    }
}

proof fn lemma_slots_push<V>(s: Seq<(ResourceId, V)>, k: ResourceId, v: V)
    requires
        keys_unique(s),
        forall|i: int| 0 <= i < s.len() ==> (#[trigger] s[i]).0 != k,
    ensures
        slots_to_map(s.push((k, v))) == slots_to_map(s).insert(k, v),
        keys_unique(s.push((k, v))),
{
    assert(s.push((k, v)).drop_last() =~= s);
    let t = s.push((k, v));
    assert(keys_unique(t)) by {
        assert forall|a: int, b: int| 0 <= a < b < t.len() implies (#[trigger] t[a]).0
            != (#[trigger] t[b]).0 by {
            if b < t.len() - 1 {
                assert(s[a].0 != s[b].0);
            } else {
                assert(s[a].0 != k);
            }
        }
    }
}


proof fn lemma_slots_update_all<V>(s: Seq<(ResourceId, V)>, i: int)
    requires
        keys_unique(s),
        0 <= i < s.len(),
    ensures
        forall|v: V|
            slots_to_map(#[trigger] s.update(i, (s[i].0, v))) == slots_to_map(s).insert(s[i].0, v)
                && keys_unique(s.update(i, (s[i].0, v))),
{
    assert forall|v: V|
        slots_to_map(#[trigger] s.update(i, (s[i].0, v))) == slots_to_map(s).insert(s[i].0, v)
            && keys_unique(s.update(i, (s[i].0, v))) by {
        lemma_slots_update(s, i, v);
    }
}

proof fn lemma_slots_push_all<V>(s: Seq<(ResourceId, V)>, k: ResourceId)
    requires
        keys_unique(s),
        forall|i: int| 0 <= i < s.len() ==> (#[trigger] s[i]).0 != k,
    ensures
        forall|v: V|
            slots_to_map(#[trigger] s.push((k, v))) == slots_to_map(s).insert(k, v) && keys_unique(
                s.push((k, v)),
            ),
{
    assert forall|v: V|
        slots_to_map(#[trigger] s.push((k, v))) == slots_to_map(s).insert(k, v) && keys_unique(
            s.push((k, v)),
        ) by {
        lemma_slots_push(s, k, v);
    }
}

/// The heterogeneous singleton store: one slot per resource kind.
///
/// `V` is the caller's resource representation; a store holding resources of
/// several shapes holds them as variants of one `V`.
pub struct Resources<V> {
    slots: Vec<(ResourceId, V)>,
}

impl<V> View for Resources<V> {
    type V = Map<ResourceId, V>;

    closed spec fn view(&self) -> Map<ResourceId, V> {
        slots_to_map(self.slots@)
    }
}

impl<V> Resources<V> {
    /// Every kind occupies at most one slot.
    pub closed spec fn wf(&self) -> bool {
        keys_unique(self.slots@)
    }

    /// Creates an empty store.
    pub fn new() -> (r: Resources<V>)
        ensures
            r.wf(),
            r@ == Map::<ResourceId, V>::empty(),
    {
        Resources { slots: Vec::new() }
    }

    /// The index of the slot holding `id`, if one does.
    fn position(&self, id: ResourceId) -> (r: Option<usize>)
        ensures
            match r {
                Some(i) => i < self.slots@.len() && self.slots@[i as int].0 == id,
                None => forall|i: int|
                    0 <= i < self.slots@.len() ==> (#[trigger] self.slots@[i]).0 != id,
            },
    {
        let mut i: usize = 0;
        while i < self.slots.len()
            invariant
                i <= self.slots@.len(),
                forall|j: int| 0 <= j < i ==> (#[trigger] self.slots@[j]).0 != id,
            decreases self.slots@.len() - i,
        {
            if self.slots[i].0 == id {
                return Some(i);
            }
            i = i + 1;
        }
        None
    }

    /// Whether a value of kind `id` is stored.
    pub fn contains(&self, id: ResourceId) -> (r: bool)
        ensures
            r == self@.contains_key(id),
    {
        proof {
            lemma_slots_contains(self.slots@, id);
        }
        self.position(id).is_some()
    }

    /// The stored value of kind `id`, if one is stored.
    pub fn get(&self, id: ResourceId) -> (r: Option<&V>)
        requires
            self.wf(),
        ensures
            match r {
                Some(v) => self@.contains_key(id) && *v == self@[id],
                None => !self@.contains_key(id),
            },
    {
        proof {
            lemma_slots_contains(self.slots@, id);
        }
        match self.position(id) {
            Some(i) => {
                proof {
                    lemma_slots_get(self.slots@, i as int);
                }
                Some(&self.slots[i].1)
            },
            None => None,
        }
    }

    /// Creates or overwrites the slot of kind `id`.
    pub fn insert(&mut self, id: ResourceId, value: V)
        requires
            old(self).wf(),
        ensures
            final(self).wf(),
            final(self)@ == old(self)@.insert(id, value),
    {
        match self.position(id) {
            Some(i) => {
                proof {
                    lemma_slots_update(self.slots@, i as int, value);
                }
                self.slots[i] = (id, value);
            },
            None => {
                proof {
                    lemma_slots_push(self.slots@, id, value);
                }
                self.slots.push((id, value));
            },
        }
    }

    /// Removes and returns the stored value of kind `id`, or nothing when no
    /// value of that kind is stored.
    pub fn remove(&mut self, id: ResourceId) -> (r: Option<V>)
        requires
            old(self).wf(),
        ensures
            final(self).wf(),
            final(self)@ == old(self)@.remove(id),
            match r {
                Some(v) => old(self)@.contains_key(id) && v == old(self)@[id],
                None => !old(self)@.contains_key(id),
            },
    {
        proof {
            lemma_slots_contains(self.slots@, id);
        }
        match self.position(id) {
            Some(i) => {
                proof {
                    lemma_slots_get(self.slots@, i as int);
                    lemma_slots_remove(self.slots@, i as int);
                }
                let (_, v) = self.slots.remove(i);
                Some(v)
            },
            None => {
                proof {
                    assert(old(self)@ =~= old(self)@.remove(id));
                }
                None
            },
        }
    }

    /// A mutable borrow of the stored value of kind `id`, if one is stored.
    pub fn get_mut(&mut self, id: ResourceId) -> (r: Option<&mut V>)
        requires
            old(self).wf(),
        ensures
            match r {
                Some(v) => old(self)@.contains_key(id) && *v == old(self)@[id] && final(self).wf()
                    && final(self)@ == old(self)@.insert(id, *final(v)),
                None => !old(self)@.contains_key(id) && final(self).wf() && final(self)@ == old(
                    self,
                )@,
            },
    {
        proof {
            lemma_slots_contains(self.slots@, id);
        }
        match self.position(id) {
            Some(i) => {
                proof {
                    lemma_slots_get(self.slots@, i as int);
                    lemma_slots_update_all(self.slots@, i as int);
                }
                Some(&mut self.slots[i].1)
            },
            None => None,
        }
    }

    /// A shared borrow of the stored value of kind `id`; when no such value is
    /// stored, first provisions the kind's default.
    pub fn fetch(&mut self, id: ResourceId) -> (r: &V) where V: Default
        requires
            old(self).wf(),
        ensures
            final(self).wf(),
            final(self)@.contains_key(id),
            *r == final(self)@[id],
            old(self)@.contains_key(id) ==> final(self)@ == old(self)@ && *r == old(self)@[id],
            !old(self)@.contains_key(id) ==> final(self)@ == old(self)@.insert(id, *r),
    {
        if !self.contains(id) {
            self.insert(id, V::default());
        }
        match self.get(id) {
            Some(v) => v,
            None => unreached(),
        }
    }

    /// A shared borrow of the stored value of kind `id`, or the missing kind
    /// itself when no value of that kind is stored; never provisions anything.
    pub fn fetch_expect(&self, id: ResourceId) -> (r: Result<&V, ResourceId>)
        requires
            self.wf(),
        ensures
            match r {
                Ok(v) => self@.contains_key(id) && *v == self@[id],
                Err(missing) => !self@.contains_key(id) && missing == id,
            },
    {
        match self.get(id) {
            Some(v) => Ok(v),
            None => Err(id),
        }
    }

    /// A mutable borrow of the slot of kind `id`, inserting `default` first
    /// when the slot is empty: get-or-insert in one operation.
    pub fn entry(&mut self, id: ResourceId, default: V) -> (r: &mut V)
        requires
            old(self).wf(),
        ensures
            final(self).wf(),
            *r == if old(self)@.contains_key(id) {
                old(self)@[id]
            } else {
                default
            },
            final(self)@ == old(self)@.insert(id, *final(r)),
    {
        proof {
            lemma_slots_contains(self.slots@, id);
        }
        match self.position(id) {
            Some(i) => {
                proof {
                    lemma_slots_get(self.slots@, i as int);
                    lemma_slots_update_all(self.slots@, i as int);
                }
                &mut self.slots[i].1
            },
            None => {
                let ghost pre = self.slots@;
                self.slots.push((id, default));
                let n = self.slots.len();
                proof {
                    lemma_slots_push_all(pre, id);
                    assert forall|v: V|
                        #[trigger] pre.push((id, default)).update(pre.len() as int, (id, v))
                            =~= pre.push((id, v)) by {
                    }
                }
                &mut self.slots[n - 1].1
            },
        }
    }
}

} // verus!
