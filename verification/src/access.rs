//! Capability declarations: which resource kinds a system reads and which it
//! mutates, and when two such declarations conflict.

use vstd::prelude::*;

use crate::res::ResourceId;

verus! {

broadcast use vstd::seq_lib::group_seq_properties;

/// The declared capability of one system: the kinds it borrows shared and the
/// kinds it borrows exclusively. A dynamic declaration stands for an accessor
/// whose kinds are not known statically; it conflicts with every other
/// declaration and therefore always runs alone.
pub struct AccessSet {
    pub reads: Vec<ResourceId>,
    pub writes: Vec<ResourceId>,
    pub dynamic: bool,
}

impl AccessSet {
    /// The set of kinds borrowed shared.
    pub open spec fn read_set(&self) -> Set<ResourceId> {
        Set::new(|r: ResourceId| self.reads@.contains(r))
    }

    /// The set of kinds borrowed exclusively.
    pub open spec fn write_set(&self) -> Set<ResourceId> {
        Set::new(|r: ResourceId| self.writes@.contains(r))
    }

    /// Each kind is declared at most once per list.
    pub open spec fn wf(&self) -> bool {
        self.reads@.no_duplicates() && self.writes@.no_duplicates()
    }

    /// Two declarations conflict when they cannot run concurrently: one of
    /// them is dynamic, or some kind is written by one and read or written by
    /// the other.
    pub open spec fn conflicts_spec(&self, other: &AccessSet) -> bool {
        ||| self.dynamic
        ||| other.dynamic
        ||| ids_intersect(self.writes@, other.writes@)
        ||| ids_intersect(self.writes@, other.reads@)
        ||| ids_intersect(self.reads@, other.writes@)
    }

    /// A declaration with no capability at all.
    pub fn new() -> (r: AccessSet)
        ensures
            r.wf(),
            r.read_set() == Set::<ResourceId>::empty(),
            r.write_set() == Set::<ResourceId>::empty(),
            !r.dynamic,
    {
        let r = AccessSet { reads: Vec::new(), writes: Vec::new(), dynamic: false };
        proof {
            assert(r.read_set() =~= Set::<ResourceId>::empty());
            assert(r.write_set() =~= Set::<ResourceId>::empty());
        }
        r
    }

    /// The declaration of a dynamic accessor.
    pub fn new_dynamic() -> (r: AccessSet)
        ensures
            r.wf(),
            r.read_set() == Set::<ResourceId>::empty(),
            r.write_set() == Set::<ResourceId>::empty(),
            r.dynamic,
    {
        let r = AccessSet { reads: Vec::new(), writes: Vec::new(), dynamic: true };
        proof {
            assert(r.read_set() =~= Set::<ResourceId>::empty());
            assert(r.write_set() =~= Set::<ResourceId>::empty());
        }
        r
    }

    /// Declares shared access to `id`.
    pub fn add_read(&mut self, id: ResourceId)
        requires
            old(self).wf(),
        ensures
            final(self).wf(),
            final(self).read_set() == old(self).read_set().insert(id),
            final(self).writes@ == old(self).writes@,
            final(self).dynamic == old(self).dynamic,
    {
        if !vec_contains(&self.reads, id) {
            self.reads.push(id);
        }
        proof {
            assert(self.read_set() =~= old(self).read_set().insert(id));
        }
    }

    /// Declares exclusive access to `id`.
    pub fn add_write(&mut self, id: ResourceId)
        requires
            old(self).wf(),
        ensures
            final(self).wf(),
            final(self).write_set() == old(self).write_set().insert(id),
            final(self).reads@ == old(self).reads@,
            final(self).dynamic == old(self).dynamic,
    {
        if !vec_contains(&self.writes, id) {
            self.writes.push(id);
        }
        proof {
            assert(self.write_set() =~= old(self).write_set().insert(id));
        }
    }

    /// An element-wise copy.
    pub fn duplicate(&self) -> (r: AccessSet)
        ensures
            r.reads@ == self.reads@,
            r.writes@ == self.writes@,
            r.dynamic == self.dynamic,
            r.read_set() == self.read_set(),
            r.write_set() == self.write_set(),
            r.wf() == self.wf(),
    {
        AccessSet {
            reads: copy_ids(&self.reads),
            writes: copy_ids(&self.writes),
            dynamic: self.dynamic,
        }
    }

    /// Unions `other` into this declaration, deduplicating kinds. This is how
    /// a composite bundle combines its children's declarations.
    pub fn merge(&mut self, other: &AccessSet)
        requires
            old(self).wf(),
        ensures
            final(self).wf(),
            final(self).read_set() == old(self).read_set().union(other.read_set()),
            final(self).write_set() == old(self).write_set().union(other.write_set()),
            final(self).dynamic == (old(self).dynamic || other.dynamic),
    {
        let mut i: usize = 0;
        while i < other.reads.len()
            invariant
                self.wf(),
                i <= other.reads@.len(),
                self.read_set() == old(self).read_set().union(
                    Set::new(|r: ResourceId| other.reads@.subrange(0, i as int).contains(r)),
                ),
                self.writes@ == old(self).writes@,
                self.dynamic == old(self).dynamic,
            decreases other.reads@.len() - i,
        {
            let id = other.reads[i];
            self.add_read(id);
            i = i + 1;
            proof {
                assert(other.reads@.subrange(0, i as int) =~= other.reads@.subrange(
                    0,
                    i - 1,
                ).push(id));
                assert(self.read_set() =~= old(self).read_set().union(
                    Set::new(|r: ResourceId| other.reads@.subrange(0, i as int).contains(r)),
                ));
            }
        }
        proof {
            assert(other.reads@.subrange(0, other.reads@.len() as int) =~= other.reads@);
            assert(self.read_set() =~= old(self).read_set().union(other.read_set()));
        }
        let mut j: usize = 0;
        while j < other.writes.len()
            invariant
                self.wf(),
                j <= other.writes@.len(),
                self.read_set() == old(self).read_set().union(other.read_set()),
                self.write_set() == old(self).write_set().union(
                    Set::new(|r: ResourceId| other.writes@.subrange(0, j as int).contains(r)),
                ),
                self.dynamic == old(self).dynamic,
            decreases other.writes@.len() - j,
        {
            let id = other.writes[j];
            self.add_write(id);
            j = j + 1;
            proof {
                assert(other.writes@.subrange(0, j as int) =~= other.writes@.subrange(
                    0,
                    j - 1,
                ).push(id));
                assert(self.write_set() =~= old(self).write_set().union(
                    Set::new(|r: ResourceId| other.writes@.subrange(0, j as int).contains(r)),
                ));
            }
        }
        proof {
            assert(other.writes@.subrange(0, other.writes@.len() as int) =~= other.writes@);
            assert(self.write_set() =~= old(self).write_set().union(other.write_set()));
        }
        if other.dynamic {
            self.dynamic = true;
        }
    }

    /// Whether this declaration conflicts with `other`.
    pub fn conflicts_with(&self, other: &AccessSet) -> (r: bool)
        ensures
            r == self.conflicts_spec(other),
    {
        if self.dynamic || other.dynamic {
            return true;
        }
        let ww = vecs_intersect(&self.writes, &other.writes);
        let wr = vecs_intersect(&self.writes, &other.reads);
        let rw = vecs_intersect(&self.reads, &other.writes);
        ww || wr || rw
    }
}

/// Whether `v` holds `id`.
pub fn vec_contains(v: &Vec<ResourceId>, id: ResourceId) -> (r: bool)
    ensures
        r == v@.contains(id),
{
    let mut i: usize = 0;
    while i < v.len()
        invariant
            i <= v@.len(),
            forall|j: int| 0 <= j < i ==> v@[j] != id,
        decreases v@.len() - i,
    {
        if v[i] == id {
            return true;
        }
        i = i + 1;
    }
    false
}

/// Whether some kind stands in both lists.
fn vecs_intersect(a: &Vec<ResourceId>, b: &Vec<ResourceId>) -> (r: bool)
    ensures
        r == ids_intersect(a@, b@),
{
    let mut i: usize = 0;
    while i < a.len()
        invariant
            i <= a@.len(),
            forall|j: int| 0 <= j < i ==> !b@.contains(#[trigger] a@[j]),
        decreases a@.len() - i,
    {
        if vec_contains(b, a[i]) {
            return true;
        }
        i = i + 1;
    }
    false
}

/// Whether some kind stands in both sequences.
pub open spec fn ids_intersect(a: Seq<ResourceId>, b: Seq<ResourceId>) -> bool {
    exists|x: ResourceId| a.contains(x) && #[trigger] b.contains(x)
}

/// Conflict is symmetric: a pair may share a stage no matter which of the two
/// is asked.
pub proof fn lemma_conflict_symmetric(a: &AccessSet, b: &AccessSet)
    ensures
        a.conflicts_spec(b) == b.conflicts_spec(a),
{
}

/// Composing capability declarations is order-independent: merging in either
/// order yields the same read set, write set and dynamic flag. Together with
/// `lemma_merge_associative` this makes a composite bundle's declaration
/// independent of its field order.
pub proof fn lemma_merge_commutative(a: &AccessSet, b: &AccessSet)
    ensures
        a.read_set().union(b.read_set()) == b.read_set().union(a.read_set()),
        a.write_set().union(b.write_set()) == b.write_set().union(a.write_set()),
        (a.dynamic || b.dynamic) == (b.dynamic || a.dynamic),
{
    assert(a.read_set().union(b.read_set()) =~= b.read_set().union(a.read_set()));
    assert(a.write_set().union(b.write_set()) =~= b.write_set().union(a.write_set()));
}

/// Composing capability declarations is associative.
pub proof fn lemma_merge_associative(a: &AccessSet, b: &AccessSet, c: &AccessSet)
    ensures
        a.read_set().union(b.read_set()).union(c.read_set()) == a.read_set().union(
            b.read_set().union(c.read_set()),
        ),
        a.write_set().union(b.write_set()).union(c.write_set()) == a.write_set().union(
            b.write_set().union(c.write_set()),
        ),
        ((a.dynamic || b.dynamic) || c.dynamic) == (a.dynamic || (b.dynamic || c.dynamic)),
{
    assert(a.read_set().union(b.read_set()).union(c.read_set()) =~= a.read_set().union(
        b.read_set().union(c.read_set()),
    ));
    assert(a.write_set().union(b.write_set()).union(c.write_set()) =~= a.write_set().union(
        b.write_set().union(c.write_set()),
    ));
}

/// An element-wise copy of a kind list.
pub fn copy_ids(v: &Vec<ResourceId>) -> (r: Vec<ResourceId>)
    ensures
        r@ == v@,
{
    let mut r: Vec<ResourceId> = Vec::new();
    let mut i: usize = 0;
    while i < v.len()
        invariant
            i <= v@.len(),
            r@ == v@.subrange(0, i as int),
        decreases v@.len() - i,
    {
        r.push(v[i]);
        i = i + 1;
        proof {
            assert(r@ =~= v@.subrange(0, i as int));
        }
    }
    proof {
        assert(v@.subrange(0, v@.len() as int) =~= v@);
    }
    r
}

} // verus!
