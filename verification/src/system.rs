//! The system contract: a unit of work together with its declared capability
//! and a mathematical model of what one run does to the store.

use vstd::prelude::*;

use crate::access::AccessSet;
use crate::res::{ResourceId, Resources};

verus! {

/// A hint on how long a system usually runs; the plan's meaning does not
/// depend on it.
#[derive(Clone, Copy, PartialEq, Eq, Debug, Structural)]
pub enum RunningTime {
    Short,
    Average,
    Long,
}

/// The two maps agree at `k`: `k` is present in both or in neither, and with
/// the same value.
pub open spec fn maps_agree_at<V>(m1: Map<ResourceId, V>, m2: Map<ResourceId, V>, k: ResourceId) -> bool {
    &&& (m1.contains_key(k) <==> m2.contains_key(k))
    &&& (m1.contains_key(k) ==> m1[k] == m2[k])
}

/// A unit of work over stores of `V`-shaped resources.
///
/// A system declares the kinds it reads and the kinds it writes; `run` is its
/// one synchronous invocation. The spec functions `effect` and `step` model a
/// run: they make a system a pure function of its own state and the store, and
/// the two proof obligations confine that function to the declared sets — a
/// system neither touches a kind outside its write set nor depends on a kind
/// outside its declared sets.
pub trait System<V>: Sized {
    /// The kinds this system borrows shared.
    spec fn reads_spec(&self) -> Set<ResourceId>;

    /// The kinds this system borrows exclusively.
    spec fn writes_spec(&self) -> Set<ResourceId>;

    /// Whether this system's accessor is dynamic: its kinds cannot be
    /// declared statically, so the dispatcher always runs it alone.
    spec fn dynamic_spec(&self) -> bool;

    /// The store one run leaves behind, given the store it found.
    spec fn effect(&self, m: Map<ResourceId, V>) -> Map<ResourceId, V>;

    /// The system's own state after one run, given the store it found.
    spec fn step(&self, m: Map<ResourceId, V>) -> Self;

    /// The store `setup` leaves behind, given the store it found.
    spec fn setup_effect(&self, m: Map<ResourceId, V>) -> Map<ResourceId, V>;

    /// The declared capability of this system's input bundle.
    fn access(&self) -> (a: AccessSet)
        ensures
            a.read_set() == self.reads_spec(),
            a.write_set() == self.writes_spec(),
            a.dynamic == self.dynamic_spec(),
    ;

    /// How long this system usually runs.
    fn running_time(&self) -> RunningTime;

    /// Provisions whatever absent resources this system needs defaults for;
    /// called once, before the first dispatch.
    fn setup(&self, res: &mut Resources<V>)
        requires
            old(res).wf(),
        ensures
            final(res).wf(),
            final(res)@ == self.setup_effect(old(res)@),
    ;

    /// One synchronous invocation against the current store.
    fn run(&mut self, res: &mut Resources<V>)
        requires
            old(res).wf(),
        ensures
            final(res).wf(),
            final(res)@ == old(self).effect(old(res)@),
            *final(self) == old(self).step(old(res)@),
    ;

    /// A run leaves every kind outside the declared write set untouched.
    proof fn effect_frame(&self, m: Map<ResourceId, V>)
        ensures
            forall|k: ResourceId|
                !self.writes_spec().contains(k) ==> maps_agree_at(
                    #[trigger] self.effect(m),
                    m,
                    k,
                ),
    ;

    /// A run may change a system's own state, never what it declares.
    proof fn step_access(&self, m: Map<ResourceId, V>)
        ensures
            self.step(m).reads_spec() == self.reads_spec(),
            self.step(m).writes_spec() == self.writes_spec(),
            self.step(m).dynamic_spec() == self.dynamic_spec(),
    ;

    /// What a run writes depends only on the kinds it declared: on two stores
    /// that agree over the declared sets, the runs agree over the write set.
    proof fn effect_reads(&self, m1: Map<ResourceId, V>, m2: Map<ResourceId, V>)
        requires
            forall|k: ResourceId|
                self.reads_spec().contains(k) || self.writes_spec().contains(k)
                    ==> #[trigger] maps_agree_at(m1, m2, k),
        ensures
            forall|k: ResourceId|
                self.writes_spec().contains(k) ==> #[trigger] maps_agree_at(
                    self.effect(m1),
                    self.effect(m2),
                    k,
                ),
    ;
}

/// Two systems whose declarations do not overlap produce the same store in
/// either order. This is what lets every pair of non-conflicting systems share
/// a stage: within a stage the order of completion is immaterial to the final
/// resource values.
pub proof fn lemma_disjoint_systems_commute<V, A: System<V>, B: System<V>>(
    a: &A,
    b: &B,
    m: Map<ResourceId, V>,
)
    requires
        a.writes_spec().disjoint(b.writes_spec()),
        a.writes_spec().disjoint(b.reads_spec()),
        a.reads_spec().disjoint(b.writes_spec()),
    ensures
        b.effect(a.effect(m)) == a.effect(b.effect(m)),
{
    let ab = b.effect(a.effect(m));
    let ba = a.effect(b.effect(m));
    assert forall|k: ResourceId| #[trigger] maps_agree_at(ab, ba, k) by {
        if a.writes_spec().contains(k) {
            assert(!b.writes_spec().contains(k));
            b.effect_frame(a.effect(m));
            assert(maps_agree_at(ab, a.effect(m), k));
            b.effect_frame(m);
            assert(forall|j: ResourceId|
                a.reads_spec().contains(j) || a.writes_spec().contains(j)
                    ==> #[trigger] maps_agree_at(b.effect(m), m, j));
            a.effect_reads(b.effect(m), m);
            assert(maps_agree_at(ba, a.effect(m), k));
        } else if b.writes_spec().contains(k) {
            assert(!a.writes_spec().contains(k));
            a.effect_frame(b.effect(m));
            assert(maps_agree_at(ba, b.effect(m), k));
            a.effect_frame(m);
            assert(forall|j: ResourceId|
                b.reads_spec().contains(j) || b.writes_spec().contains(j)
                    ==> #[trigger] maps_agree_at(a.effect(m), m, j));
            b.effect_reads(a.effect(m), m);
            assert(maps_agree_at(ab, b.effect(m), k));
        } else {
            a.effect_frame(m);
            b.effect_frame(a.effect(m));
            b.effect_frame(m);
            a.effect_frame(b.effect(m));
            assert(maps_agree_at(ab, m, k));
            assert(maps_agree_at(ba, m, k));
        }
    }
    assert forall|k: ResourceId| #[trigger] ab.dom().contains(k) <==> ba.dom().contains(k) by {
        assert(maps_agree_at(ab, ba, k));
    }
    assert forall|k: ResourceId| #[trigger] ab.dom().contains(k) implies ab[k] == ba[k] by {
        assert(maps_agree_at(ab, ba, k));
    }
    assert(ab =~= ba);
}

/// A system that declares capability but does nothing when run. Its value is
/// its declaration: it stands in for work whose store traffic is all that the
/// scheduler needs to know.
pub struct InertSystem {
    pub access: AccessSet,
    pub time: RunningTime,
}

impl InertSystem {
    pub fn new(access: AccessSet) -> (r: InertSystem)
        ensures
            r.access == access,
            r.time == RunningTime::Short,
    {
        InertSystem { access, time: RunningTime::Short }
    }
}

impl<V> System<V> for InertSystem {
    open spec fn reads_spec(&self) -> Set<ResourceId> {
        self.access.read_set()
    }

    open spec fn writes_spec(&self) -> Set<ResourceId> {
        self.access.write_set()
    }

    open spec fn dynamic_spec(&self) -> bool {
        self.access.dynamic
    }

    open spec fn effect(&self, m: Map<ResourceId, V>) -> Map<ResourceId, V> {
        m
    }

    open spec fn step(&self, m: Map<ResourceId, V>) -> Self {
        *self
    }

    open spec fn setup_effect(&self, m: Map<ResourceId, V>) -> Map<ResourceId, V> {
        m
    }

    fn access(&self) -> (a: AccessSet) {
        self.access.duplicate()
    }

    fn running_time(&self) -> RunningTime {
        self.time
    }

    fn setup(&self, res: &mut Resources<V>) {
    }

    fn run(&mut self, res: &mut Resources<V>) {
    }

    proof fn effect_frame(&self, m: Map<ResourceId, V>) {
    }

    proof fn step_access(&self, m: Map<ResourceId, V>) {
    }

    proof fn effect_reads(&self, m1: Map<ResourceId, V>, m2: Map<ResourceId, V>) {
        assert forall|k: ResourceId|
            <Self as System<V>>::writes_spec(self).contains(k) implies #[trigger] maps_agree_at(
            <Self as System<V>>::effect(self, m1),
            <Self as System<V>>::effect(self, m2),
            k,
        ) by {
            assert(maps_agree_at(m1, m2, k));
        }
    }
}

/// Saturating addition on `u64`.
pub open spec fn sat_add_spec(a: u64, b: u64) -> u64 {
    if a + b > u64::MAX {
        u64::MAX
    } else {
        (a + b) as u64
    }
}

/// A system that adds a constant into one counter resource, saturating at the
/// largest value; an absent counter counts as zero. `setup` provisions the
/// counter with zero when it is absent.
pub struct AddSystem {
    pub target: ResourceId,
    pub amount: u64,
}

impl AddSystem {
    pub fn new(target: ResourceId, amount: u64) -> (r: AddSystem)
        ensures
            r.target == target,
            r.amount == amount,
    {
        AddSystem { target, amount }
    }
}

impl System<u64> for AddSystem {
    open spec fn reads_spec(&self) -> Set<ResourceId> {
        Set::empty()
    }

    open spec fn writes_spec(&self) -> Set<ResourceId> {
        Set::empty().insert(self.target)
    }

    open spec fn dynamic_spec(&self) -> bool {
        false
    }

    open spec fn effect(&self, m: Map<ResourceId, u64>) -> Map<ResourceId, u64> {
        let cur = if m.contains_key(self.target) {
            m[self.target]
        } else {
            0u64
        };
        m.insert(self.target, sat_add_spec(cur, self.amount))
    }

    open spec fn step(&self, m: Map<ResourceId, u64>) -> Self {
        *self
    }

    open spec fn setup_effect(&self, m: Map<ResourceId, u64>) -> Map<ResourceId, u64> {
        if m.contains_key(self.target) {
            m
        } else {
            m.insert(self.target, 0u64)
        }
    }

    fn access(&self) -> (a: AccessSet) {
        let mut a = AccessSet::new();
        a.add_write(self.target);
        a
    }

    fn running_time(&self) -> RunningTime {
        RunningTime::Short
    }

    fn setup(&self, res: &mut Resources<u64>) {
        if !res.contains(self.target) {
            res.insert(self.target, 0);
        }
    }

    fn run(&mut self, res: &mut Resources<u64>) {
        let cur: u64 = match res.get(self.target) {
            Some(v) => *v,
            None => 0,
        };
        let next: u64 = if cur <= u64::MAX - self.amount {
            cur + self.amount
        } else {
            u64::MAX
        };
        res.insert(self.target, next);
    }

    proof fn effect_frame(&self, m: Map<ResourceId, u64>) {
    }

    proof fn step_access(&self, m: Map<ResourceId, u64>) {
    }

    proof fn effect_reads(&self, m1: Map<ResourceId, u64>, m2: Map<ResourceId, u64>) {
        assert(maps_agree_at(m1, m2, self.target));
    }
}

/// A system that copies one resource's value over another's; when the source
/// is absent it does nothing.
pub struct CopySystem {
    pub from: ResourceId,
    pub to: ResourceId,
}

impl CopySystem {
    pub fn new(from: ResourceId, to: ResourceId) -> (r: CopySystem)
        ensures
            r.from == from,
            r.to == to,
    {
        CopySystem { from, to }
    }
}

impl<V: Copy> System<V> for CopySystem {
    open spec fn reads_spec(&self) -> Set<ResourceId> {
        Set::empty().insert(self.from)
    }

    open spec fn writes_spec(&self) -> Set<ResourceId> {
        Set::empty().insert(self.to)
    }

    open spec fn dynamic_spec(&self) -> bool {
        false
    }

    open spec fn effect(&self, m: Map<ResourceId, V>) -> Map<ResourceId, V> {
        if m.contains_key(self.from) {
            m.insert(self.to, m[self.from])
        } else {
            m
        }
    }

    open spec fn step(&self, m: Map<ResourceId, V>) -> Self {
        *self
    }

    open spec fn setup_effect(&self, m: Map<ResourceId, V>) -> Map<ResourceId, V> {
        m
    }

    fn access(&self) -> (a: AccessSet) {
        let mut a = AccessSet::new();
        a.add_read(self.from);
        a.add_write(self.to);
        a
    }

    fn running_time(&self) -> RunningTime {
        RunningTime::Short
    }

    fn setup(&self, res: &mut Resources<V>) {
    }

    fn run(&mut self, res: &mut Resources<V>) {
        let got: Option<V> = match res.get(self.from) {
            Some(v) => Some(*v),
            None => None,
        };
        match got {
            Some(val) => {
                res.insert(self.to, val);
            },
            None => {},
        }
    }

    proof fn effect_frame(&self, m: Map<ResourceId, V>) {
    }

    proof fn step_access(&self, m: Map<ResourceId, V>) {
    }

    proof fn effect_reads(&self, m1: Map<ResourceId, V>, m2: Map<ResourceId, V>) {
        assert(maps_agree_at(m1, m2, self.from));
        assert(maps_agree_at(m1, m2, self.to));
    }
}

} // verus!
