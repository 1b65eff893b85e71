//! The meta table: a type-erased capability registry. Registering a resource
//! kind makes every stored value of that kind reachable through one interface
//! view, without knowing its concrete shape; iteration walks the registered
//! kinds in registration order and skips the ones the store does not hold.

use vstd::prelude::*;

use core::marker::PhantomData;

use vstd::pervasive::unreached;

use crate::access::vec_contains;
use crate::res::{ResourceId, Resources};

verus! {

/// Makes a resource representation compatible with a meta table of views `T`:
/// how to reinterpret a stored value as the interface view the table hands
/// out. The pair of casts is the per-interface dispatch captured once, instead
/// of a reconstructed raw pointer.
pub trait CastFrom<T> {
    /// Casts a shared borrow of a stored value to the interface view.
    fn cast(t: &T) -> &Self;

    /// Casts a mutable borrow of a stored value to the interface view.
    fn cast_mut(t: &mut T) -> &mut Self;
}

/// The registry: which resource kinds expose the interface view `T`, in
/// registration order.
pub struct MetaTable<T> {
    tys: Vec<ResourceId>,
    marker: PhantomData<T>,
}

impl<T> View for MetaTable<T> {
    type V = Seq<ResourceId>;

    closed spec fn view(&self) -> Seq<ResourceId> {
        self.tys@
    }
}

impl<T> MetaTable<T> {
    /// No kind is registered twice.
    pub closed spec fn wf(&self) -> bool {
        self.tys@.no_duplicates()
    }

    /// Creates an empty table.
    pub fn new() -> (r: MetaTable<T>)
        ensures
            r.wf(),
            r@ == Seq::<ResourceId>::empty(),
    {
        MetaTable { tys: Vec::new(), marker: PhantomData }
    }

    /// Registers the resource kind `id` as exposing the view `T`. Registering
    /// a kind twice changes nothing; order of first registration is kept.
    pub fn register(&mut self, id: ResourceId)
        requires
            old(self).wf(),
        ensures
            final(self).wf(),
            old(self)@.contains(id) ==> final(self)@ == old(self)@,
            !old(self)@.contains(id) ==> final(self)@ == old(self)@.push(id),
    {
        if !vec_contains(&self.tys, id) {
            let ghost pre = self.tys@;
            self.tys.push(id);
            proof {
                assert forall|a: int, b: int|
                    0 <= a < b < self.tys@.len() implies self.tys@[a] != self.tys@[b] by {
                    if b < self.tys@.len() - 1 {
                        assert(pre[a] != pre[b]);
                    } else {
                        assert(!pre.contains(id));
                        assert(pre[a] == self.tys@[a]);
                    }
                }
            }
        }
    }

    /// Whether kind `id` is registered.
    pub fn registered(&self, id: ResourceId) -> (r: bool)
        ensures
            r == self@.contains(id),
    {
        vec_contains(&self.tys, id)
    }

    /// The interface view of `value`, a stored resource of kind `id`, or
    /// nothing when that kind was never registered.
    pub fn get<'a, V>(&self, id: ResourceId, value: &'a V) -> (r: Option<&'a T>) where T: CastFrom<V>
        ensures
            r is Some <==> self@.contains(id),
    {
        if vec_contains(&self.tys, id) {
            Some(cast_shared(value))
        } else {
            None
        }
    }

    /// The mutable interface view of `value`, a stored resource of kind `id`,
    /// or nothing when that kind was never registered.
    pub fn get_mut<'a, V>(&self, id: ResourceId, value: &'a mut V) -> (r: Option<
        &'a mut T,
    >) where T: CastFrom<V>
        ensures
            r is Some <==> self@.contains(id),
    {
        if vec_contains(&self.tys, id) {
            Some(cast_exclusive(value))
        } else {
            None
        }
    }

    /// An iterator over the registered kinds, to be driven against a store.
    pub fn iter(&self) -> (it: MetaIter<T>)
        ensures
            it.kinds@ == self@,
            it.index == 0,
    {
        MetaIter { kinds: crate::access::copy_ids(&self.tys), index: 0, marker: PhantomData }
    }

    /// A mutable iterator over the registered kinds, to be driven against a
    /// store.
    pub fn iter_mut(&self) -> (it: MetaIterMut<T>)
        ensures
            it.kinds@ == self@,
            it.index == 0,
    {
        MetaIterMut { kinds: crate::access::copy_ids(&self.tys), index: 0, marker: PhantomData }
    }
}

fn cast_shared<'a, T: CastFrom<V>, V>(value: &'a V) -> &'a T {
    T::cast(value)
}

fn cast_exclusive<'a, T: CastFrom<V>, V>(value: &'a mut V) -> &'a mut T {
    T::cast_mut(value)
}

/// Walks a snapshot of the registered kinds in registration order, yielding
/// the view of each kind the store currently holds and skipping absent ones.
pub struct MetaIter<T> {
    pub kinds: Vec<ResourceId>,
    pub index: usize,
    pub marker: PhantomData<T>,
}

impl<T> MetaIter<T> {
    /// The view of the first registered kind at or after the cursor that is
    /// present in `res`, or nothing when every remaining kind is absent.
    pub fn next<'a, V>(&mut self, res: &'a Resources<V>) -> (r: Option<&'a T>) where T: CastFrom<V>
        requires
            res.wf(),
            old(self).index <= old(self).kinds@.len(),
        ensures
            final(self).index <= final(self).kinds@.len(),
            final(self).kinds@ == old(self).kinds@,
            match r {
                Some(t) => {
                    &&& old(self).index < final(self).index <= old(self).kinds@.len()
                    &&& res@.contains_key(old(self).kinds@[final(self).index - 1])
                    &&& forall|j: int|
                        old(self).index <= j < final(self).index - 1 ==> !res@.contains_key(
                            #[trigger] old(self).kinds@[j],
                        )
                },
                None => {
                    &&& final(self).index == old(self).kinds@.len()
                    &&& forall|j: int|
                        old(self).index <= j < old(self).kinds@.len() ==> !res@.contains_key(
                            #[trigger] old(self).kinds@[j],
                        )
                },
            },
    {
        while self.index < self.kinds.len()
            invariant
                res.wf(),
                old(self).index <= self.index <= self.kinds@.len(),
                self.kinds@ == old(self).kinds@,
                forall|j: int|
                    old(self).index <= j < self.index ==> !res@.contains_key(
                        #[trigger] self.kinds@[j],
                    ),
            decreases self.kinds@.len() - self.index,
        {
            let id = self.kinds[self.index];
            self.index = self.index + 1;
            match res.get(id) {
                Some(v) => {
                    return Some(cast_shared(v));
                },
                None => {},
            }
        }
        None
    }
}

/// As `MetaIter`, but yields mutable views; each call reborrows the store.
pub struct MetaIterMut<T> {
    pub kinds: Vec<ResourceId>,
    pub index: usize,
    pub marker: PhantomData<T>,
}

impl<T> MetaIterMut<T> {
    /// The mutable view of the first registered kind at or after the cursor
    /// that is present in `res`, or nothing when every remaining kind is
    /// absent. The store keeps its kinds; only the yielded kind's value may
    /// change, through the view.
    /// Advances the cursor to just past the first remaining kind present in
    /// `res`, and says which kind that was.
    fn advance<V>(&mut self, res: &Resources<V>) -> (r: Option<ResourceId>)
        requires
            old(self).index <= old(self).kinds@.len(),
        ensures
            final(self).index <= final(self).kinds@.len(),
            final(self).kinds@ == old(self).kinds@,
            match r {
                Some(id) => {
                    &&& old(self).index < final(self).index <= old(self).kinds@.len()
                    &&& id == old(self).kinds@[final(self).index - 1]
                    &&& res@.contains_key(id)
                    &&& forall|j: int|
                        old(self).index <= j < final(self).index - 1 ==> !res@.contains_key(
                            #[trigger] old(self).kinds@[j],
                        )
                },
                None => {
                    &&& final(self).index == old(self).kinds@.len()
                    &&& forall|j: int|
                        old(self).index <= j < old(self).kinds@.len() ==> !res@.contains_key(
                            #[trigger] old(self).kinds@[j],
                        )
                },
            },
    {
        while self.index < self.kinds.len()
            invariant
                old(self).index <= self.index <= self.kinds@.len(),
                self.kinds@ == old(self).kinds@,
                forall|j: int|
                    old(self).index <= j < self.index ==> !res@.contains_key(
                        #[trigger] self.kinds@[j],
                    ),
            decreases self.kinds@.len() - self.index,
        {
            let id = self.kinds[self.index];
            self.index = self.index + 1;
            if res.contains(id) {
                return Some(id);
            }
        }
        None
    }

    /// The mutable view of the first registered kind at or after the cursor
    /// that is present in `res`, or nothing when every remaining kind is
    /// absent. The store keeps its kinds; only the yielded kind's value may
    /// change, through the view.
    pub fn next<'a, V>(&mut self, res: &'a mut Resources<V>) -> (r: Option<&'a mut T>) where
        T: CastFrom<V>,

        requires
            old(res).wf(),
            old(self).index <= old(self).kinds@.len(),
        ensures
            final(self).index <= final(self).kinds@.len(),
            final(self).kinds@ == old(self).kinds@,
            final(res).wf(),
            final(res)@.dom() =~= old(res)@.dom(),
            match r {
                Some(t) => {
                    &&& old(self).index < final(self).index <= old(self).kinds@.len()
                    &&& old(res)@.contains_key(old(self).kinds@[final(self).index - 1])
                    &&& forall|j: int|
                        old(self).index <= j < final(self).index - 1 ==> !old(res)@.contains_key(
                            #[trigger] old(self).kinds@[j],
                        )
                    &&& forall|k: ResourceId|
                        k != old(self).kinds@[final(self).index - 1] && old(res)@.contains_key(k)
                            ==> final(res)@[k] == old(res)@[k]
                },
                None => {
                    &&& final(self).index == old(self).kinds@.len()
                    &&& final(res)@ == old(res)@
                    &&& forall|j: int|
                        old(self).index <= j < old(self).kinds@.len() ==> !old(res)@.contains_key(
                            #[trigger] old(self).kinds@[j],
                        )
                },
            },
    {
        let found = self.advance(&*res);
        match found {
            Some(id) => match res.get_mut(id) {
                Some(v) => Some(cast_exclusive(v)),
                None => unreached(),
            },
            None => None,
        }
    }
}

/// Whether a reference to `T` is wide — two machine words — that is, whether
/// `T` is unsized. A view type reached through such a reference carries its
/// own dispatch information at runtime; the views this table hands out are
/// plain sized values, for which this reports false.
pub fn assert_unsized<T: ?Sized>() -> (r: bool)
    ensures
        r == (vstd::layout::size_of::<&T>() == 2 * vstd::layout::size_of::<usize>()),
{
    let w = core::mem::size_of::<usize>();
    let p = core::mem::size_of::<&T>();
    if w <= usize::MAX - w {
        p == w + w
    } else {
        false
    }
}

} // verus!
