//! Persistent-object pool: slots are initialised once, [`ObjectPool::request`]
//! lends a slot without writing to it, and [`ObjectPool::release`] returns it
//! without dropping its contents, so the data survives across borrow cycles.

use crate::critical::CriticalSlots;
use crate::free_slots::{
    ascending_indices, lemma_ascending_indices_valid, lemma_free_stack_as_set, lemma_free_stack_bounded,
    lemma_free_stack_has_room, lemma_push_keeps_valid, valid_free_stack,
    FreeSlots,
};
use core::marker::PhantomData;
use vstd::prelude::*;

verus! {

/// Persistent-object pool of `N` slots, with free-slot backend `B`.
///
/// Obtain one from [`StaticObjectPool::init_pool`]. Every slot always holds a
/// value; a slot is lent out exactly while its index is not free.
pub struct ObjectPool<T, const N: usize, B = CriticalSlots<N>> {
    slots: Vec<T>,
    free: B,
}

/// Storage for an [`ObjectPool`] that has not been initialised yet.
pub struct StaticObjectPool<T, const N: usize, B = CriticalSlots<N>> {
    slots: Vec<T>,
    free: B,
}

/// A borrow of an [`ObjectPool`] slot. Hand it back with
/// [`ObjectPool::release`]; the slot keeps whatever the borrower left in it.
#[must_use]
pub struct ObjectGuard<T, const N: usize, B = CriticalSlots<N>> {
    index: usize,
    marker: PhantomData<(T, B)>,
}

impl<T: Clone, const N: usize, B: FreeSlots<N>> StaticObjectPool<T, N, B> {
    /// The free indices of the storage; empty until the pool is initialised.
    pub closed spec fn free_stack(&self) -> Seq<usize> {
        self.free.stack()
    }

    /// The backend's invariant holds.
    pub closed spec fn wf(&self) -> bool {
        self.free.wf()
    }

    /// Empty storage: no slot exists and no index is free.
    pub fn new() -> (s: Self)
        ensures
            s.wf(),
            s.free_stack() == Seq::<usize>::empty(),
    {
        StaticObjectPool { slots: Vec::new(), free: B::new() }
    }

    /// Initialise the pool, cloning `init` into every one of its `N` slots;
    /// all slots are free, lent from the highest index down.
    pub fn init_pool(self, init: T) -> (pool: ObjectPool<T, N, B>)
        requires
            N > 0,
            self.wf(),
        ensures
            pool.wf(),
            pool@.len() == N,
            forall|i: int| 0 <= i < N ==> cloned(init, #[trigger] pool@[i]),
            pool.free_stack() == ascending_indices(N as nat),
    {
        let mut slots: Vec<T> = self.slots;
        let mut free = self.free;
        slots.clear();
        let filled = free.fill(N);
        assert(filled is Ok);
        proof {
            lemma_ascending_indices_valid(N, N);
        }
        let mut i: usize = 0;
        while i < N
            invariant
                i <= N,
                slots@.len() == i,
                forall|j: int| 0 <= j < i ==> cloned(init, #[trigger] slots@[j]),
            decreases N - i,
        {
            slots.push(init.clone());
            i = i + 1;
        }
        ObjectPool { slots, free }
    }
}

impl<T, const N: usize, B: FreeSlots<N>> View for ObjectPool<T, N, B> {
    type V = Seq<T>;

    /// The slot contents.
    closed spec fn view(&self) -> Seq<T> {
        self.slots@
    }
}

impl<T, const N: usize, B: FreeSlots<N>> ObjectPool<T, N, B> {
    /// The free indices, the one `request` lends next last.
    pub closed spec fn free_stack(&self) -> Seq<usize> {
        self.free.stack()
    }

    /// Slot `i` exists and is lent out.
    pub open spec fn is_borrowed(&self, i: int) -> bool {
        0 <= i < N && !self.free_stack().contains(i as usize)
    }

    /// The pool's invariant: `N` slots and a valid free stack.
    pub closed spec fn wf(&self) -> bool {
        &&& self.slots@.len() == N
        &&& self.free.wf()
        &&& valid_free_stack(self.free.stack(), N)
    }

    /// A valid pool has `N` slots and a valid free stack.
    pub proof fn lemma_wf(&self)
        requires
            self.wf(),
        ensures
            self@.len() == N,
            valid_free_stack(self.free_stack(), N),
            self.free_stack().len() <= N,
    {
        lemma_free_stack_bounded(self.free.stack(), N);
    }

    /// The pool is exhausted exactly when all `N` slots are lent out, so
    /// `request` returns `None` only when every slot is borrowed.
    pub proof fn lemma_exhausted_iff_all_borrowed(&self)
        requires
            self.wf(),
        ensures
            self.free_stack().len() == 0 <==> forall|i: int| 0 <= i < N ==> #[trigger] self.is_borrowed(i),
    {
        let s = self.free.stack();
        if s.len() > 0 {
            let top = s[s.len() - 1];
            assert(s.contains(top));
            assert(!self.is_borrowed(top as int));
        }
    }

    /// The indices of the slots that are lent out.
    pub open spec fn borrowed(&self) -> Set<usize> {
        Set::new(|i: usize| self.is_borrowed(i as int))
    }

    /// Free indices and lent slots add up to `N`, so `request` succeeds
    /// exactly when fewer than `N` slots are lent out.
    pub proof fn lemma_free_plus_borrowed(&self)
        requires
            self.wf(),
        ensures
            self.borrowed().finite(),
            self.free_stack().len() + self.borrowed().len() == N,
            self.free_stack().len() > 0 <==> self.borrowed().len() < N,
    {
        let s = self.free.stack();
        let all = Set::<usize>::range(0, N);
        let f = s.to_set();
        let h = self.borrowed();
        lemma_free_stack_as_set(s, N);
        assert(h.subset_of(all));
        vstd::set_lib::lemma_len_subset(h, all);
        assert(f.disjoint(h));
        assert(f + h =~= all) by {
            assert forall|v: usize| all.contains(v) implies (f + h).contains(v) by {
                if !h.contains(v) {
                    assert(s.contains(v));
                }
            }
        }
        vstd::set_lib::lemma_set_disjoint_lens(f, h);
    }

    /// Data persists across borrow cycles: after releasing slot `i`, the next
    /// `request` lends slot `i` again, with every slot holding what it held
    /// before, and the free stack is back to what it was.
    pub proof fn lemma_release_then_request(p0: Self, p1: Self, p2: Self, i: usize)
        requires
            p0.wf(),
            p0.is_borrowed(i as int),
            p1@ == p0@,
            p1.free_stack() == p0.free_stack().push(i),
            p2@ == p1@,
            p2.free_stack() == p1.free_stack().drop_last(),
        ensures
            p1.free_stack().last() == i,
            p2@ == p0@,
            p2.free_stack() == p0.free_stack(),
    {
        assert(p2.free_stack() =~= p0.free_stack());
    }

    /// Requesting a slot and releasing it again gives back the pool exactly as
    /// it was.
    pub proof fn lemma_request_then_release(p0: Self, p1: Self, p2: Self)
        requires
            p0.wf(),
            p0.free_stack().len() > 0,
            p1@ == p0@,
            p1.free_stack() == p0.free_stack().drop_last(),
            p2@ == p1@,
            p2.free_stack() == p1.free_stack().push(p0.free_stack().last()),
        ensures
            p2@ == p0@,
            p2.free_stack() == p0.free_stack(),
    {
        assert(p2.free_stack() =~= p0.free_stack());
    }

    /// Borrow a slot. Its contents are left as they are: no value is written.
    /// Returns `None` when all slots are in use.
    pub fn request(&mut self) -> (r: Option<ObjectGuard<T, N, B>>)
        requires
            old(self).wf(),
        ensures
            final(self).wf(),
            final(self)@ == old(self)@,
            old(self).free_stack().len() == 0 ==> {
                &&& r is None
                &&& final(self).free_stack() == old(self).free_stack()
            },
            old(self).free_stack().len() > 0 ==> {
                &&& r is Some
                &&& r->Some_0.slot_index() == old(self).free_stack().last()
                &&& !old(self).is_borrowed(r->Some_0.slot_index() as int)
                &&& final(self).is_borrowed(r->Some_0.slot_index() as int)
                &&& final(self).free_stack() == old(self).free_stack().drop_last()
            },
    {
        match self.free.take() {
            Some(index) => {
                proof {
                    let s = old(self).free.stack();
                    assert(s[s.len() - 1] < N);
                    assert(s.contains(index));
                    if self.free.stack().contains(index) {
                        let k = choose|k: int| 0 <= k < s.len() - 1 && s[k] == index;
                        assert(s[k] == s[s.len() - 1]);
                    }
                }
                Some(ObjectGuard { index, marker: PhantomData })
            },
            None => None,
        }
    }

    /// Return the guard's slot to the free set **without** dropping its contents.
    pub fn release(&mut self, guard: ObjectGuard<T, N, B>)
        requires
            old(self).wf(),
            old(self).is_borrowed(guard.slot_index() as int),
        ensures
            final(self).wf(),
            final(self)@ == old(self)@,
            final(self).free_stack() == old(self).free_stack().push(guard.slot_index()),
    {
        proof {
            let s = self.free.stack();
            self.free.lemma_put_admits(guard.index);
            lemma_free_stack_has_room(s, N, guard.index);
            lemma_push_keeps_valid(s, N, guard.index);
        }
        self.free.put(guard.index);
    }
}

impl<T, const N: usize, B: FreeSlots<N>> ObjectGuard<T, N, B> {
    /// The index of the slot this guard stands for.
    pub closed spec fn slot_index(&self) -> usize {
        self.index
    }

    /// Read the borrowed slot.
    pub fn deref<'a>(&self, pool: &'a ObjectPool<T, N, B>) -> (r: &'a T)
        requires
            pool.wf(),
            pool.is_borrowed(self.slot_index() as int),
        ensures
            *r == pool@[self.slot_index() as int],
    {
        &pool.slots[self.index]
    }

    /// Write access to the borrowed slot; what is left there persists.
    pub fn deref_mut<'a>(&self, pool: &'a mut ObjectPool<T, N, B>) -> (r: &'a mut T)
        requires
            old(pool).wf(),
            old(pool).is_borrowed(self.slot_index() as int),
        ensures
            *r == old(pool)@[self.slot_index() as int],
            final(pool).wf(),
            final(pool)@ == old(pool)@.update(self.slot_index() as int, *final(r)),
            final(pool).free_stack() == old(pool).free_stack(),
    {
        &mut pool.slots[self.index]
    }
}

} // verus!
