//! Owned-value pool: [`BoxPool::allocate`] writes a value into a free slot and
//! returns a [`BoxGuard`]; [`BoxPool::release`] drops the value and frees the slot.

use crate::critical::CriticalSlots;
use crate::free_slots::{
    ascending_indices, lemma_ascending_indices_valid, lemma_free_stack_as_set, lemma_free_stack_bounded,
    lemma_free_stack_has_room, lemma_push_keeps_valid, valid_free_stack,
    FreeSlots,
};
use core::marker::PhantomData;
use vstd::prelude::*;

verus! {

/// Owned-value pool of `N` slots, with free-slot backend `B`.
///
/// Obtain one from [`StaticBoxPool::init_pool`]. A slot holds `Some(value)`
/// from the `allocate` that wrote it until its `release`, and `None` while it
/// is free.
pub struct BoxPool<T, const N: usize, B = CriticalSlots<N>> {
    slots: Vec<Option<T>>,
    free: B,
}

/// Storage for a [`BoxPool`] that has not been initialised yet.
pub struct StaticBoxPool<T, const N: usize, B = CriticalSlots<N>> {
    slots: Vec<Option<T>>,
    free: B,
}

/// A handle to an allocated [`BoxPool`] slot. Hand it back with
/// [`BoxPool::release`], which drops the value and frees the slot.
#[must_use]
pub struct BoxGuard<T, const N: usize, B = CriticalSlots<N>> {
    index: usize,
    marker: PhantomData<(T, B)>,
}

impl<T, const N: usize, B: FreeSlots<N>> StaticBoxPool<T, N, B> {
    /// The free indices of the storage; empty until the pool is initialised.
    pub closed spec fn free_stack(&self) -> Seq<usize> {
        self.free.stack()
    }

    /// The backend's invariant holds.
    pub closed spec fn wf(&self) -> bool {
        self.free.wf()
    }

    /// Empty storage: no slot exists and no index is free.
    pub fn new() -> (s: Self)
        ensures
            s.wf(),
            s.free_stack() == Seq::<usize>::empty(),
    {
        StaticBoxPool { slots: Vec::new(), free: B::new() }
    }

    /// Initialise the pool: `N` empty slots, all of them free, handed out
    /// from the highest index down.
    pub fn init_pool(self) -> (pool: BoxPool<T, N, B>)
        requires
            N > 0,
            self.wf(),
        ensures
            pool.wf(),
            pool@ == Seq::new(N as nat, |i: int| None::<T>),
            pool.free_stack() == ascending_indices(N as nat),
    {
        let mut slots: Vec<Option<T>> = self.slots;
        let mut free = self.free;
        slots.clear();
        let mut i: usize = 0;
        while i < N
            invariant
                i <= N,
                slots@ == Seq::new(i as nat, |j: int| None::<T>),
            decreases N - i,
        {
            slots.push(None);
            i = i + 1;
            proof {
                assert(slots@ =~= Seq::new(i as nat, |j: int| None::<T>));
            }
        }
        let _ = free.fill(N);
        proof {
            lemma_ascending_indices_valid(N, N);
        }
        let pool = BoxPool { slots, free };
        proof {
            assert forall|k: int| 0 <= k < N implies (pool.slots@[k] is None
                <==> pool.free.stack().contains(k as usize)) by {
                assert(pool.free.stack()[k] == k as usize);
            }
        }
        pool
    }
}

impl<T, const N: usize, B: FreeSlots<N>> View for BoxPool<T, N, B> {
    type V = Seq<Option<T>>;

    /// The slots: `Some(value)` from `allocate` until `release`, `None` while free.
    closed spec fn view(&self) -> Seq<Option<T>> {
        self.slots@
    }
}

impl<T, const N: usize, B: FreeSlots<N>> BoxPool<T, N, B> {
    /// The free indices, the one `allocate` takes next last.
    pub closed spec fn free_stack(&self) -> Seq<usize> {
        self.free.stack()
    }

    /// Slot `i` exists and holds a value.
    pub open spec fn is_allocated(&self, i: int) -> bool {
        0 <= i < N && self@[i] is Some
    }

    /// The pool's invariant: `N` slots, a valid free stack, and a slot is free
    /// exactly when it is empty.
    pub closed spec fn wf(&self) -> bool {
        &&& self.slots@.len() == N
        &&& self.free.wf()
        &&& valid_free_stack(self.free.stack(), N)
        &&& forall|i: int|
            0 <= i < N ==> (#[trigger] self.slots@[i] is None <==> self.free.stack().contains(
                i as usize,
            ))
    }

    /// A valid pool has `N` slots, and each free index names an empty slot.
    pub proof fn lemma_wf(&self)
        requires
            self.wf(),
        ensures
            self@.len() == N,
            valid_free_stack(self.free_stack(), N),
            self.free_stack().len() <= N,
            forall|i: int| 0 <= i < N ==> (#[trigger] self@[i] is None <==> self.free_stack().contains(i as usize)),
    {
        lemma_free_stack_bounded(self.free.stack(), N);
    }

    /// The pool is exhausted exactly when all `N` slots are allocated, so
    /// `allocate` fails only when every slot holds a value.
    pub proof fn lemma_exhausted_iff_full(&self)
        requires
            self.wf(),
        ensures
            self.free_stack().len() == 0 <==> forall|i: int| 0 <= i < N ==> #[trigger] self.is_allocated(i),
    {
        let s = self.free.stack();
        if s.len() > 0 {
            let top = s[s.len() - 1];
            assert(s.contains(top));
            assert(!self.is_allocated(top as int));
        } else {
            assert forall|i: int| 0 <= i < N implies #[trigger] self.is_allocated(i) by {
                assert(!s.contains(i as usize));
            }
        }
    }

    /// The indices of the slots that are allocated (held by a guard).
    pub open spec fn held(&self) -> Set<usize> {
        Set::new(|i: usize| self.is_allocated(i as int))
    }

    /// Free indices and held slots add up to `N`, so `allocate` succeeds
    /// exactly when fewer than `N` slots are held.
    pub proof fn lemma_free_plus_held(&self)
        requires
            self.wf(),
        ensures
            self.held().finite(),
            self.free_stack().len() + self.held().len() == N,
            self.free_stack().len() > 0 <==> self.held().len() < N,
    {
        let s = self.free.stack();
        let all = Set::<usize>::range(0, N);
        let f = s.to_set();
        let h = self.held();
        lemma_free_stack_as_set(s, N);
        assert(h.subset_of(all));
        vstd::set_lib::lemma_len_subset(h, all);
        assert(f.disjoint(h)) by {
            assert forall|v: usize| f.contains(v) implies !h.contains(v) by {
                assert(s.contains(v));
                if v < N {
                    assert(self.slots@[v as int] is None);
                }
            }
        }
        assert(f + h =~= all) by {
            assert forall|v: usize| all.contains(v) implies (f + h).contains(v) by {
                if !h.contains(v) {
                    assert(self.slots@[v as int] is None);
                    assert(s.contains(v));
                }
            }
        }
        vstd::set_lib::lemma_set_disjoint_lens(f, h);
    }

    /// Allocating and then releasing the new guard gives back the pool exactly
    /// as it was: the same slots and the same free stack.
    pub proof fn lemma_allocate_then_release(p0: Self, p1: Self, p2: Self, value: T)
        requires
            p0.wf(),
            p0.free_stack().len() > 0,
            p1@ == p0@.update(p0.free_stack().last() as int, Some(value)),
            p1.free_stack() == p0.free_stack().drop_last(),
            p2@ == p1@.update(p0.free_stack().last() as int, None),
            p2.free_stack() == p1.free_stack().push(p0.free_stack().last()),
        ensures
            p2@ == p0@,
            p2.free_stack() == p0.free_stack(),
    {
        let s = p0.free.stack();
        let top = s[s.len() - 1];
        assert(s.contains(top));
        assert(p2@ =~= p0@);
        assert(p2.free_stack() =~= p0.free_stack());
    }

    /// Values are never lost or swapped inside the pool: releasing the guard
    /// that `allocate(value)` returned hands back `value` itself, whatever
    /// other slots held, and empties that slot.
    pub proof fn lemma_allocate_then_release_returns_value(
        p0: Self,
        p1: Self,
        p2: Self,
        value: T,
        released: T,
    )
        requires
            p0.wf(),
            p0.free_stack().len() > 0,
            p1@ == p0@.update(p0.free_stack().last() as int, Some(value)),
            p1.free_stack() == p0.free_stack().drop_last(),
            Some(released) == p1@[p0.free_stack().last() as int],
            p2@ == p1@.update(p0.free_stack().last() as int, None),
        ensures
            released == value,
            !p2.is_allocated(p0.free_stack().last() as int),
    {
        let s = p0.free.stack();
        assert(s[s.len() - 1] < N);
    }

    /// A released slot is the first one reused: releasing slot `i` and then
    /// allocating `value` puts `value` into slot `i` and leaves the free stack
    /// as it was before the release.
    pub proof fn lemma_release_then_allocate(p0: Self, p1: Self, p2: Self, i: usize, value: T)
        requires
            p0.wf(),
            p0.is_allocated(i as int),
            p1@ == p0@.update(i as int, None),
            p1.free_stack() == p0.free_stack().push(i),
            p2@ == p1@.update(p1.free_stack().last() as int, Some(value)),
            p2.free_stack() == p1.free_stack().drop_last(),
        ensures
            p1.free_stack().last() == i,
            p2@ == p0@.update(i as int, Some(value)),
            p2.free_stack() == p0.free_stack(),
    {
        assert(p2@ =~= p0@.update(i as int, Some(value)));
        assert(p2.free_stack() =~= p0.free_stack());
    }

    /// Allocate a slot and write `value` into it.
    /// Returns `Err(value)` when the pool is exhausted.
    pub fn allocate(&mut self, value: T) -> (r: Result<BoxGuard<T, N, B>, T>)
        requires
            old(self).wf(),
        ensures
            final(self).wf(),
            old(self).free_stack().len() == 0 ==> {
                &&& r == Err::<BoxGuard<T, N, B>, T>(value)
                &&& final(self)@ == old(self)@
                &&& final(self).free_stack() == old(self).free_stack()
            },
            old(self).free_stack().len() > 0 ==> {
                let top = old(self).free_stack().last();
                &&& r is Ok
                &&& r->Ok_0.slot_index() == top
                &&& old(self)@[top as int] is None
                &&& final(self)@ == old(self)@.update(top as int, Some(value))
                &&& final(self).free_stack() == old(self).free_stack().drop_last()
            },
    {
        match self.free.take() {
            Some(idx) => {
                proof {
                    let s = old(self).free.stack();
                    assert(s[s.len() - 1] < N);
                }
                self.slots.set(idx, Some(value));
                proof {
                    let s = old(self).free.stack();
                    let t = self.free.stack();
                    assert forall|i: int| 0 <= i < N implies (#[trigger] self.slots@[i] is None
                        <==> t.contains(i as usize)) by {
                        if i == idx as int {
                            if t.contains(idx) {
                                let k = choose|k: int| 0 <= k < t.len() && t[k] == idx;
                                assert(s[k] == s[s.len() - 1]);
                            }
                        } else {
                            assert(old(self).slots@[i] == self.slots@[i]);
                            if s.contains(i as usize) {
                                let k = choose|k: int| 0 <= k < s.len() && s[k] == i as usize;
                                assert(k != s.len() - 1);
                                assert(t[k] == s[k]);
                            }
                            if t.contains(i as usize) {
                                let k = choose|k: int| 0 <= k < t.len() && t[k] == i as usize;
                                assert(s[k] == t[k]);
                            }
                        }
                    }
                }
                Ok(BoxGuard { index: idx, marker: PhantomData })
            },
            None => Err(value),
        }
    }

    /// Take the value out of the guard's slot, return the slot to the free set
    /// and hand the value back. The value leaves the pool only through this
    /// result, so a caller that discards it (`pool.release(guard);`) drops it
    /// there and then: its destructor runs exactly once.
    pub fn release(&mut self, guard: BoxGuard<T, N, B>) -> (released: T)
        requires
            old(self).wf(),
            old(self).is_allocated(guard.slot_index() as int),
        ensures
            Some(released) == old(self)@[guard.slot_index() as int],
            final(self).wf(),
            final(self)@ == old(self)@.update(guard.slot_index() as int, None),
            final(self).free_stack() == old(self).free_stack().push(guard.slot_index()),
    {
        let idx = guard.index;
        proof {
            let s = self.free.stack();
            assert(s.contains(idx) ==> self.slots@[idx as int] is None);
            self.free.lemma_put_admits(idx);
            lemma_free_stack_has_room(s, N, idx);
            lemma_push_keeps_valid(s, N, idx);
        }
        let mut taken: Option<T> = None;
        self.slots.set_and_swap(idx, &mut taken);
        self.free.put(idx);
        proof {
            let s = old(self).free.stack();
            let t = self.free.stack();
            assert forall|i: int| 0 <= i < N implies (#[trigger] self.slots@[i] is None
                <==> t.contains(i as usize)) by {
                if i == idx as int {
                    assert(t[t.len() - 1] == idx);
                } else {
                    assert(old(self).slots@[i] == self.slots@[i]);
                    if s.contains(i as usize) {
                        let k = choose|k: int| 0 <= k < s.len() && s[k] == i as usize;
                        assert(t[k] == s[k]);
                    }
                    if t.contains(i as usize) {
                        let k = choose|k: int| 0 <= k < t.len() && t[k] == i as usize;
                        assert(k != t.len() - 1);
                        assert(s[k] == t[k]);
                    }
                }
            }
        }
        taken.unwrap()
    }
}

impl<T, const N: usize, B: FreeSlots<N>> BoxGuard<T, N, B> {
    /// The index of the slot this guard stands for.
    pub closed spec fn slot_index(&self) -> usize {
        self.index
    }

    /// Read the guarded value.
    pub fn deref<'a>(&self, pool: &'a BoxPool<T, N, B>) -> (r: &'a T)
        requires
            pool.wf(),
            pool.is_allocated(self.slot_index() as int),
        ensures
            Some(*r) == pool@[self.slot_index() as int],
    {
        pool.slots[self.index].as_ref().unwrap()
    }

    /// Write access to the guarded value; whatever is left behind stays in the slot.
    pub fn deref_mut<'a>(&self, pool: &'a mut BoxPool<T, N, B>) -> (r: &'a mut T)
        requires
            old(pool).wf(),
            old(pool).is_allocated(self.slot_index() as int),
        ensures
            Some(*r) == old(pool)@[self.slot_index() as int],
            final(pool).wf(),
            final(pool)@ == old(pool)@.update(self.slot_index() as int, Some(*final(r))),
            final(pool).free_stack() == old(pool).free_stack(),
    {
        pool.slots[self.index].as_mut().unwrap()
    }

    /// Clone the value into a fresh slot of the same pool.
    /// Returns `Err(cloned_value)` when the pool is full.
    pub fn try_clone(&self, pool: &mut BoxPool<T, N, B>) -> (r: Result<Self, T>) where T: Clone
        requires
            old(pool).wf(),
            old(pool).is_allocated(self.slot_index() as int),
        ensures
            final(pool).wf(),
            old(pool).free_stack().len() == 0 ==> {
                &&& r is Err
                &&& cloned(old(pool)@[self.slot_index() as int]->Some_0, r->Err_0)
                &&& final(pool)@ == old(pool)@
                &&& final(pool).free_stack() == old(pool).free_stack()
            },
            old(pool).free_stack().len() > 0 ==> {
                let top = old(pool).free_stack().last();
                &&& r is Ok
                &&& r->Ok_0.slot_index() == top
                &&& final(pool)@[top as int] is Some
                &&& cloned(
                    old(pool)@[self.slot_index() as int]->Some_0,
                    final(pool)@[top as int]->Some_0,
                )
                &&& final(pool)@ == old(pool)@.update(top as int, final(pool)@[top as int])
                &&& final(pool).free_stack() == old(pool).free_stack().drop_last()
            },
    {
        let copy = self.deref(pool).clone();
        pool.allocate(copy)
    }

    /// Consume the guard **without** freeing the slot and return the slot
    /// index; [`from_raw`](Self::from_raw) turns it back into a guard.
    /// Not supported for zero-sized types.
    pub fn into_raw(self) -> (r: usize)
        requires
            vstd::layout::size_of::<T>() > 0,
        ensures
            r == self.slot_index(),
    {
        self.index
    }

    /// Rebuild a guard from an index obtained via [`into_raw`](Self::into_raw)
    /// on the same pool, whose slot must still be allocated.
    pub fn from_raw(pool: &BoxPool<T, N, B>, index: usize) -> (g: Self)
        requires
            pool.is_allocated(index as int),
        ensures
            g.slot_index() == index,
    {
        BoxGuard { index, marker: PhantomData }
    }
}

} // verus!
