# slotpool

Fixed-capacity object pools whose slot bookkeeping is verified with Verus.

- `src/free_slots.rs`: the `FreeSlots` interface (a last-in first-out stack of
  free indices below `N`), its model and laws.
- `src/critical.rs`: `CriticalSlots`, a backend that keeps the free indices in a
  `Vec` and updates it inside `critical_section::with`.
- `src/cas.rs`: `CasSlots`, a backend that chains free indices through a
  separate `next` array (plain fields, no atomics).
- `src/boxed.rs`: `BoxPool` / `StaticBoxPool` / `BoxGuard` (owned values).
- `src/object.rs`: `ObjectPool` / `StaticObjectPool` / `ObjectGuard`
  (persistent slots).
- `app/`: front ends that share a pool behind a `critical_section::Mutex` and
  release a slot when its guard is dropped: synchronous ones, and async ones
  (`embassy-sync`) that wait while a pool is full.

Design notes:

- Slots and free indices live in heap-allocated `Vec`s created when a pool is
  initialised; there is no static, heap-free storage. The free-index vector of
  `CriticalSlots` is a std `Vec` bounded by `N`, not a `heapless::Vec`: a
  contents model of `heapless::Vec<usize, N>` would have to be generic in `N`,
  which the verification setup does not accept. As with the bounded vector, a
  `put` onto a full `CriticalSlots` stack changes nothing.
- Pools are owned values used through `&mut`. Guards are handles: reads and
  writes go through the pool (`guard.deref(&pool)`, `guard.deref_mut(&mut pool)`),
  and a guard is given back with `pool.release(guard)`. A guard that is dropped
  without `release` keeps its slot (and, for `BoxPool`, its value) until the
  pool itself is dropped.
- `BoxGuard::into_raw` yields the slot index, not a pointer, so it does not
  serve as a DMA / FFI hand-off; `BoxGuard::from_raw` takes that index back.
  It is not available for zero-sized types.
