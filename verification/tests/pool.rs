use slotpool::cas::CasSlots;
use slotpool::{BoxGuard, BoxPool, ObjectPool, StaticBoxPool, StaticObjectPool};

// ── BoxPool helpers ──────────────────────────────────────────────

fn init_boxpool() -> BoxPool<u32, 4> {
    StaticBoxPool::new().init_pool()
}

fn init_small_boxpool() -> BoxPool<u32, 2> {
    StaticBoxPool::new().init_pool()
}

// ── BoxPool tests ────────────────────────────────────────────────

#[test]
fn box_alloc_and_drop() {
    let mut pool = init_boxpool();
    let guard = pool.allocate(42).unwrap();
    assert_eq!(*guard.deref(&pool), 42);
    pool.release(guard);
    let guard2 = pool.allocate(99).unwrap();
    assert_eq!(*guard2.deref(&pool), 99);
}

#[test]
fn box_pool_full_returns_err() {
    let mut pool = init_small_boxpool();
    let _a = pool.allocate(1).unwrap();
    let _b = pool.allocate(2).unwrap();
    let result = pool.allocate(3);
    assert!(result.is_err());
    match result {
        Err(v) => assert_eq!(v, 3),
        _ => unreachable!(),
    }
}

#[test]
fn box_reuse_after_drop() {
    let mut pool = init_small_boxpool();
    let a = pool.allocate(10).unwrap();
    let b = pool.allocate(20).unwrap();
    pool.release(a);
    let c = pool.allocate(30).unwrap();
    assert_eq!(*c.deref(&pool), 30);
    pool.release(b);
    pool.release(c);
}

#[test]
fn box_deref_mut_modifies_value() {
    let mut pool = init_boxpool();
    let guard = pool.allocate(0).unwrap();
    *guard.deref_mut(&mut pool) = 100;
    assert_eq!(*guard.deref(&pool), 100);
}

#[test]
fn box_try_clone_success() {
    let mut pool = init_boxpool();
    let orig = pool.allocate(7).unwrap();
    let cloned = orig.try_clone(&mut pool).unwrap();
    assert_eq!(*orig.deref(&pool), 7);
    assert_eq!(*cloned.deref(&pool), 7);
    pool.release(orig);
    assert_eq!(*cloned.deref(&pool), 7);
    pool.release(cloned);
}

#[test]
fn box_try_clone_pool_full() {
    let mut pool = init_small_boxpool();
    let a = pool.allocate(1).unwrap();
    let _b = pool.allocate(2).unwrap();
    let result = a.try_clone(&mut pool);
    assert!(result.is_err());
    match result {
        Err(v) => assert_eq!(v, 1),
        _ => unreachable!(),
    }
    pool.release(a);
}

#[test]
fn box_into_raw_from_raw_roundtrip() {
    let mut pool = init_boxpool();
    let guard = pool.allocate(42).unwrap();
    let raw = BoxGuard::into_raw(guard);

    {
        // Access the slot through the raw index while no guard is out.
        let view = BoxGuard::from_raw(&pool, raw);
        assert_eq!(*view.deref(&pool), 42);
        *view.deref_mut(&mut pool) = 99;
        let _ = BoxGuard::into_raw(view);
    }

    let guard = BoxGuard::from_raw(&pool, raw);
    assert_eq!(*guard.deref(&pool), 99);
    pool.release(guard);

    let next = pool.allocate(77).unwrap();
    assert_eq!(*next.deref(&pool), 77);
}

#[test]
fn box_alloc_array_type() {
    let mut pool: BoxPool<[u8; 4], 4> = StaticBoxPool::new().init_pool();

    let guard = pool.allocate([1, 2, 3, 4]).unwrap();
    assert_eq!(*guard.deref(&pool), [1, 2, 3, 4]);
}

// ── ObjectPool helpers ───────────────────────────────────────────

fn init_objpool() -> ObjectPool<u32, 4> {
    StaticObjectPool::new().init_pool(0)
}

fn init_small_objpool() -> ObjectPool<u32, 2> {
    StaticObjectPool::new().init_pool(0)
}

// ── ObjectPool tests ─────────────────────────────────────────────

#[test]
fn obj_request_and_drop() {
    let mut pool = init_objpool();
    let obj = pool.request().unwrap();
    assert_eq!(*obj.deref(&pool), 0); // init value
    pool.release(obj);
    let obj2 = pool.request().unwrap();
    assert_eq!(*obj2.deref(&pool), 0); // value persists
}

#[test]
fn obj_data_persists_across_borrows() {
    let mut pool = init_small_objpool();
    {
        let obj = pool.request().unwrap();
        *obj.deref_mut(&mut pool) = 42;
        pool.release(obj);
    }
    // After release, data should still be 42
    let obj = pool.request().unwrap();
    assert_eq!(*obj.deref(&pool), 42);
}

#[test]
fn obj_pool_exhausted() {
    let mut pool = init_small_objpool();
    let _a = pool.request().unwrap();
    let _b = pool.request().unwrap();
    assert!(pool.request().is_none());
}

#[test]
fn obj_reuse_after_drop() {
    let mut pool = init_small_objpool();
    let a = pool.request().unwrap();
    let b = pool.request().unwrap();
    pool.release(a);
    let c = pool.request().unwrap();
    assert_eq!(*c.deref(&pool), 0);
    pool.release(b);
    pool.release(c);
}

// ── CAS backend ──────────────────────────────────────────────────

#[test]
fn cas_box_alloc_and_drop() {
    type P = StaticBoxPool<u32, 4, CasSlots<4>>;
    let mut pool = P::new().init_pool();

    let guard = pool.allocate(42).unwrap();
    assert_eq!(*guard.deref(&pool), 42);
    pool.release(guard);

    let guard2 = pool.allocate(99).unwrap();
    assert_eq!(*guard2.deref(&pool), 99);
}

#[test]
fn cas_box_pool_full() {
    type P = StaticBoxPool<u32, 2, CasSlots<2>>;
    let mut pool = P::new().init_pool();

    let _a = pool.allocate(1).unwrap();
    let _b = pool.allocate(2).unwrap();
    assert!(pool.allocate(3).is_err());
}

#[test]
fn cas_obj_data_persists() {
    type P = StaticObjectPool<u32, 2, CasSlots<2>>;
    let mut pool = P::new().init_pool(0);

    {
        let obj = pool.request().unwrap();
        *obj.deref_mut(&mut pool) = 7;
        pool.release(obj);
    }
    let obj = pool.request().unwrap();
    assert_eq!(*obj.deref(&pool), 7);
}
