use slotpool::cas::CasSlots;
use std::rc::Rc;
use slotpool::{BoxGuard, BoxPool, ObjectPool, StaticBoxPool, StaticObjectPool};

#[test]
fn box_pool_hands_out_highest_index_first() {
    let mut pool: BoxPool<u8, 3> = StaticBoxPool::new().init_pool();
    let a = pool.allocate(1).unwrap();
    let b = pool.allocate(2).unwrap();
    let c = pool.allocate(3).unwrap();
    assert_eq!(BoxGuard::into_raw(a), 2);
    assert_eq!(BoxGuard::into_raw(b), 1);
    assert_eq!(BoxGuard::into_raw(c), 0);
}

#[test]
fn box_pool_serves_exactly_capacity() {
    let mut pool: BoxPool<u16, 5> = StaticBoxPool::new().init_pool();
    let mut guards = Vec::new();
    for v in 0..5u16 {
        guards.push(pool.allocate(v * 10).unwrap());
    }
    match pool.allocate(1234) {
        Err(v) => assert_eq!(v, 1234),
        Ok(_) => unreachable!(),
    }
    for (k, g) in guards.iter().enumerate() {
        assert_eq!(*g.deref(&pool), (k as u16) * 10);
    }
    let g = guards.pop().unwrap();
    pool.release(g);
    assert!(pool.allocate(7).is_ok());
}

#[test]
fn box_release_then_allocate_reuses_slot() {
    let mut pool: BoxPool<u32, 4> = StaticBoxPool::new().init_pool();
    let _a = pool.allocate(1).unwrap();
    let b = pool.allocate(2).unwrap();
    let _c = pool.allocate(3).unwrap();
    let raw_b = BoxGuard::into_raw(b);
    pool.release(BoxGuard::from_raw(&pool, raw_b));
    let d = pool.allocate(4).unwrap();
    assert_eq!(*d.deref(&pool), 4);
    assert_eq!(BoxGuard::into_raw(d), raw_b);
}

#[test]
fn box_allocate_then_release_restores_order() {
    let mut pool: BoxPool<u32, 3> = StaticBoxPool::new().init_pool();
    let g = pool.allocate(5).unwrap();
    pool.release(g);
    let order: Vec<usize> = (0..3)
        .map(|v| BoxGuard::into_raw(pool.allocate(v).unwrap()))
        .collect();
    assert_eq!(order, vec![2, 1, 0]);
}

#[test]
fn box_try_clone_uses_next_free_slot() {
    let mut pool: BoxPool<String, 3> = StaticBoxPool::new().init_pool();
    let a = pool.allocate(String::from("abc")).unwrap();
    let b = a.try_clone(&mut pool).unwrap();
    assert_eq!(b.deref(&pool).as_str(), "abc");
    *a.deref_mut(&mut pool) = String::from("xyz");
    assert_eq!(b.deref(&pool).as_str(), "abc");
    assert_eq!(BoxGuard::into_raw(b), 1);
}

#[test]
fn box_release_drops_value() {
    let shared = Rc::new(5);
    let mut pool: BoxPool<Rc<i32>, 2> = StaticBoxPool::new().init_pool();
    let g = pool.allocate(shared.clone()).unwrap();
    assert_eq!(Rc::strong_count(&shared), 2);
    pool.release(g);
    assert_eq!(Rc::strong_count(&shared), 1);
}

#[test]
fn obj_pool_clones_init_into_every_slot() {
    let mut pool: ObjectPool<[u8; 3], 3> = StaticObjectPool::new().init_pool([9, 8, 7]);
    let a = pool.request().unwrap();
    let b = pool.request().unwrap();
    let c = pool.request().unwrap();
    assert!(pool.request().is_none());
    for g in [&a, &b, &c] {
        assert_eq!(*g.deref(&pool), [9, 8, 7]);
    }
}

#[test]
fn obj_release_then_request_returns_same_slot_and_data() {
    let mut pool: ObjectPool<u32, 3> = StaticObjectPool::new().init_pool(1);
    let a = pool.request().unwrap();
    let b = pool.request().unwrap();
    *a.deref_mut(&mut pool) = 11;
    *b.deref_mut(&mut pool) = 22;
    pool.release(b);
    let again = pool.request().unwrap();
    assert_eq!(*again.deref(&pool), 22);
    assert_eq!(*a.deref(&pool), 11);
    pool.release(again);
    pool.release(a);
    // Release order decides lending order: a's slot (written 11) comes first.
    let first = pool.request().unwrap();
    assert_eq!(*first.deref(&pool), 11);
}

#[test]
fn obj_exhausted_exactly_when_all_borrowed() {
    let mut pool: ObjectPool<u8, 2, CasSlots<2>> = StaticObjectPool::new().init_pool(0);
    let a = pool.request().unwrap();
    let b = pool.request().unwrap();
    assert!(pool.request().is_none());
    pool.release(a);
    assert!(pool.request().is_some());
    assert!(pool.request().is_none());
    pool.release(b);
}

#[test]
fn cas_box_pool_matches_critical_box_pool() {
    let mut p1: BoxPool<u8, 4> = StaticBoxPool::new().init_pool();
    let mut p2: BoxPool<u8, 4, CasSlots<4>> = StaticBoxPool::new().init_pool();
    let a1 = p1.allocate(1).unwrap();
    let a2 = p2.allocate(1).unwrap();
    let b1 = p1.allocate(2).unwrap();
    let b2 = p2.allocate(2).unwrap();
    p1.release(a1);
    p2.release(a2);
    let c1 = p1.allocate(3).unwrap();
    let c2 = p2.allocate(3).unwrap();
    assert_eq!(BoxGuard::into_raw(c1), BoxGuard::into_raw(c2));
    assert_eq!(BoxGuard::into_raw(b1), BoxGuard::into_raw(b2));
}

#[test]
fn free_plus_held_is_capacity() {
    let mut pool: BoxPool<u8, 3> = StaticBoxPool::new().init_pool();
    let a = pool.allocate(1).unwrap();
    let _b = pool.allocate(2).unwrap();
    // two held: exactly one more allocation succeeds
    let c = pool.allocate(3).unwrap();
    assert!(pool.allocate(4).is_err());
    pool.release(a);
    pool.release(c);
    // one held: exactly two more allocations succeed
    assert!(pool.allocate(5).is_ok());
    assert!(pool.allocate(6).is_ok());
    assert!(pool.allocate(7).is_err());
}
