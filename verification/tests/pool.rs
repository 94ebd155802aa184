use lazy_pool::{Pool, PoolGuard, PoolTransformer};

/// Drive one checkout the way the pool's owner would: when no permit is free
/// and the pool may still grow, run one growth step whose policy registers a
/// single construction carrying the current counter value, then take the
/// checkout. Mirrors a growth callback of `|state, tr| { tr.spawn(*state); *state += 1; }`.
fn checkout_counting(pool: &mut Pool<usize>, state: &mut usize) -> PoolGuard {
    if pool.available() == 0 && pool.can_grow() {
        let mut tr: PoolTransformer<usize> = PoolTransformer::new();
        let sc = *state;
        tr.spawn(sc);
        *state += 1;
        let mut n: usize = 0;
        for value in tr.into_tasks() {
            if pool.can_grow() {
                pool.add_entry(value);
                n += 1;
            }
        }
        pool.add_permits(n);
    }
    pool.get()
}

fn value_of(pool: &Pool<usize>, g: &PoolGuard) -> usize {
    *pool.resource_of(g.id()).expect("guard must name a pooled entry")
}

#[test]
fn basic_usize_test() {
    let mut pool = Pool::<usize>::new(4);
    let mut state: usize = 0;

    let guard1 = checkout_counting(&mut pool, &mut state);
    assert_eq!(value_of(&pool, &guard1), 0);
    let guard2 = checkout_counting(&mut pool, &mut state);
    assert_eq!(value_of(&pool, &guard2), 1);
    let guard3 = checkout_counting(&mut pool, &mut state);
    assert_eq!(value_of(&pool, &guard3), 2);
    let guard4 = checkout_counting(&mut pool, &mut state);
    assert_eq!(value_of(&pool, &guard4), 3);

    pool.release(guard3);
    pool.release(guard2);

    let guard2 = checkout_counting(&mut pool, &mut state);
    assert_eq!(value_of(&pool, &guard2), 1);
    let guard3 = checkout_counting(&mut pool, &mut state);
    assert_eq!(value_of(&pool, &guard3), 2);

    drop(guard1);
    drop(guard4);
}

#[test]
fn ids_strictly_increasing_and_never_reused() {
    let mut pool = Pool::<u8>::new(8);
    let a = pool.add_entry(10);
    let b = pool.add_entry(11);
    let c = pool.add_entry(12);
    assert!(a < b && b < c);
    assert_eq!((a, b, c), (1, 2, 3));
    pool.add_permits(3);

    // Checkouts and returns reorder the queue but never mint or reuse an id.
    let g = pool.get();
    pool.release(g);
    let d = pool.add_entry(13);
    assert_eq!(d, 4);
}

#[test]
fn outstanding_guards_never_exceed_capacity() {
    let mut pool = Pool::<usize>::new(2);
    let mut state: usize = 0;
    let mut held: Vec<PoolGuard> = Vec::new();
    let mut blocked: usize = 0;
    for _ in 0..5 {
        if pool.available() == 0 && !pool.can_grow() {
            // A real checkout would suspend here; no guard is produced.
            blocked += 1;
            continue;
        }
        let g = checkout_counting(&mut pool, &mut state);
        held.push(g);
    }
    assert_eq!(held.len(), 2);
    assert_eq!(blocked, 3);
}

#[test]
fn concurrent_guards_have_distinct_ids() {
    let mut pool = Pool::<u8>::new(3);
    pool.add_entry(1);
    pool.add_entry(2);
    pool.add_entry(3);
    pool.add_permits(3);
    let g1 = pool.get();
    let g2 = pool.get();
    let g3 = pool.get();
    assert_ne!(g1.id(), g2.id());
    assert_ne!(g1.id(), g3.id());
    assert_ne!(g2.id(), g3.id());
    assert!(pool.is_claimed(g1.id()) && pool.is_claimed(g2.id()) && pool.is_claimed(g3.id()));
}

#[test]
fn growth_admits_one_entry_per_blocked_checkout() {
    let mut pool = Pool::<usize>::new(3);
    let mut state: usize = 0;
    let mut held = Vec::new();
    for round in 0..3 {
        assert_eq!(pool.available(), 0);
        let before = round; // entries admitted so far
        let g = checkout_counting(&mut pool, &mut state);
        held.push(g);
        // exactly one new entry was constructed for this checkout
        assert_eq!(state, before + 1);
        assert_eq!(pool.available(), 0);
    }
    // At the ceiling the pool refuses to grow and no permit is free:
    // a further checkout would suspend until some guard is released.
    assert!(!pool.can_grow());
    assert_eq!(pool.available(), 0);
}

#[test]
fn reuse_is_most_recently_returned_first() {
    let mut pool = Pool::<u8>::new(3);
    pool.add_entry(7);
    pool.add_entry(8);
    pool.add_entry(9);
    pool.add_permits(3);
    let g1 = pool.get();
    let g2 = pool.get();
    let g3 = pool.get();
    let (id1, id2, id3) = (g1.id(), g2.id(), g3.id());
    pool.release(g1);
    pool.release(g3);
    pool.release(g2);
    // Returned last, reused first.
    assert_eq!(pool.get().id(), id2);
    assert_eq!(pool.get().id(), id3);
    assert_eq!(pool.get().id(), id1);
}

#[test]
fn end_to_end_capacity_four() {
    let mut pool = Pool::<usize>::new(4);
    let mut state: usize = 0;

    let mut guards = Vec::new();
    for expected in 0..4 {
        let constructions_before = state;
        let g = checkout_counting(&mut pool, &mut state);
        assert_eq!(value_of(&pool, &g), expected);
        assert_eq!(state, constructions_before + 1);
        guards.push(g);
    }
    // A fifth checkout finds no permit and no room to grow: it would suspend.
    assert_eq!(pool.available(), 0);
    assert!(!pool.can_grow());

    // Releasing one guard satisfies the waiter with that same entry.
    let g2 = guards.remove(1);
    let released_value = value_of(&pool, &g2);
    pool.release(g2);
    assert_eq!(pool.available(), 1);
    let g = pool.get();
    assert_eq!(value_of(&pool, &g), released_value);
}

#[test]
fn release_makes_entry_available_again() {
    let mut pool = Pool::<usize>::new(1);
    let id = pool.add_entry(42);
    pool.add_permits(1);
    let g = pool.get();
    assert!(pool.is_claimed(id));
    assert_eq!(pool.available(), 0);
    pool.release(g);
    assert!(!pool.is_claimed(id));
    assert_eq!(pool.available(), 1);
    // The same entry, same identity, comes back on the next checkout.
    let g = pool.get();
    assert_eq!(g.id(), id);
    assert_eq!(value_of(&pool, &g), 42);
}

#[test]
fn resource_of_unknown_id_is_none() {
    let mut pool = Pool::<u8>::new(2);
    pool.add_entry(5);
    assert!(pool.resource_of(0).is_none());
    assert!(pool.resource_of(2).is_none());
    assert!(pool.resource_of(1).is_some());
}

#[test]
fn transformer_collects_in_registration_order() {
    let mut tr: PoolTransformer<u8> = PoolTransformer::new();
    assert_eq!(tr.len(), 0);
    tr.spawn(3);
    tr.spawn(1);
    tr.spawn(2);
    assert_eq!(tr.len(), 3);
    assert_eq!(tr.into_tasks(), vec![3, 1, 2]);
}
