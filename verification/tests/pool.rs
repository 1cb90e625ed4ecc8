use shared_arena::Pool;

struct MyData {
    a: usize,
}

#[test]
fn pool_arena_shrink() {
    let mut arena = Pool::<usize>::with_capacity(1000);
    assert_eq!(arena.stats(), (0, 1008));
    arena.shrink_to_fit();
    assert_eq!(arena.stats(), (0, 0));
}

#[test]
fn pool_arena_shrink2() {
    let mut arena = Pool::<usize>::with_capacity(1000);

    let _a1 = arena.alloc_box(1);
    arena.shrink_to_fit();
    assert_eq!(arena.stats(), (1, 62));

    let _a2 = arena.alloc_box(1);
    arena.shrink_to_fit();
    assert_eq!(arena.stats(), (2, 61));

    let mut values = Vec::with_capacity(64);
    for _ in 0..64 {
        values.push(arena.alloc_box(1));
    }

    assert_eq!(arena.stats(), (66, 60));
    arena.shrink_to_fit();
    assert_eq!(arena.stats(), (66, 60));

    for h in values.drain(..) {
        arena.drop_box(h);
    }

    assert_eq!(arena.stats(), (2, 124));
    arena.shrink_to_fit();
    assert_eq!(arena.stats(), (2, 61));
}

#[test]
fn pool_arena_size() {
    let mut arena = Pool::<usize>::with_capacity(1000);

    assert_eq!(arena.size_lists(), (16, 16));
    let a = arena.alloc_box(1);
    assert_eq!(arena.size_lists(), (16, 16));

    let mut values = Vec::with_capacity(539);
    for _ in 0..539 {
        values.push(arena.alloc_box(1));
    }
    assert_eq!(arena.size_lists(), (16, 8));

    arena.shrink_to_fit();

    assert_eq!(arena.size_lists(), (9, 1));

    for h in values.drain(503..) {
        arena.drop_box(h);
    }
    arena.shrink_to_fit();

    assert_eq!(arena.size_lists(), (8, 0));

    arena.drop_box(a);
    for _ in 0..62 {
        let h = values.remove(0);
        arena.drop_box(h);
    }

    assert_eq!(arena.size_lists(), (8, 1));

    arena.shrink_to_fit();

    assert_eq!(arena.size_lists(), (7, 0));

    for h in values.drain(..) {
        arena.drop_box(h);
    }

    assert_eq!(arena.size_lists(), (7, 7));

    arena.shrink_to_fit();

    assert_eq!(arena.size_lists(), (0, 0));

    {
        let a2 = arena.alloc_box(1);
        assert_eq!(arena.size_lists(), (1, 1));
        arena.drop_box(a2);
    }

    assert_eq!(arena.size_lists(), (1, 1));
    arena.shrink_to_fit();
    assert_eq!(arena.size_lists(), (0, 0));

    let mut values = Vec::with_capacity(126);
    for _ in 0..126 {
        values.push(arena.alloc_box(1));
    }
    assert_eq!(arena.size_lists(), (2, 1));

    let h = values.remove(0);
    arena.drop_box(h);
    assert_eq!(arena.size_lists(), (2, 2));

    values.push(arena.alloc_box(1));
    assert_eq!(arena.size_lists(), (2, 2));

    for h in values.drain(..) {
        arena.drop_box(h);
    }
}

#[test]
fn pool_alloc_with_initializer() {
    let mut arena = Pool::<MyData>::new();

    let data = arena.alloc_with(|| MyData { a: 101 });
    assert!(arena.get_box(&data).a == 101);

    let data = arena.alloc_rc_with(|| MyData { a: 102 });
    assert!(arena.get_rc(&data).a == 102);
}

#[test]
fn pool_alloc_fns() {
    let mut arena = Pool::<usize>::new();

    let a = arena.alloc_with(|| 101);
    assert!(*arena.get_box(&a) == 101);

    let a = arena.alloc_rc_with(|| 102);
    assert!(*arena.get_rc(&a) == 102);

    let a = arena.alloc_box(103);
    assert!(*arena.get_box(&a) == 103);

    let a = arena.alloc_rc(104);
    assert!(*arena.get_rc(&a) == 104);
}

#[test]
fn pool_drop_arena_with_valid_allocated() {
    let mut arena = Pool::<usize>::new();

    let a = arena.alloc_with(|| 101);
    let b = arena.alloc_rc_with(|| 102);
    let c = arena.alloc_box(103);
    let d = arena.alloc_rc(104);

    arena.release();

    assert_eq!(
        (
            *arena.get_box(&a),
            *arena.get_rc(&b),
            *arena.get_box(&c),
            *arena.get_rc(&d),
        ),
        (101, 102, 103, 104)
    )
}

#[test]
fn pool_rc_clone_counts() {
    let mut pool = Pool::<usize>::new();
    let a = pool.alloc_rc(41);
    let b = pool.clone_rc(&a);
    assert_eq!(pool.stats(), (1, 62));
    pool.drop_rc(a);
    assert_eq!(*pool.get_rc(&b), 41);
    pool.drop_rc(b);
    assert_eq!(pool.stats(), (0, 63));
}

#[test]
fn pool_reinserts_freed_page() {
    let mut pool = Pool::<usize>::new();
    let mut values = Vec::new();
    for k in 0..64 {
        values.push(pool.alloc_box(k));
    }
    assert_eq!(pool.size_lists(), (2, 1));
    let h = values.remove(0);
    pool.drop_box(h);
    assert_eq!(pool.size_lists(), (2, 2));
    for h in values.drain(..) {
        pool.drop_box(h);
    }
}
