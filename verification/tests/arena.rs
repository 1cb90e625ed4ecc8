use shared_arena::Arena;

#[test]
fn arena_arena_shrink() {
    let mut arena = Arena::<usize>::with_capacity(1000);
    assert_eq!(arena.stats(), (0, 1008));
    arena.shrink_to_fit();
    assert_eq!(arena.stats(), (0, 0));
}

#[test]
fn arena_arena_shrink2() {
    let mut arena = Arena::<usize>::with_capacity(1000);

    let _a1 = arena.alloc_box(1);
    arena.shrink_to_fit();
    assert_eq!(arena.stats(), (1, 62));

    let _a2 = arena.alloc_box(1);
    arena.shrink_to_fit();
    assert_eq!(arena.stats(), (2, 61));

    let mut values = Vec::with_capacity(64);
    for _ in 0..64 {
        values.push(arena.alloc_box(1));
    }

    assert_eq!(arena.stats(), (66, 60));
    arena.shrink_to_fit();
    assert_eq!(arena.stats(), (66, 60));

    for h in values.drain(..) {
        arena.drop_box(h);
    }

    assert_eq!(arena.stats(), (2, 124));
    arena.shrink_to_fit();
    assert_eq!(arena.stats(), (2, 61));
}

#[test]
fn arena_arena_size() {
    let mut arena = Arena::<usize>::with_capacity(1000);

    assert_eq!(arena.size_lists(), (16, 16, 0));
    let a = arena.alloc_box(1);
    assert_eq!(arena.size_lists(), (16, 16, 0));

    let mut values = Vec::with_capacity(539);
    for _ in 0..539 {
        values.push(arena.alloc_box(1));
    }
    assert_eq!(arena.size_lists(), (16, 8, 0));

    arena.shrink_to_fit();

    assert_eq!(arena.size_lists(), (9, 1, 0));

    for h in values.drain(503..) {
        arena.drop_box(h);
    }
    arena.shrink_to_fit();

    assert_eq!(arena.size_lists(), (8, 0, 0));

    arena.drop_box(a);
    for _ in 0..62 {
        let h = values.remove(0);
        arena.drop_box(h);
    }

    assert_eq!(arena.size_lists(), (8, 0, 1));

    arena.shrink_to_fit();
    assert_eq!(arena.size_lists(), (8, 0, 1));

    for h in values.drain(..) {
        arena.drop_box(h);
    }
    assert_eq!(arena.size_lists(), (8, 0, 8));

    arena.shrink_to_fit();
    assert_eq!(arena.size_lists(), (8, 0, 8));

    {
        let a2 = arena.alloc_box(1);
        assert_eq!(arena.size_lists(), (8, 8, 0));
        arena.drop_box(a2);
    }

    assert_eq!(arena.size_lists(), (8, 8, 0));
    arena.shrink_to_fit();
    assert_eq!(arena.size_lists(), (0, 0, 0));

    let mut values = Vec::with_capacity(126);
    for _ in 0..126 {
        values.push(arena.alloc_box(1));
    }
    assert_eq!(arena.size_lists(), (2, 1, 0));

    let h = values.remove(0);
    arena.drop_box(h);
    assert_eq!(arena.size_lists(), (2, 1, 1));

    values.push(arena.alloc_box(1));
    assert_eq!(arena.size_lists(), (2, 1, 0));

    for h in values.drain(..) {
        arena.drop_box(h);
    }
}

#[test]
fn arena_alloc_fns() {
    let mut arena = Arena::<usize>::new();

    let a = arena.alloc_with(|| 101);
    assert!(*arena.get_box(&a) == 101);

    let a = arena.alloc_arc_with(|| 102);
    assert!(*arena.get_arc(&a) == 102);

    let a = arena.alloc_rc_with(|| 103);
    assert!(*arena.get_rc(&a) == 103);

    let a = arena.alloc_box(104);
    assert!(*arena.get_box(&a) == 104);

    let a = arena.alloc_arc(105);
    assert!(*arena.get_arc(&a) == 105);

    let a = arena.alloc_rc(106);
    assert!(*arena.get_rc(&a) == 106);
}

#[test]
fn arena_drop_arena_with_valid_allocated() {
    let mut arena = Arena::<usize>::new();

    let a = arena.alloc_with(|| 101);
    let b = arena.alloc_arc_with(|| 102);
    let c = arena.alloc_box(103);
    let d = arena.alloc_arc(104);

    arena.release();

    assert_eq!(
        (
            *arena.get_box(&a),
            *arena.get_arc(&b),
            *arena.get_box(&c),
            *arena.get_arc(&d),
        ),
        (101, 102, 103, 104)
    )
}

#[test]
fn arena_returned_bits_are_reused() {
    let mut arena = Arena::<usize>::new();
    let mut values = Vec::new();
    for k in 0..63 {
        values.push(arena.alloc_box(k));
    }
    assert_eq!(arena.stats(), (63, 0));
    for h in values.drain(..) {
        arena.drop_box(h);
    }
    assert_eq!(arena.stats(), (0, 63));
    let h = arena.alloc_box(7);
    assert_eq!(arena.stats(), (1, 62));
    assert_eq!(*arena.get_box(&h), 7);
    arena.drop_box(h);
}
