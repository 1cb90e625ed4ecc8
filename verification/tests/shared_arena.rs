use shared_arena::SharedArena;

struct MyData {
    a: usize,
}

#[test]
fn shared_arena_arena_shrink() {
    let mut arena = SharedArena::<usize>::with_capacity(1000);
    assert_eq!(arena.stats(), (0, 1008));
    arena.shrink_to_fit();
    assert_eq!(arena.stats(), (0, 0));
}

#[test]
fn shared_arena_arena_shrink2() {
    let mut arena = SharedArena::<usize>::with_capacity(1000);

    let _a1 = arena.alloc_box(1);
    arena.shrink_to_fit();
    assert_eq!(arena.stats(), (1, 62));

    let _a2 = arena.alloc_box(1);
    arena.shrink_to_fit();
    assert_eq!(arena.stats(), (2, 61));

    let mut values = Vec::with_capacity(64);
    for _ in 0..64 {
        values.push(arena.alloc_box(1));
    }

    assert_eq!(arena.stats(), (66, 60));
    arena.shrink_to_fit();
    assert_eq!(arena.stats(), (66, 60));

    for h in values.drain(..) {
        arena.drop_box(h);
    }

    assert_eq!(arena.stats(), (2, 124));
    arena.shrink_to_fit();
    assert_eq!(arena.stats(), (2, 61));
}

#[test]
fn shared_arena_arena_size() {
    let mut arena = SharedArena::<usize>::with_capacity(1000);

    assert_eq!(arena.size_lists(), (16, 16, 0));
    let a = arena.alloc_box(1);
    assert_eq!(arena.size_lists(), (16, 16, 0));

    let mut values = Vec::with_capacity(539);
    for _ in 0..539 {
        values.push(arena.alloc_box(1));
    }
    assert_eq!(arena.size_lists(), (16, 8, 0));

    arena.shrink_to_fit();

    assert_eq!(arena.size_lists(), (9, 1, 0));

    for h in values.drain(503..) {
        arena.drop_box(h);
    }
    arena.shrink_to_fit();

    assert_eq!(arena.size_lists(), (8, 0, 0));

    arena.drop_box(a);
    for _ in 0..62 {
        let h = values.remove(0);
        arena.drop_box(h);
    }

    assert_eq!(arena.size_lists(), (8, 0, 1));

    arena.shrink_to_fit();
    assert_eq!(arena.size_lists(), (8, 0, 1));

    for h in values.drain(..) {
        arena.drop_box(h);
    }
    assert_eq!(arena.size_lists(), (8, 0, 8));

    arena.shrink_to_fit();
    assert_eq!(arena.size_lists(), (8, 0, 8));

    {
        let a2 = arena.alloc_box(1);
        assert_eq!(arena.size_lists(), (8, 8, 0));
        arena.drop_box(a2);
    }

    assert_eq!(arena.size_lists(), (8, 8, 0));
    arena.shrink_to_fit();
    assert_eq!(arena.size_lists(), (0, 0, 0));

    let mut values = Vec::with_capacity(126);
    for _ in 0..126 {
        values.push(arena.alloc_box(1));
    }
    assert_eq!(arena.size_lists(), (2, 1, 0));

    let h = values.remove(0);
    arena.drop_box(h);
    assert_eq!(arena.size_lists(), (2, 1, 1));

    values.push(arena.alloc_box(1));
    assert_eq!(arena.size_lists(), (2, 1, 0));

    for h in values.drain(..) {
        arena.drop_box(h);
    }
}

#[test]
fn shared_arena_alloc_with_initializer() {
    let mut arena = SharedArena::<MyData>::new();

    let data = arena.alloc_with(|| MyData { a: 101 });
    assert!(arena.get_box(&data).a == 101);

    let data = arena.alloc_rc_with(|| MyData { a: 102 });
    assert!(arena.get_rc(&data).a == 102);

    let data = arena.alloc_arc_with(|| MyData { a: 103 });
    assert!(arena.get_arc(&data).a == 103);
}

#[test]
fn shared_arena_alloc_fns() {
    let mut arena = SharedArena::<usize>::new();

    let a = arena.alloc_with(|| 101);
    assert!(*arena.get_box(&a) == 101);

    let a = arena.alloc_arc_with(|| 102);
    assert!(*arena.get_arc(&a) == 102);

    let a = arena.alloc_rc_with(|| 103);
    assert!(*arena.get_rc(&a) == 103);

    let a = arena.alloc_box(104);
    assert!(*arena.get_box(&a) == 104);

    let a = arena.alloc_arc(105);
    assert!(*arena.get_arc(&a) == 105);

    let a = arena.alloc_rc(106);
    assert!(*arena.get_rc(&a) == 106);
}

#[test]
fn shared_arena_drop_arena_with_valid_allocated() {
    let mut arena = SharedArena::<usize>::new();

    let a = arena.alloc_with(|| 101);
    let b = arena.alloc_arc_with(|| 102);
    let c = arena.alloc_box(103);
    let d = arena.alloc_arc(104);

    arena.release();

    assert_eq!(
        (
            *arena.get_box(&a),
            *arena.get_arc(&b),
            *arena.get_box(&c),
            *arena.get_arc(&d),
        ),
        (101, 102, 103, 104)
    )
}

#[test]
fn alloc_then_drop_keeps_stats() {
    let mut arena = SharedArena::<u32>::with_capacity(100);
    let before = arena.stats();
    let h = arena.alloc_box(7);
    arena.drop_box(h);
    assert_eq!(arena.stats(), before);
}

#[test]
fn shrink_twice_second_does_nothing() {
    let mut arena = SharedArena::<u32>::with_capacity(200);
    let _keep = arena.alloc_box(1);
    let first = arena.shrink_to_fit();
    assert!(first);
    let second = arena.shrink_to_fit();
    assert!(!second);
}

#[test]
fn page_boundary_growth() {
    let mut arena = SharedArena::<usize>::new();
    let mut values = Vec::new();
    for _ in 0..63 {
        values.push(arena.alloc_box(9));
    }
    let (full, _, _) = arena.size_lists();
    assert_eq!(full, 1);
    values.push(arena.alloc_box(9));
    let (full, _, _) = arena.size_lists();
    assert_eq!(full, 2);
    assert_eq!(arena.stats(), (64, 62));
    for h in values.drain(..) {
        arena.drop_box(h);
    }
}

#[test]
fn arc_clone_counts() {
    let mut arena = SharedArena::<usize>::new();
    let a = arena.alloc_arc(55);
    let b = arena.clone_arc(&a);
    assert_eq!(arena.stats(), (1, 62));
    arena.drop_arc(a);
    assert_eq!(*arena.get_arc(&b), 55);
    assert_eq!(arena.stats(), (1, 62));
    arena.drop_arc(b);
    assert_eq!(arena.stats(), (0, 63));
}

#[test]
fn into_inner_returns_value() {
    let mut arena = SharedArena::<String>::new();
    let h = arena.alloc_box(String::from("kept"));
    let v = arena.into_inner(h);
    assert_eq!(v, "kept");
    assert_eq!(arena.stats(), (0, 63));
}

#[test]
fn drop_after_release_frees_page() {
    let mut arena = SharedArena::<usize>::new();
    let h = arena.alloc_box(3);
    arena.release();
    assert_eq!(*arena.get_box(&h), 3);
    arena.drop_box(h);
}

#[test]
fn with_capacity_rounds_up() {
    let mut arena = SharedArena::<u8>::with_capacity(0);
    assert_eq!(arena.stats(), (0, 63));
    let mut arena = SharedArena::<u8>::with_capacity(64);
    assert_eq!(arena.stats(), (0, 126));
}
