use shared_arena::Pool;

#[test]
fn arena_rc() {
    let mut pool = Pool::new();
    let rc = pool.alloc_rc(10);

    assert_eq!(*pool.get_rc(&rc), 10);
    let rc2 = rc;

    assert_eq!(*pool.get_rc(&rc2), 10);
    pool.drop_rc(rc2);
}
