use shared_arena::{PageKind, PageTaggedPtr};

#[test]
fn pagekind_into() {
    let num: usize = PageKind::SharedArena.as_usize();
    assert_eq!(num, 0);

    let num: usize = PageKind::Arena.as_usize();
    assert_eq!(num, 1);

    let num: usize = PageKind::Pool.as_usize();
    assert_eq!(num, 2);
}

#[test]
fn block_page_tagged_ptr() {
    let real_ptr: u64 = 0x5a5a_0000_1234;

    for index_block in 0..64 {
        let tagged_ptr = PageTaggedPtr::new(real_ptr, index_block, PageKind::SharedArena);
        let ptr = tagged_ptr.page_ptr();
        assert_eq!(ptr, real_ptr, "{:064b}", ptr);
        assert_eq!(tagged_ptr.page_kind(), PageKind::SharedArena);
        assert_eq!(tagged_ptr.index_block(), index_block);

        let tagged_ptr = PageTaggedPtr::new(real_ptr, index_block, PageKind::Arena);
        let ptr = tagged_ptr.page_ptr();
        assert_eq!(ptr, real_ptr, "{:064b}", ptr);
        assert_eq!(tagged_ptr.page_kind(), PageKind::Arena);
        assert_eq!(tagged_ptr.index_block(), index_block);

        let tagged_ptr = PageTaggedPtr::new(real_ptr, index_block, PageKind::Pool);
        let ptr = tagged_ptr.page_ptr();
        assert_eq!(ptr, real_ptr, "{:064b}", ptr);
        assert_eq!(tagged_ptr.page_kind(), PageKind::Pool);
        assert_eq!(tagged_ptr.index_block(), index_block);

        let tagged_ptr = PageTaggedPtr::new(16, index_block, PageKind::SharedArena);
        let ptr = tagged_ptr.page_ptr();
        assert_eq!(ptr, 16, "{:064b}", ptr);
        assert_eq!(tagged_ptr.page_kind(), PageKind::SharedArena);
        assert_eq!(tagged_ptr.index_block(), index_block);

        let tagged_ptr = PageTaggedPtr::new(16, index_block, PageKind::Arena);
        let ptr = tagged_ptr.page_ptr();
        assert_eq!(ptr, 16, "{:064b}", ptr);
        assert_eq!(tagged_ptr.page_kind(), PageKind::Arena);
        assert_eq!(tagged_ptr.index_block(), index_block);

        let tagged_ptr = PageTaggedPtr::new(16, index_block, PageKind::Pool);
        let ptr = tagged_ptr.page_ptr();
        assert_eq!(ptr, 16, "{:064b}", ptr);
        assert_eq!(tagged_ptr.page_kind(), PageKind::Pool);
        assert_eq!(tagged_ptr.index_block(), index_block);
    }
}

#[test]
fn block_page_tagged_ptr_debug() {
    let real_ptr: u64 = 0x5a5a_0000_1234;

    let tagged_ptr = PageTaggedPtr::new(real_ptr, 63, PageKind::Arena);
    println!("{:?} {:?}", tagged_ptr.clone(), PageKind::Arena);

    let tagged_ptr_2 = tagged_ptr;
    let tagged_ptr_3 = tagged_ptr_2.clone();

    assert!(tagged_ptr.data == tagged_ptr_2.data);
    assert!(tagged_ptr.data == tagged_ptr_3.data);
}

#[test]
fn tag_round_trip_all_ones() {
    let tagged_ptr = PageTaggedPtr::new(!0u64, 5, PageKind::Pool);
    assert_eq!(tagged_ptr.page_ptr(), !0u64);
    assert_eq!(tagged_ptr.index_block(), 5);
    assert_eq!(tagged_ptr.page_kind(), PageKind::Pool);
}

#[test]
fn debug_formats() {
    let mut arena = shared_arena::SharedArena::<usize>::new();
    let h = arena.alloc_box(1);
    println!("{:?}", arena);
    arena.drop_box(h);
    let pool: shared_arena::Pool<usize> = Default::default();
    println!("{:?}", pool);
    let single: shared_arena::Arena<usize> = Default::default();
    println!("{:?}", single);
}
