use bcl::array::Array;
use bcl::config::Config;
use bcl::global_pointer::GlobalPointer;
use bcl::slice::Slice;
use core::marker::PhantomData;

fn gp(rank: usize, ptr: usize) -> GlobalPointer<i64> {
    GlobalPointer { rank, ptr, refer_type: PhantomData }
}

fn three_blocks() -> Array<i64> {
    Array { local_size: 4, ptrs: vec![gp(0, 1000), gp(1, 2000), gp(2, 3000)] }
}

#[test]
fn init_allocates_own_block() {
    let mut c = Config::init(1, 1, 3, 4096);
    let a: Array<i64> = Array::init(&mut c, 10);
    assert_eq!(a.local_size, 4);
    assert_eq!(a.ptrs.len(), 3);
    assert_eq!((a.ptrs[1].rank, a.ptrs[1].ptr), (1, 4096));
    assert!(a.ptrs[0].is_null() && a.ptrs[2].is_null());
    assert_eq!(c.smem_heap, 4096 + 64);
    assert_eq!(a.global_size(&c), 12);
}

#[test]
fn get_ptr_places_elements_in_blocks() {
    let a = three_blocks();
    let p = a.get_ptr(0).unwrap();
    assert_eq!((p.rank, p.ptr), (0, 1000));
    let p = a.get_ptr(5).unwrap();
    assert_eq!((p.rank, p.ptr), (1, 2008));
    let p = a.get_ptr(11).unwrap();
    assert_eq!((p.rank, p.ptr), (2, 3024));
    assert!(a.get_ptr(12).is_none());
    assert!(a.get_ptr(100).is_none());
}

#[test]
fn placement_is_one_to_one() {
    let a = three_blocks();
    let mut seen: Vec<(usize, usize)> = Vec::new();
    for i in 0..12 {
        let p = a.get_ptr(i).unwrap();
        assert!(!seen.contains(&(p.rank, p.ptr)));
        seen.push((p.rank, p.ptr));
    }
}

#[test]
fn slice_within_one_block() {
    let a = three_blocks();
    let v = a.slice(1, 3);
    let got: Vec<(usize, usize)> = v.iter().map(|p| (p.rank, p.ptr)).collect();
    assert_eq!(got, vec![(0, 1008), (0, 1016)]);
    assert!(a.slice(3, 2).is_empty());
}

#[test]
fn slice_across_blocks() {
    let a = three_blocks();
    let v = a.slice(1, 6);
    let got: Vec<(usize, usize)> = v.iter().map(|p| (p.rank, p.ptr)).collect();
    // the rest of block 0 from local index 1, then local indices 0..6 of block 1
    assert_eq!(
        got,
        vec![(0, 1008), (0, 1016), (0, 1024), (1, 2000), (1, 2008), (1, 2016), (1, 2024), (1, 2032), (1, 2040)]
    );
    let v = a.slice(5, 9);
    let got: Vec<(usize, usize)> = v.iter().map(|p| (p.rank, p.ptr)).collect();
    // block 1 from local index 5 (past its end: nothing), then indices 0..9 of block 2
    assert_eq!(got.len(), 9);
    assert_eq!(got[0], (2, 3000));
    assert_eq!(got[8], (2, 3064));
}

#[test]
fn slice_struct_holds_its_run() {
    let s = Slice { size: 3, ptr: gp(1, 64) };
    assert_eq!(s.size, 3);
    assert_eq!(s.ptr.rank, 1);
}
