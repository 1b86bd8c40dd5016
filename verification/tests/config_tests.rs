use bcl::config::{Config, SMALLEST_MEM_UNIT};
use bcl::global_pointer::GlobalPointer;

#[test]
fn init_sets_segment() {
    let c = Config::init(2, 1, 4, 4096);
    assert_eq!(c.shared_segment_size, 2 * 1024 * 1024);
    assert_eq!(c.smem_base_ptr, 4096);
    assert_eq!(c.rank, 1);
    assert_eq!(c.rankn, 4);
    assert_eq!(c.smem_heap, 4096);
}

#[test]
fn allocate_rounds_up_to_unit() {
    let mut c = Config::init(1, 0, 1, 4096);
    assert_eq!(c.allocate(1), (4096, 0));
    assert_eq!(c.smem_heap, 4096 + SMALLEST_MEM_UNIT);
    assert_eq!(c.allocate(64), (4096 + 64, 64));
    assert_eq!(c.allocate(65), (4096 + 128, 128));
    assert_eq!(c.smem_heap, 4096 + 256);
    assert_eq!(c.allocate(0), (4096 + 256, 256));
    assert_eq!(c.smem_heap, 4096 + 256);
}

#[test]
fn allocate_refuses_when_full() {
    let mut c = Config::init(1, 0, 1, 4096);
    let seg = c.shared_segment_size;
    assert_eq!(c.allocate(seg - 64), (4096, 0));
    assert_eq!(c.allocate(65), (0, 0));
    assert_eq!(c.smem_heap, 4096 + seg - 64);
    assert_eq!(c.allocate(64), (4096 + seg - 64, seg - 64));
    assert_eq!(c.allocate(1), (0, 0));
}

#[test]
fn allocations_are_disjoint() {
    let mut c = Config::init(1, 0, 1, 4096);
    let mut blocks: Vec<(usize, usize)> = Vec::new();
    for size in [3usize, 100, 64, 1000, 7] {
        let (a, _) = c.allocate(size);
        assert!(a != 0);
        blocks.push((a, size));
    }
    for i in 0..blocks.len() {
        assert_eq!((blocks[i].0 - 4096) % 64, 0);
        for j in (i + 1)..blocks.len() {
            assert!(blocks[i].0 + blocks[i].1 <= blocks[j].0);
        }
    }
}

#[test]
fn new_ptr_and_free() {
    let mut c = Config::init(1, 2, 3, 8192);
    let p: GlobalPointer<i32> = c.new_ptr(1, 40);
    assert_eq!(p.rank, 1);
    assert_eq!(p.ptr, 8232);
    let before = c.smem_heap;
    c.free(p);
    assert_eq!(c.smem_heap, before);
}
