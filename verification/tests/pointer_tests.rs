use bcl::comm::{test_lock, LockStep, LOCKED, LOCK_SIZE, UNLOCKED};
use bcl::config::Config;
use bcl::global_guard::{GlobalGuard, GlobalValue};
use bcl::global_pointer::GlobalPointer;
use bcl::guard_array::{GlobalGuardVec, GuardArray};

#[test]
fn pointer_init_null_and_arithmetic() {
    let mut c = Config::init(1, 3, 4, 4096);
    let p: GlobalPointer<i64> = GlobalPointer::init(&mut c, 10);
    assert_eq!(p.rank, 3);
    assert_eq!(p.ptr, 4096);
    assert_eq!(c.smem_heap, 4096 + 128);
    assert!(!p.is_null());
    let n: GlobalPointer<i64> = GlobalPointer::null();
    assert!(n.is_null());
    assert_eq!(n.rank, 0);
    let q = p.add(3);
    assert_eq!(q.ptr, 4096 + 24);
    assert_eq!(q.rank, 3);
    let r = q.sub(2);
    assert_eq!(r.ptr, 4096 + 8);
    assert_eq!(p.add(5).sub(5).ptr, p.ptr);
    assert_eq!(p.add(2).add(3).ptr, p.add(5).ptr);
    let mut m = p;
    m.add_assign(4);
    assert_eq!(m.ptr, 4096 + 32);
    m.sub_assign(1);
    assert_eq!(m.ptr, 4096 + 24);
    assert_eq!(p.idx_ptr(7).ptr, 4096 + 56);
}

#[test]
fn pointer_init_out_of_memory_is_null() {
    let mut c = Config::init(1, 0, 1, 4096);
    let p: GlobalPointer<u8> = GlobalPointer::init(&mut c, 2 * 1024 * 1024);
    assert!(p.is_null());
    assert_eq!(c.smem_heap, 4096);
}

#[test]
fn lock_steps() {
    assert!(test_lock(UNLOCKED, None) == LockStep::Swap);
    assert!(test_lock(UNLOCKED, Some(UNLOCKED)) == LockStep::Acquired);
    assert!(test_lock(UNLOCKED, Some(LOCKED)) == LockStep::Busy);
    assert!(test_lock(LOCKED, None) == LockStep::Busy);
}

// One attempt at the lock word `w`, the remote operations done on the word itself.
fn attempt(w: &mut i64) -> LockStep {
    let mut step = test_lock(*w, None);
    if step == LockStep::Swap {
        let old = *w;
        if old == UNLOCKED {
            *w = LOCKED;
        }
        step = test_lock(UNLOCKED, Some(old));
    }
    step
}

#[test]
fn lock_is_exclusive_until_released() {
    let mut w = UNLOCKED;
    assert!(attempt(&mut w) == LockStep::Acquired);
    assert_eq!(w, LOCKED);
    assert!(attempt(&mut w) == LockStep::Busy);
    assert!(attempt(&mut w) == LockStep::Busy);
    w = UNLOCKED;
    assert!(attempt(&mut w) == LockStep::Acquired);
}

#[test]
fn guard_init_lock_and_test_lock() {
    let mut c = Config::init(1, 1, 2, 4096);
    let g: GlobalGuard<i32> = GlobalGuard::init(&mut c);
    assert_eq!(g.rank, 1);
    assert_eq!(g.ptr, 4096);
    assert_eq!(c.smem_heap, 4096 + 64);
    assert!(!g.is_null());
    assert!(GlobalGuard::<i32>::null().is_null());
    let v = g.lock();
    assert_eq!((v.rank, v.ptr), (1, 4096));
    assert_eq!(v.value_ptr(), (1, 4096 + LOCK_SIZE));
    assert_eq!(v.lock_ptr().ptr, 4096);
    assert_eq!(g.lock_ptr().ptr, 4096);
    match g.test_lock(true) {
        Ok(v) => assert_eq!((v.rank, v.ptr), (1, 4096)),
        Err(_) => panic!("expected the value"),
    }
    match g.test_lock(false) {
        Ok(_) => panic!("expected an error"),
        Err(e) => assert_eq!(e, "Cannot get the lock"),
    }
    let w: GlobalValue<i32> = GlobalValue::init(2, 100);
    assert_eq!((w.rank, w.ptr), (2, 100));
}

#[test]
fn guard_vec_layout() {
    assert_eq!(GlobalGuardVec::<i32>::unit_size(), 72);
    assert_eq!(GlobalGuardVec::<[u8; 64]>::unit_size(), 72);
    assert_eq!(GlobalGuardVec::<[u8; 65]>::unit_size(), 136);
    let mut c = Config::init(1, 0, 1, 4096);
    let g: GlobalGuardVec<i32> = GlobalGuardVec::init(&mut c, 10);
    assert_eq!(g.len(), 10);
    assert_eq!(g.ptr, 4096);
    assert_eq!(c.smem_heap, 4096 + 768);
    assert_eq!(g.lock(0).ptr, 4096);
    assert_eq!(g.lock(3).ptr, 4096 + 3 * 72);
    assert_eq!(g.lock_ptr(9).ptr, 4096 + 9 * 72);
    let n: GlobalGuardVec<i32> = GlobalGuardVec::null();
    assert!(n.is_null());
    assert_eq!(n.len(), 0);
}

#[test]
fn guard_array_places_elements() {
    let mut c = Config::init(1, 1, 3, 4096);
    let mut a: GuardArray<i64> = GuardArray::init(&mut c, 10);
    assert_eq!(a.ptrs.len(), 3);
    assert_eq!(a.ptrs[1].len(), 4);
    assert!(a.ptrs[0].is_null());
    // the blocks of the other PEs, as a broadcast would fill them in
    a.ptrs[0] = GlobalGuardVec { rank: 0, ptr: 4096, size: 4, refer_type: core::marker::PhantomData };
    a.ptrs[2] = GlobalGuardVec { rank: 2, ptr: 4096, size: 4, refer_type: core::marker::PhantomData };
    assert_eq!(a.local_size(), 4);
    let v = a.lock(6);
    assert_eq!((v.rank, v.ptr), (1, 4096 + 2 * 72));
    let v = a.lock(9);
    assert_eq!((v.rank, v.ptr), (2, 4096 + 72));
}
