use bcl::config::Config;
use bcl::containers::queue::{PushStep, Queue, TakeStep};
use bcl::global_pointer::GlobalPointer;
use std::collections::HashMap;

// A queue on one PE, with its counters and slots held here.
struct Sim {
    q: Queue<u32>,
    head: i32,
    tail: i32,
    slow_tail: i32,
    mem: HashMap<usize, u32>,
}

fn sim(capacity: usize) -> Sim {
    let mut c = Config::init(1, 0, 1, 4096);
    let q: Queue<u32> = Queue::new(&mut c, capacity);
    Sim { q, head: 0, tail: 0, slow_tail: 0, mem: HashMap::new() }
}

fn push(s: &mut Sim, v: u32) -> bool {
    let t = s.tail;
    s.tail += 1;
    let h = s.head;
    match s.q.push(v, t, h) {
        PushStep::Full => {
            s.tail -= 1;
            false
        }
        PushStep::Write(p, d) => {
            s.mem.insert(p.ptr, d);
            s.slow_tail += 1;
            true
        }
    }
}

fn pop(s: &mut Sim) -> Result<u32, &'static str> {
    let h = s.head;
    s.head += 1;
    let t = s.tail;
    let mut step = s.q.pop(h, t, None);
    if let TakeStep::ReadSlowTail = step {
        step = s.q.pop(h, t, Some(s.slow_tail));
    }
    match step {
        TakeStep::Read(p) => Ok(s.mem[&p.ptr]),
        TakeStep::Fail(m) => {
            s.head -= 1;
            Err(m)
        }
        TakeStep::ReadSlowTail => unreachable!(),
    }
}

#[test]
fn new_lays_out_counters_and_block() {
    let mut c = Config::init(1, 1, 2, 4096);
    let q: Queue<u32> = Queue::new(&mut c, 10);
    assert_eq!(q.capacity(), 10);
    assert_eq!(q.local_size, 5);
    assert_eq!(q.tail_ptr.ptr, 4096);
    assert_eq!(q.head_ptr.ptr, 4096 + 64);
    assert_eq!(q.slow_tail_ptr.ptr, 4096 + 128);
    assert_eq!((q.ptrs[1].rank, q.ptrs[1].ptr), (1, 4096 + 192));
    assert!(q.ptrs[0].is_null());
    let cl = q.clear();
    assert_eq!(cl[0].ptr, q.head_ptr.ptr);
    assert_eq!(cl[1].ptr, q.tail_ptr.ptr);
    assert_eq!(cl[2].ptr, q.slow_tail_ptr.ptr);
}

#[test]
fn first_in_first_out() {
    let mut s = sim(4);
    assert!(push(&mut s, 10));
    assert!(push(&mut s, 20));
    assert!(push(&mut s, 30));
    assert_eq!(s.q.len(s.head, s.tail), 3);
    assert_eq!(pop(&mut s), Ok(10));
    assert!(push(&mut s, 40));
    assert!(push(&mut s, 50));
    assert_eq!(pop(&mut s), Ok(20));
    assert_eq!(pop(&mut s), Ok(30));
    assert_eq!(pop(&mut s), Ok(40));
    assert_eq!(pop(&mut s), Ok(50));
    assert!(s.q.is_empty(s.head, s.tail));
}

#[test]
fn pop_of_empty_queue_fails_and_changes_nothing() {
    let mut s = sim(4);
    assert_eq!(pop(&mut s), Err("The buffer is empty!"));
    assert_eq!((s.head, s.tail), (0, 0));
    assert!(push(&mut s, 7));
    assert_eq!(pop(&mut s), Ok(7));
}

#[test]
fn pop_waits_for_unfinished_write() {
    let s = sim(4);
    // a push claimed slot 0 (tail 1) but has not finished writing it (slow tail 0)
    match s.q.pop(0, 1, Some(0)) {
        TakeStep::Fail(m) => assert_eq!(m, "The data has not been written yet!"),
        _ => panic!("expected a failure"),
    }
    match s.q.peek(0, 1, Some(0)) {
        TakeStep::Fail(m) => assert_eq!(m, "The data has not been written!"),
        _ => panic!("expected a failure"),
    }
    match s.q.peek(0, 0, None) {
        TakeStep::Fail(m) => assert_eq!(m, "The buffer is empty!"),
        _ => panic!("expected a failure"),
    }
    match s.q.peek(0, 1, Some(1)) {
        TakeStep::Read(p) => assert_eq!(p.ptr, s.q.ptrs[0].ptr),
        _ => panic!("expected a read"),
    }
}

#[test]
fn push_refuses_only_past_capacity() {
    let mut s = sim(2);
    assert!(push(&mut s, 1));
    assert!(push(&mut s, 2));
    // head to tail spans exactly the capacity: the push still goes through,
    // into the slot of the oldest element
    assert!(push(&mut s, 3));
    assert!(!push(&mut s, 4));
    assert_eq!(s.tail, 3);
    assert_eq!(pop(&mut s), Ok(3));
}

#[test]
fn slots_wrap_around() {
    let s = sim(3);
    let p0 = s.q.get_pointer(0);
    match s.q.push(9, 3, 1) {
        PushStep::Write(p, d) => {
            assert_eq!(p.ptr, p0.ptr);
            assert_eq!(d, 9);
        }
        PushStep::Full => panic!("expected a write"),
    }
    let p2: GlobalPointer<u32> = s.q.get_pointer(2);
    assert_eq!(p2.ptr, p0.ptr + 8);
}

#[test]
fn simple_queue_add_remove() {
    let mut c = Config::init(1, 0, 1, 4096);
    let q: bcl::queue::Queue<char> = bcl::queue::Queue::new(&mut c, 3);
    assert_eq!(q.capacity(), 3);
    let (p, d) = q.add('a', 4, 2);
    assert_eq!(p.ptr, q.get_pointer(1).ptr);
    assert_eq!(d, 'a');
    assert_eq!(q.remove(2, 2).map(|p| p.ptr), Err("The buffer is empty!"));
    assert_eq!(q.remove(2, 4).map(|p| p.ptr), Ok(q.get_pointer(2).ptr));
    assert_eq!(q.peek(3, 4).map(|p| p.ptr), Ok(q.get_pointer(0).ptr));
    assert_eq!(q.len(2, 4), 2);
    assert_eq!(q.len(4, 2), usize::MAX - 1);
}

fn peek(s: &Sim) -> Result<u32, &'static str> {
    let mut step = s.q.peek(s.head, s.tail, None);
    if let TakeStep::ReadSlowTail = step {
        step = s.q.peek(s.head, s.tail, Some(s.slow_tail));
    }
    match step {
        TakeStep::Read(p) => Ok(s.mem[&p.ptr]),
        TakeStep::Fail(m) => Err(m),
        TakeStep::ReadSlowTail => unreachable!(),
    }
}

#[test]
fn peek_shows_the_next_pop() {
    let mut s = sim(4);
    assert_eq!(peek(&s), Err("The buffer is empty!"));
    assert!(push(&mut s, 7));
    assert!(push(&mut s, 8));
    assert_eq!(peek(&s), Ok(7));
    assert_eq!(peek(&s), Ok(7));
    assert_eq!(pop(&mut s), Ok(7));
    assert_eq!(peek(&s), Ok(8));
    assert_eq!(pop(&mut s), Ok(8));
    assert_eq!(peek(&s), Err("The buffer is empty!"));
}
