//! A distributed circular queue that any PE may push to and pop from.
//!
//! The slots are spread in equal blocks over the PEs. Three counters on PE 0
//! drive it: `tail` counts pushes that claimed a slot, `slow_tail` pushes that
//! finished writing it, `head` pops that claimed one. A push claims slot
//! `tail % capacity` by a remote fetch-and-increment of `tail`; a pop claims
//! slot `head % capacity` the same way on `head`, and only reads it once
//! `slow_tail` shows it written. Each operation's decision, given the counter
//! values its remote operations returned, is a function here.
use vstd::prelude::*;
use crate::config::{Config, alloc_addr, heap_after};
use crate::global_pointer::{Bclable, GlobalPointer, elem_size};
use crate::array::block_size;

verus! {

/// The slot a push claims when the fetch-and-increment of `tail` returned
/// `tail` and the read of `head` returned `head`, or `None` when the queue is
/// full: more than `capacity` slots between them. Counters are read as
/// unsigned.
pub open spec fn push_slot(tail: int, head: int, capacity: int) -> Option<int> {
    if tail - head > capacity { None } else { Some(tail % capacity) }
}

/// The slot a pop or peek reads when `head` and `tail` were read, or why it
/// cannot: the queue is empty, or the push that claimed the slot has not
/// finished writing it (`slow_tail` not past `head`).
pub open spec fn take_slot(head: int, tail: int, slow_tail: int, capacity: int) -> Result<int, ()> {
    if tail <= head || slow_tail <= head { Err(()) } else { Ok(head % capacity) }
}

/// What a push does next.
pub enum PushStep<T: Bclable> {
    /// The queue is full: give the claimed `tail` back (add -1) and report failure.
    Full,
    /// Write the value to the slot, then increment `slow_tail` and report success.
    Write(GlobalPointer<T>, T),
}

/// What a pop or peek does next.
pub enum TakeStep<T: Bclable> {
    /// Read `slow_tail` and decide again.
    ReadSlowTail,
    /// Fail with this message; a pop first gives its claim on `head` back.
    Fail(&'static str),
    /// Read the element at this pointer and return it.
    Read(GlobalPointer<T>),
}

/// A circular queue of `capacity` elements of `T`, `local_size` slots on
/// each PE, the block of PE `r` at `ptrs[r]`.
pub struct Queue<T: Bclable> {
    pub local_size: usize,
    pub ptrs: Vec<GlobalPointer<T>>,
    pub capacity: usize,
    pub tail_ptr: GlobalPointer<i32>,
    pub head_ptr: GlobalPointer<i32>,
    pub slow_tail_ptr: GlobalPointer<i32>,
}

impl<T: Bclable> Queue<T> {
    /// The slots fit the PEs' blocks and every block lies in the address space.
    pub open spec fn wf(&self) -> bool {
        &&& self.ptrs@.len() > 0
        &&& self.capacity > 0
        &&& self.local_size == block_size(self.capacity as int, self.ptrs@.len() as int)
        &&& forall|r: int| 0 <= r < self.ptrs@.len() ==>
            (#[trigger] self.ptrs@[r]).ptr + self.local_size * elem_size::<T>() <= usize::MAX
    }

    /// The pointer to slot `i`: element `i - r * local_size` of the block of PE
    /// `r = i / local_size`.
    pub open spec fn slot_ptr(&self, i: int) -> GlobalPointer<T> {
        self.ptrs@[i / self.local_size as int].plus(i - (i / self.local_size as int) * self.local_size)
    }

    /// Creates a queue of `n` elements: its three counters and this PE's
    /// block of `ceil(n / rankn)` slots. The counters have to be zeroed on PE 0
    /// and broadcast, and the blocks of the other PEs broadcast into `ptrs`.
    /// A size that the `i32` counters cannot reach is refused.
    pub fn new(config: &mut Config, n: usize) -> (q: Queue<T>)
        requires
            old(config).wf(),
            n < i32::MAX,
            n + old(config).rankn <= usize::MAX,
            block_size(n as int, old(config).rankn as int) * elem_size::<T>() + 64 <= usize::MAX,
        ensures
            q.capacity == n,
            q.local_size == block_size(n as int, old(config).rankn as int),
            q.ptrs@.len() == old(config).rankn,
            final(config).wf(),
            final(config).rank == old(config).rank,
            final(config).rankn == old(config).rankn,
            final(config).smem_base_ptr == old(config).smem_base_ptr,
            final(config).shared_segment_size == old(config).shared_segment_size,
            ({
                let e = old(config).seg_end();
                let w = elem_size::<i32>();
                let h0 = old(config).heap_top() as int;
                let h1 = heap_after(h0, e, w);
                let h2 = heap_after(h1, e, w);
                let h3 = heap_after(h2, e, w);
                let blk = q.local_size * elem_size::<T>();
                &&& q.tail_ptr.rank == old(config).rank && q.tail_ptr.ptr == alloc_addr(h0, e, w)
                &&& q.head_ptr.rank == old(config).rank && q.head_ptr.ptr == alloc_addr(h1, e, w)
                &&& q.slow_tail_ptr.rank == old(config).rank && q.slow_tail_ptr.ptr == alloc_addr(h2, e, w)
                &&& q.ptrs@[old(config).rank as int].rank == old(config).rank
                &&& q.ptrs@[old(config).rank as int].ptr == alloc_addr(h3, e, blk)
                &&& final(config).heap_top() == heap_after(h3, e, blk)
            }),
            forall|r: int| 0 <= r < q.ptrs@.len() && r != old(config).rank ==> (#[trigger] q.ptrs@[r]).ptr == 0,
            n > 0 ==> q.wf(),
    {
        proof {
            broadcast use vstd::layout::layout_of_primitives;
            assert(elem_size::<i32>() == 4);
        }
        let tail_ptr: GlobalPointer<i32> = GlobalPointer::init(config, 1);
        let head_ptr: GlobalPointer<i32> = GlobalPointer::init(config, 1);
        let slow_tail_ptr: GlobalPointer<i32> = GlobalPointer::init(config, 1);
        let rankn = config.rankn;
        let mut ptrs: Vec<GlobalPointer<T>> = Vec::new();
        let mut i: usize = 0;
        while i < rankn
            invariant
                i <= rankn,
                ptrs@.len() == i,
                forall|r: int| 0 <= r < i ==> (#[trigger] ptrs@[r]).ptr == 0,
            decreases rankn - i,
        {
            ptrs.push(GlobalPointer::null());
            i = i + 1;
        }
        let local_size = (n + rankn - 1) / rankn;
        let mine = GlobalPointer::init(config, local_size);
        let rank = config.rank;
        let ghost before = ptrs@;
        ptrs.set(rank, mine);
        proof {
            let blk = local_size * elem_size::<T>();
            crate::config::lemma_aligned_size(blk);
            assert(0 <= blk) by (nonlinear_arith)
                requires blk == local_size * elem_size::<T>(), local_size >= 0, elem_size::<T>() >= 0;
            assert forall|r: int| 0 <= r < ptrs@.len() implies
                (#[trigger] ptrs@[r]).ptr + local_size * elem_size::<T>() <= usize::MAX by {
                if r != rank as int {
                    assert(before[r].ptr == 0);
                }
            }
        }
        Queue { local_size, ptrs, capacity: n, tail_ptr, head_ptr, slow_tail_ptr }
    }

    /// The pointer to slot `global_idx`.
    pub fn get_pointer(&self, global_idx: usize) -> (p: GlobalPointer<T>)
        requires
            self.wf(),
            global_idx < self.capacity,
        ensures
            p == self.slot_ptr(global_idx as int),
    {
        proof {
            lemma_slot_in_block(self.capacity as int, self.ptrs@.len() as int, global_idx as int);
        }
        let rank = global_idx / self.local_size;
        let local_idx = global_idx - rank * self.local_size;
        proof {
            let e = elem_size::<T>();
            assert(local_idx * e <= self.local_size * e) by (nonlinear_arith)
                requires local_idx < self.local_size, e >= 0;
            assert(self.ptrs@[rank as int].ptr + self.local_size * e <= usize::MAX);
        }
        self.ptrs[rank].idx_ptr(local_idx)
    }

    /// The decision of a push of `data`, after the fetch-and-increment of the
    /// tail counter returned `tail` and the read of the head counter `head`.
    /// Counters are read as unsigned; a head past the tail is refused.
    pub fn push(&self, data: T, tail: i32, head: i32) -> (r: PushStep<T>)
        requires
            self.wf(),
            tail as usize >= head as usize,
        ensures
            match push_slot(tail as usize as int, head as usize as int, self.capacity as int) {
                None => r is Full,
                Some(i) => r matches PushStep::Write(p, d) && p == self.slot_ptr(i) && d == data,
            },
    {
        let t = tail as usize;
        let h = head as usize;
        if t - h > self.capacity {
            return PushStep::Full;
        }
        let slot = t % self.capacity;
        PushStep::Write(self.get_pointer(slot), data)
    }

    /// A step of a pop, after the fetch-and-increment of the head counter
    /// returned `head` and the read of the tail counter `tail`, and, once
    /// asked for, the read of the slow tail counter `slow_tail`.
    pub fn pop(&self, head: i32, tail: i32, slow_tail: Option<i32>) -> (r: TakeStep<T>)
        requires
            self.wf(),
        ensures
            tail as usize <= head as usize ==> (r matches TakeStep::Fail(m) && m@ == "The buffer is empty!"@),
            tail as usize > head as usize ==> match slow_tail {
                None => r is ReadSlowTail,
                Some(s) => match take_slot(head as usize as int, tail as usize as int, s as usize as int, self.capacity as int) {
                    Err(_) => r matches TakeStep::Fail(m) && m@ == "The data has not been written yet!"@,
                    Ok(i) => r matches TakeStep::Read(p) && p == self.slot_ptr(i),
                },
            },
    {
        let h = head as usize;
        let t = tail as usize;
        if t <= h {
            return TakeStep::Fail("The buffer is empty!");
        }
        match slow_tail {
            None => TakeStep::ReadSlowTail,
            Some(s) => {
                if (s as usize) <= h {
                    TakeStep::Fail("The data has not been written yet!")
                } else {
                    TakeStep::Read(self.get_pointer(h % self.capacity))
                }
            },
        }
    }

    /// A step of a peek, after reading the head counter `head` and the tail
    /// counter `tail`, and, once asked for, the slow tail counter `slow_tail`.
    pub fn peek(&self, head: i32, tail: i32, slow_tail: Option<i32>) -> (r: TakeStep<T>)
        requires
            self.wf(),
        ensures
            tail as usize <= head as usize ==> (r matches TakeStep::Fail(m) && m@ == "The buffer is empty!"@),
            tail as usize > head as usize ==> match slow_tail {
                None => r is ReadSlowTail,
                Some(s) => match take_slot(head as usize as int, tail as usize as int, s as usize as int, self.capacity as int) {
                    Err(_) => r matches TakeStep::Fail(m) && m@ == "The data has not been written!"@,
                    Ok(i) => r matches TakeStep::Read(p) && p == self.slot_ptr(i),
                },
            },
    {
        let h = head as usize;
        let t = tail as usize;
        if t <= h {
            return TakeStep::Fail("The buffer is empty!");
        }
        match slow_tail {
            None => TakeStep::ReadSlowTail,
            Some(s) => {
                if (s as usize) <= h {
                    TakeStep::Fail("The data has not been written!")
                } else {
                    TakeStep::Read(self.get_pointer(h % self.capacity))
                }
            },
        }
    }

    /// The number of elements, from the head and tail counters read. A head
    /// past the tail is refused.
    pub fn len(&self, head: i32, tail: i32) -> (n: usize)
        requires
            tail as usize >= head as usize,
        ensures
            n == tail as usize - head as usize,
    {
        tail as usize - head as usize
    }

    /// Whether the queue is empty, from the head and tail counters read.
    pub fn is_empty(&self, head: i32, tail: i32) -> (b: bool)
        requires
            tail as usize >= head as usize,
        ensures
            b == (head as usize == tail as usize),
    {
        self.len(head, tail) == 0
    }

    /// The counters that clearing the queue sets to 0, in order: head, tail,
    /// slow tail.
    pub fn clear(&self) -> (r: [GlobalPointer<i32>; 3])
        ensures
            r@ == seq![self.head_ptr, self.tail_ptr, self.slow_tail_ptr],
    {
        [self.head_ptr, self.tail_ptr, self.slow_tail_ptr]
    }

    /// Number of slots.
    pub fn capacity(&self) -> (n: usize)
        ensures
            n == self.capacity,
    {
        self.capacity
    }
}

/// The elements of a queue, oldest first, when its counters are `head` and
/// `tail` and slot `i` holds `slots[i]`.
pub open spec fn contents<T>(head: int, tail: int, slots: Seq<T>) -> Seq<T> {
    Seq::new((tail - head) as nat, |k: int| slots[(head + k) % (slots.len() as int)])
}

/// A queue state `(head, tail, slow_tail, slots)` in which no operation is
/// half done, and fewer than `slots.len()` elements are stored.
pub open spec fn queue_ok<T>(head: int, tail: int, slow_tail: int, slots: Seq<T>) -> bool {
    &&& slots.len() > 0
    &&& 0 <= head <= tail
    &&& slow_tail == tail
    &&& tail - head < slots.len()
}

/// A push of `data` run to its end with no other operation in between, from
/// state `(head, tail, slow_tail, slots)`: its result and the state after it.
pub open spec fn push_run<T>(head: int, tail: int, slow_tail: int, slots: Seq<T>, data: T)
    -> (bool, (int, int, int, Seq<T>))
{
    match push_slot(tail, head, slots.len() as int) {
        None => (false, (head, tail, slow_tail, slots)),
        Some(i) => (true, (head, tail + 1, slow_tail + 1, slots.update(i, data))),
    }
}

/// A pop run to its end with no other operation in between: the element it
/// returns, if any, and the state after it.
pub open spec fn pop_run<T>(head: int, tail: int, slow_tail: int, slots: Seq<T>)
    -> (Option<T>, (int, int, int, Seq<T>))
{
    match take_slot(head, tail, slow_tail, slots.len() as int) {
        Err(_) => (None, (head, tail, slow_tail, slots)),
        Ok(i) => (Some(slots[i]), (head + 1, tail, slow_tail, slots)),
    }
}

/// First in, first out: a push onto a queue with room appends the value to
/// its contents.
pub proof fn lemma_push_appends<T>(head: int, tail: int, slow_tail: int, slots: Seq<T>, data: T)
    requires
        queue_ok(head, tail, slow_tail, slots),
    ensures
        ({
            let (ok, (h, t, st, sl)) = push_run(head, tail, slow_tail, slots, data);
            &&& ok
            &&& sl.len() == slots.len()
            &&& contents(h, t, sl) == contents(head, tail, slots).push(data)
            &&& t - h <= slots.len() && st == t && h == head
        }),
{
    let n = slots.len() as int;
    let i = tail % n;
    let sl = slots.update(i, data);
    let c0 = contents(head, tail, slots);
    let c1 = contents(head, tail + 1, sl);
    assert forall|k: int| 0 <= k < tail - head implies #[trigger] c1[k] == c0[k] by {
        lemma_distinct_slots(head + k, tail, n);
    }
    assert(c1 =~= c0.push(data));
}

/// First in, first out: a pop from a queue that holds elements returns the
/// oldest and removes it from its contents; a pop from an empty queue returns
/// nothing and changes nothing.
pub proof fn lemma_pop_takes_oldest<T>(head: int, tail: int, slow_tail: int, slots: Seq<T>)
    requires
        queue_ok(head, tail, slow_tail, slots),
    ensures
        ({
            let (r, (h, t, st, sl)) = pop_run(head, tail, slow_tail, slots);
            let c = contents(head, tail, slots);
            &&& c.len() > 0 ==> r == Some(c[0]) && contents(h, t, sl) == c.drop_first() && queue_ok(h, t, st, sl)
            &&& c.len() == 0 ==> r is None && (h, t, st, sl) == (head, tail, slow_tail, slots)
        }),
{
    let c = contents(head, tail, slots);
    if c.len() > 0 {
        let (r, (h, t, st, sl)) = pop_run(head, tail, slow_tail, slots);
        assert(contents(h, t, sl) =~= c.drop_first());
    }
}

/// What a peek run to its end with no other operation in between returns.
/// It changes no counter and no slot.
pub open spec fn peek_run<T>(head: int, tail: int, slow_tail: int, slots: Seq<T>) -> Option<T> {
    match take_slot(head, tail, slow_tail, slots.len() as int) {
        Err(_) => None,
        Ok(i) => Some(slots[i]),
    }
}

/// A peek shows what the next pop returns: the oldest element when the
/// queue holds one, else nothing. Since a peek changes nothing, a second peek
/// gives the same answer.
pub proof fn lemma_peek_is_next_pop<T>(head: int, tail: int, slow_tail: int, slots: Seq<T>)
    requires
        queue_ok(head, tail, slow_tail, slots),
    ensures
        peek_run(head, tail, slow_tail, slots) == pop_run(head, tail, slow_tail, slots).0,
        (peek_run(head, tail, slow_tail, slots) is Some) <==> contents(head, tail, slots).len() > 0,
        contents(head, tail, slots).len() > 0 ==>
            peek_run(head, tail, slow_tail, slots) == Some(contents(head, tail, slots)[0]),
{
    lemma_pop_takes_oldest(head, tail, slow_tail, slots);
}

/// Two positions less than `n` apart fall in different slots.
pub proof fn lemma_distinct_slots(a: int, b: int, n: int)
    requires
        n > 0,
        0 <= a < b,
        b - a < n,
    ensures
        a % n != b % n,
{
    vstd::arithmetic::div_mod::lemma_fundamental_div_mod(a, n);
    vstd::arithmetic::div_mod::lemma_fundamental_div_mod(b, n);
    vstd::arithmetic::div_mod::lemma_mod_pos_bound(a, n);
    vstd::arithmetic::div_mod::lemma_mod_pos_bound(b, n);
    if a % n == b % n {
        assert(n * (b / n) - n * (a / n) == b - a);
        assert(n * (b / n - a / n) == b - a) by (nonlinear_arith)
            requires n * (b / n) - n * (a / n) == b - a;
        assert(false) by (nonlinear_arith)
            requires n * (b / n - a / n) == b - a, 0 < b - a < n, n > 0;
    }
}

/// Distinct slots of a queue are distinct places: on different PEs, or at
/// different addresses of the same PE's block.
pub proof fn lemma_slots_distinct<T: Bclable>(q: Queue<T>, i: int, j: int)
    requires
        q.wf(),
        elem_size::<T>() > 0,
        forall|r: int, s: int| 0 <= r < s < q.ptrs@.len() ==> q.ptrs@[r].rank != q.ptrs@[s].rank,
        0 <= i < j < q.capacity,
    ensures
        q.slot_ptr(i) != q.slot_ptr(j),
{
    let ls = q.local_size as int;
    lemma_slot_in_block(q.capacity as int, q.ptrs@.len() as int, i);
    lemma_slot_in_block(q.capacity as int, q.ptrs@.len() as int, j);
    let ri = i / ls;
    let rj = j / ls;
    if ri == rj {
        let li = i - ri * ls;
        let lj = j - rj * ls;
        let e = elem_size::<T>();
        let p = q.ptrs@[ri].ptr as int;
        assert(li * e < lj * e) by (nonlinear_arith) requires li < lj, e > 0;
        assert(lj * e <= ls * e) by (nonlinear_arith) requires lj < ls, e > 0;
        assert(q.slot_ptr(i).ptr == (p + li * e) as usize);
        assert(q.slot_ptr(j).ptr == (p + lj * e) as usize);
    } else {
        if ri < rj {
            assert(q.ptrs@[ri].rank != q.ptrs@[rj].rank);
        } else {
            assert(q.ptrs@[rj].rank != q.ptrs@[ri].rank);
        }
    }
}

/// Slot `i` of `n` spread over `rankn` PEs in blocks of `ceil(n / rankn)`
/// lies in the block of an existing PE, at a local index below the block size.
pub proof fn lemma_slot_in_block(n: int, rankn: int, i: int)
    requires
        n > 0,
        rankn > 0,
        0 <= i < n,
    ensures
        block_size(n, rankn) > 0,
        0 <= i / block_size(n, rankn) < rankn,
        0 <= i - (i / block_size(n, rankn)) * block_size(n, rankn) < block_size(n, rankn),
{
    let ls = block_size(n, rankn);
    assert(ls * rankn >= n) by (nonlinear_arith)
        requires ls == (n + rankn - 1) / rankn, rankn > 0;
    assert(ls > 0) by (nonlinear_arith) requires ls * rankn >= n, n > 0, rankn > 0;
    vstd::arithmetic::div_mod::lemma_fundamental_div_mod(i, ls);
    vstd::arithmetic::div_mod::lemma_mod_pos_bound(i, ls);
    assert(ls * (i / ls) == (i / ls) * ls) by (nonlinear_arith);
    assert(i / ls < rankn) by (nonlinear_arith)
        requires ls * rankn >= n, i < n, ls > 0, i >= 0;
    assert(i / ls >= 0) by (nonlinear_arith) requires i >= 0, ls > 0;
}


/// A queue state: head, tail and slow tail counters, and the slots.
pub type QueueState<T> = (int, int, int, Seq<T>);

/// Operations run one after another, each to its end: `Some(x)` a push of
/// `x`, `None` a pop. The state after them, and how many pushes and how many
/// pops succeeded.
pub open spec fn queue_ops<T>(st: QueueState<T>, ops: Seq<Option<T>>) -> (QueueState<T>, int, int)
    decreases ops.len(),
{
    if ops.len() == 0 {
        (st, 0, 0)
    } else {
        let (s1, a, r) = queue_ops(st, ops.drop_last());
        match ops.last() {
            Some(x) => {
                let (ok, s2) = push_run(s1.0, s1.1, s1.2, s1.3, x);
                (s2, if ok { a + 1 } else { a }, r)
            },
            None => {
                let (o, s2) = pop_run(s1.0, s1.1, s1.2, s1.3);
                (s2, a, if o is Some { r + 1 } else { r })
            },
        }
    }
}

/// The length counts successful operations: run one after another from an
/// empty queue (as `new` and `clear` leave it), the number of elements,
/// `tail - head`, is the number of pushes that succeeded minus the number of
/// pops that succeeded; it is never negative and at most one more than the
/// capacity (a push is refused only when more than `capacity` elements are
/// stored); and the queue is empty exactly when as many pops as pushes
/// succeeded.
pub proof fn lemma_len_counts<T>(c: int, slots: Seq<T>, ops: Seq<Option<T>>)
    requires
        slots.len() > 0,
        c >= 0,
    ensures
        ({
            let (st, a, r) = queue_ops((c, c, c, slots), ops);
            &&& st.1 - st.0 == a - r
            &&& 0 <= st.1 - st.0 <= slots.len() + 1
            &&& st.2 == st.1
            &&& st.3.len() == slots.len()
            &&& (st.1 == st.0) == (a == r)
            &&& c <= st.0
        }),
    decreases ops.len(),
{
    if ops.len() > 0 {
        lemma_len_counts(c, slots, ops.drop_last());
    }
}


/// A pop or peek reads the oldest written element while other pushes are
/// still writing. Take a queue whose claimed positions `head` to `tail`
/// (at most `capacity` of them) have been written from `head` up to
/// `slow_tail`: `contents(head, slow_tail, slots)` are the written elements,
/// oldest first. When there is one, a pop returns the oldest and takes it,
/// leaving the rest; when none is written yet, it fails and changes
/// nothing; a peek returns what the pop would.
pub proof fn lemma_pop_during_pushes<T>(head: int, tail: int, slow_tail: int, slots: Seq<T>)
    requires
        slots.len() > 0,
        0 <= head <= slow_tail <= tail,
        tail - head <= slots.len(),
    ensures
        ({
            let c = contents(head, slow_tail, slots);
            let (r, st2) = pop_run(head, tail, slow_tail, slots);
            &&& c.len() > 0 ==> {
                &&& r == Some(c[0])
                &&& st2 == (head + 1, tail, slow_tail, slots)
                &&& contents(head + 1, slow_tail, slots) == c.drop_first()
            }
            &&& c.len() == 0 ==> r is None && st2 == (head, tail, slow_tail, slots)
            &&& peek_run(head, tail, slow_tail, slots) == r
        }),
{
    let c = contents(head, slow_tail, slots);
    if c.len() > 0 {
        assert(c[0] == slots[head % (slots.len() as int)]);
        assert(contents(head + 1, slow_tail, slots) =~= c.drop_first());
    }
}


/// A push is refused exactly when more than `capacity` elements are
/// claimed, and then changes nothing; otherwise it claims the next position,
/// `tail`, and writes the value to its slot, `tail % capacity`.
pub proof fn lemma_push_refused_when_over<T>(head: int, tail: int, slow_tail: int, slots: Seq<T>, data: T)
    requires
        slots.len() > 0,
        0 <= head <= tail,
    ensures
        ({
            let (ok, st2) = push_run(head, tail, slow_tail, slots, data);
            &&& ok <==> tail - head <= slots.len()
            &&& !ok ==> st2 == (head, tail, slow_tail, slots)
            &&& ok ==> st2.0 == head && st2.1 == tail + 1 && st2.2 == slow_tail + 1
                && st2.3[tail % (slots.len() as int)] == data
                && forall|i: int| 0 <= i < slots.len() && i != tail % (slots.len() as int) ==> #[trigger] st2.3[i] == slots[i]
        }),
{
    vstd::arithmetic::div_mod::lemma_mod_pos_bound(tail, slots.len() as int);
}

} // verus!
