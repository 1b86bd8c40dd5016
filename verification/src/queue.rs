//! A simpler distributed circular queue: a tail and a head counter on PE 0
//! and no record of finished writes. A push claims slot `tail % capacity` by a
//! remote fetch-and-increment of `tail`; a remove claims slot
//! `head % capacity` the same way on `head`. Each operation's decision, given
//! the counter values its remote operations returned, is a function here.
use vstd::prelude::*;
use crate::config::{Config, alloc_addr, heap_after};
use crate::global_pointer::{Bclable, GlobalPointer, elem_size};
use crate::array::block_size;
use crate::containers::queue::{lemma_slot_in_block, lemma_distinct_slots, contents};

verus! {

/// A circular queue of `capacity` elements of `T`, `local_size` slots on
/// each PE, the block of PE `r` at `ptrs[r]`.
pub struct Queue<T: Bclable> {
    pub local_size: usize,
    pub ptrs: Vec<GlobalPointer<T>>,
    pub capacity: usize,
    pub tail_ptr: GlobalPointer<i32>,
    pub head_ptr: GlobalPointer<i32>,
}

impl<T: Bclable> Queue<T> {
    /// The slots fit the PEs' blocks and every block lies in the address space.
    pub open spec fn wf(&self) -> bool {
        &&& self.ptrs@.len() > 0
        &&& self.capacity > 0
        &&& self.local_size == block_size(self.capacity as int, self.ptrs@.len() as int)
        &&& forall|r: int| 0 <= r < self.ptrs@.len() ==>
            (#[trigger] self.ptrs@[r]).ptr + self.local_size * elem_size::<T>() <= usize::MAX
    }

    /// The pointer to slot `i`: element `i - r * local_size` of the block of PE
    /// `r = i / local_size`.
    pub open spec fn slot_ptr(&self, i: int) -> GlobalPointer<T> {
        self.ptrs@[i / self.local_size as int].plus(i - (i / self.local_size as int) * self.local_size)
    }

    /// Creates a queue of `n` elements: its two counters and this PE's block of
    /// `ceil(n / rankn)` slots. The counters have to be zeroed on PE 0 and
    /// broadcast, and the blocks of the other PEs broadcast into `ptrs`.
    pub fn new(config: &mut Config, n: usize) -> (q: Queue<T>)
        requires
            old(config).wf(),
            n + old(config).rankn <= usize::MAX,
            block_size(n as int, old(config).rankn as int) * elem_size::<T>() + 64 <= usize::MAX,
        ensures
            q.capacity == n,
            q.local_size == block_size(n as int, old(config).rankn as int),
            q.ptrs@.len() == old(config).rankn,
            final(config).wf(),
            final(config).rank == old(config).rank,
            final(config).rankn == old(config).rankn,
            final(config).smem_base_ptr == old(config).smem_base_ptr,
            final(config).shared_segment_size == old(config).shared_segment_size,
            ({
                let e = old(config).seg_end();
                let w = elem_size::<i32>();
                let h0 = old(config).heap_top() as int;
                let h1 = heap_after(h0, e, w);
                let h2 = heap_after(h1, e, w);
                let blk = q.local_size * elem_size::<T>();
                &&& q.tail_ptr.rank == old(config).rank && q.tail_ptr.ptr == alloc_addr(h0, e, w)
                &&& q.head_ptr.rank == old(config).rank && q.head_ptr.ptr == alloc_addr(h1, e, w)
                &&& q.ptrs@[old(config).rank as int].rank == old(config).rank
                &&& q.ptrs@[old(config).rank as int].ptr == alloc_addr(h2, e, blk)
                &&& final(config).heap_top() == heap_after(h2, e, blk)
            }),
            forall|r: int| 0 <= r < q.ptrs@.len() && r != old(config).rank ==> (#[trigger] q.ptrs@[r]).ptr == 0,
            n > 0 ==> q.wf(),
    {
        proof {
            broadcast use vstd::layout::layout_of_primitives;
            assert(elem_size::<i32>() == 4);
        }
        let tail_ptr: GlobalPointer<i32> = GlobalPointer::init(config, 1);
        let head_ptr: GlobalPointer<i32> = GlobalPointer::init(config, 1);
        let rankn = config.rankn;
        let mut ptrs: Vec<GlobalPointer<T>> = Vec::new();
        let mut i: usize = 0;
        while i < rankn
            invariant
                i <= rankn,
                ptrs@.len() == i,
                forall|r: int| 0 <= r < i ==> (#[trigger] ptrs@[r]).ptr == 0,
            decreases rankn - i,
        {
            ptrs.push(GlobalPointer::null());
            i = i + 1;
        }
        let local_size = (n + rankn - 1) / rankn;
        let mine = GlobalPointer::init(config, local_size);
        let rank = config.rank;
        let ghost before = ptrs@;
        ptrs.set(rank, mine);
        proof {
            let blk = local_size * elem_size::<T>();
            crate::config::lemma_aligned_size(blk);
            assert(0 <= blk) by (nonlinear_arith)
                requires blk == local_size * elem_size::<T>(), local_size >= 0, elem_size::<T>() >= 0;
            assert forall|r: int| 0 <= r < ptrs@.len() implies
                (#[trigger] ptrs@[r]).ptr + local_size * elem_size::<T>() <= usize::MAX by {
                if r != rank as int {
                    assert(before[r].ptr == 0);
                }
            }
        }
        Queue { local_size, ptrs, capacity: n, tail_ptr, head_ptr }
    }

    /// The pointer to slot `global_idx`.
    pub fn get_pointer(&self, global_idx: usize) -> (p: GlobalPointer<T>)
        requires
            self.wf(),
            global_idx < self.capacity,
        ensures
            p == self.slot_ptr(global_idx as int),
    {
        proof {
            lemma_slot_in_block(self.capacity as int, self.ptrs@.len() as int, global_idx as int);
        }
        let rank = global_idx / self.local_size;
        let local_idx = global_idx - rank * self.local_size;
        proof {
            let e = elem_size::<T>();
            assert(local_idx * e <= self.local_size * e) by (nonlinear_arith)
                requires local_idx < self.local_size, e >= 0;
            assert(self.ptrs@[rank as int].ptr + self.local_size * e <= usize::MAX);
        }
        self.ptrs[rank].idx_ptr(local_idx)
    }

    /// Where an add of `data` writes it, after the fetch-and-increment of the
    /// tail counter returned `tail` and the read of the head counter `head`:
    /// slot `tail % capacity`. Counters are read as unsigned; a full queue
    /// (more than `capacity` slots from head to tail) is refused, as is a head
    /// past the tail.
    pub fn add(&self, data: T, tail: i32, head: i32) -> (r: (GlobalPointer<T>, T))
        requires
            self.wf(),
            tail as usize >= head as usize,
            tail as usize - head as usize <= self.capacity,
        ensures
            r.0 == self.slot_ptr((tail as usize as int) % (self.capacity as int)),
            r.1 == data,
    {
        let t = tail as usize;
        (self.get_pointer(t % self.capacity), data)
    }

    /// Where a remove reads, after the fetch-and-increment of the head counter
    /// returned `head` and the read of the tail counter `tail`: slot
    /// `head % capacity`, or the error that the queue is empty.
    pub fn remove(&self, head: i32, tail: i32) -> (r: Result<GlobalPointer<T>, &'static str>)
        requires
            self.wf(),
        ensures
            tail as usize <= head as usize ==> (r matches Err(m) && m@ == "The buffer is empty!"@),
            tail as usize > head as usize ==> r == Ok::<GlobalPointer<T>, &'static str>(
                self.slot_ptr((head as usize as int) % (self.capacity as int))),
    {
        let h = head as usize;
        if tail as usize <= h {
            return Err("The buffer is empty!");
        }
        Ok(self.get_pointer(h % self.capacity))
    }

    /// Where a peek reads, after reading the head counter `head` and the tail
    /// counter `tail`: slot `head % capacity`, or the error that the queue is
    /// empty.
    pub fn peek(&self, head: i32, tail: i32) -> (r: Result<GlobalPointer<T>, &'static str>)
        requires
            self.wf(),
        ensures
            tail as usize <= head as usize ==> (r matches Err(m) && m@ == "The buffer is empty!"@),
            tail as usize > head as usize ==> r == Ok::<GlobalPointer<T>, &'static str>(
                self.slot_ptr((head as usize as int) % (self.capacity as int))),
    {
        self.remove(head, tail)
    }

    /// The number of elements, from the head and tail counters read: their
    /// difference, as an `i32` read as unsigned. A difference that overflows
    /// `i32` is refused.
    pub fn len(&self, head: i32, tail: i32) -> (n: usize)
        requires
            i32::MIN <= tail - head <= i32::MAX,
        ensures
            n == (tail - head) as i32 as usize,
    {
        (tail - head) as usize
    }

    /// Number of slots.
    pub fn capacity(&self) -> (n: usize)
        ensures
            n == self.capacity,
    {
        self.capacity
    }
}

/// First in, first out, run one operation at a time on counters `head` and
/// `tail` and slot contents `slots`: an add to a queue with room puts the
/// value at the end of its contents, and a remove from a queue that holds
/// elements takes the oldest. (A remove from an empty queue still advances
/// `head`: only the non-empty case is a law.)
pub proof fn lemma_add_remove_fifo<T>(head: int, tail: int, slots: Seq<T>, data: T)
    requires
        slots.len() > 0,
        0 <= head <= tail,
        tail - head < slots.len(),
    ensures
        contents(head, tail + 1, slots.update(tail % (slots.len() as int), data))
            == contents(head, tail, slots).push(data),
        tail > head ==> slots[head % (slots.len() as int)] == contents(head, tail, slots)[0]
            && contents(head + 1, tail, slots) == contents(head, tail, slots).drop_first(),
{
    let n = slots.len() as int;
    let sl = slots.update(tail % n, data);
    let c0 = contents(head, tail, slots);
    let c1 = contents(head, tail + 1, sl);
    assert forall|k: int| 0 <= k < tail - head implies #[trigger] c1[k] == c0[k] by {
        lemma_distinct_slots(head + k, tail, n);
    }
    assert(c1 =~= c0.push(data));
    if tail > head {
        assert(contents(head + 1, tail, slots) =~= c0.drop_first());
    }
}

} // verus!
