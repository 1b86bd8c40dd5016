//! A distributed array: equal blocks of elements, block `r` in the segment of
//! PE `r`.
use vstd::prelude::*;
use crate::config::Config;
use crate::global_pointer::{Bclable, GlobalPointer, elem_size};

verus! {

/// The elements per PE of a container of `n` elements spread over `rankn`
/// PEs: `n / rankn` rounded up.
pub open spec fn block_size(n: int, rankn: int) -> int {
    (n + rankn - 1) / rankn
}

/// The positions `(PE, local index)` `(r, lo)`, `(r, lo + 1)`, ..., up to but
/// not including `(r, hi)`.
pub open spec fn run(r: int, lo: int, hi: int) -> Seq<(int, int)> {
    Seq::new(if hi > lo { (hi - lo) as nat } else { 0 }, |k: int| (r, lo + k))
}

/// The positions that a slice visits in the PEs `br` to `r - 1`: in PE `br`
/// from local index `begin`, in the later ones from 0, each up to `ls`.
pub open spec fn slice_prefix(ls: int, br: int, begin: int, r: int) -> Seq<(int, int)>
    decreases r - br,
{
    if r <= br {
        Seq::empty()
    } else {
        slice_prefix(ls, br, begin, r - 1) + run(r - 1, if r - 1 == br { begin } else { 0 }, ls)
    }
}

/// The positions, in order, that a slice from `begin` to `end` of an array of
/// blocks of `ls` elements reads. When both ends fall in the same PE's block
/// it reads local indices `begin` to `end` there; else it reads the blocks
/// of the PEs from `begin / ls` up to `end / ls` from local index `begin` in
/// the first and 0 in the others, then local indices 0 to `end` of the block
/// of PE `end / ls`. (`begin` and `end` are global indices, used as local ones.)
pub open spec fn slice_positions(ls: int, begin: int, end: int) -> Seq<(int, int)> {
    let br = begin / ls;
    let er = end / ls;
    if br != er {
        slice_prefix(ls, br, begin, er) + run(er, 0, end)
    } else {
        run(br, begin, end)
    }
}

/// A distributed array of `T`: each PE holds `local_size` elements, and
/// `ptrs[r]` points at the block of PE `r`.
pub struct Array<T: Bclable> {
    pub local_size: usize,
    pub ptrs: Vec<GlobalPointer<T>>,
}

impl<T: Bclable> Array<T> {
    /// The pointer to position `(r, i)`: element `i` of the block of PE `r`.
    pub open spec fn at(&self, pos: (int, int)) -> GlobalPointer<T> {
        self.ptrs@[pos.0].plus(pos.1)
    }

    /// Creates this PE's block of an array of `n` elements: each PE holds
    /// `ceil(n / rankn)` of them. The blocks of the other PEs are null until
    /// they are broadcast into `ptrs`.
    pub fn init(config: &mut Config, n: usize) -> (a: Array<T>)
        requires
            old(config).wf(),
            n + old(config).rankn <= usize::MAX,
            block_size(n as int, old(config).rankn as int) * elem_size::<T>() + 63 <= usize::MAX,
        ensures
            old(config).allocated(*final(config), block_size(n as int, old(config).rankn as int) * elem_size::<T>()),
            a.local_size == block_size(n as int, old(config).rankn as int),
            a.ptrs@.len() == old(config).rankn,
            a.ptrs@[old(config).rank as int].rank == old(config).rank,
            a.ptrs@[old(config).rank as int].ptr == crate::config::alloc_addr(old(config).heap_top() as int,
                old(config).seg_end(), a.local_size * elem_size::<T>()),
            forall|r: int| 0 <= r < a.ptrs@.len() && r != old(config).rank ==> (#[trigger] a.ptrs@[r]).ptr == 0,
    {
        let rankn = config.rankn;
        let local_size = (n + rankn - 1) / rankn;
        let mut ptrs: Vec<GlobalPointer<T>> = Vec::new();
        let mut i: usize = 0;
        while i < rankn
            invariant
                i <= rankn,
                ptrs@.len() == i,
                forall|r: int| 0 <= r < i ==> (#[trigger] ptrs@[r]).ptr == 0,
            decreases rankn - i,
        {
            ptrs.push(GlobalPointer::null());
            i = i + 1;
        }
        let mine = GlobalPointer::init(config, local_size);
        let rank = config.rank;
        ptrs.set(rank, mine);
        Array { local_size, ptrs }
    }

    /// The pointer to element `idx` of the array: element `idx % local_size` of
    /// the block of PE `idx / local_size`; `None` when that PE does not exist,
    /// which reading or writing the element refuses as out of bounds.
    pub fn get_ptr(&self, idx: usize) -> (p: Option<GlobalPointer<T>>)
        requires
            self.local_size > 0,
            forall|r: int| 0 <= r < self.ptrs@.len() ==>
                (#[trigger] self.ptrs@[r]).ptr + self.local_size * elem_size::<T>() <= usize::MAX,
        ensures
            (idx as int) / (self.local_size as int) >= self.ptrs@.len() ==> p.is_none(),
            (idx as int) / (self.local_size as int) < self.ptrs@.len() ==>
                p == Some(self.at(((idx as int) / (self.local_size as int), (idx as int) % (self.local_size as int)))),
    {
        let rank = idx / self.local_size;
        if rank >= self.ptrs.len() {
            return None;
        }
        let local_idx = idx % self.local_size;
        proof {
            let e = elem_size::<T>();
            assert(self.ptrs@[rank as int].ptr + self.local_size * e <= usize::MAX);
            assert(local_idx * e <= self.local_size * e) by (nonlinear_arith)
                requires local_idx < self.local_size, e >= 0;
        }
        Some(self.ptrs[rank].idx_ptr(local_idx))
    }

    /// Number of elements the array holds over all `config.rankn` PEs.
    pub fn global_size(&self, config: &Config) -> (n: usize)
        requires
            self.local_size * config.rankn <= usize::MAX,
        ensures
            n == self.local_size * config.rankn,
    {
        self.local_size * config.rankn
    }

    /// The pointers, in order, to the elements that a slice from global index
    /// `begin` to `end` reads (see `slice_positions`). A slice whose ends lie
    /// past the last PE is refused.
    pub fn slice(&self, begin: usize, end: usize) -> (v: Vec<GlobalPointer<T>>)
        requires
            self.local_size > 0,
            (begin as int) / (self.local_size as int) < self.ptrs@.len(),
            (end as int) / (self.local_size as int) < self.ptrs@.len(),
            forall|r: int| 0 <= r < self.ptrs@.len() ==>
                (#[trigger] self.ptrs@[r]).ptr + (self.local_size + end) * elem_size::<T>() <= usize::MAX,
        ensures
            v@.len() == slice_positions(self.local_size as int, begin as int, end as int).len(),
            forall|k: int| 0 <= k < v@.len() ==>
                v@[k] == self.at(#[trigger] slice_positions(self.local_size as int, begin as int, end as int)[k]),
            ({
                let ls = self.local_size as int;
                let br = (begin as int) / ls;
                let er = (end as int) / ls;
                let f = first_part(ls, begin as int);
                br < er ==> {
                    &&& v@.len() == f + (er - br - 1) * ls + end
                    &&& forall|i: int| 0 <= i < f ==> #[trigger] v@[i] == self.at((br, begin + i))
                    &&& forall|q: int, i: int| br < q < er && 0 <= i < ls ==>
                        #[trigger] v@[f + (q - br - 1) * ls + i] == self.at((q, i))
                    &&& forall|i: int| 0 <= i < end ==> #[trigger] v@[f + (er - br - 1) * ls + i] == self.at((er, i))
                }
            }),
    {
        let ls = self.local_size;
        let begin_rank = begin / ls;
        let end_rank = end / ls;
        let ghost e = elem_size::<T>();
        let mut local_slice: Vec<GlobalPointer<T>> = Vec::new();
        if begin_rank != end_rank {
            let mut begin_idx = begin;
            let mut rank = begin_rank;
            while rank < end_rank
                invariant
                    begin_rank <= rank <= end_rank || (rank == begin_rank && end_rank < begin_rank),
                    end_rank < self.ptrs@.len(),
                    ls == self.local_size,
                    ls > 0,
                    begin_rank == begin / ls,
                    e == elem_size::<T>(),
                    begin_idx == (if rank == begin_rank { begin } else { 0 }),
                    forall|r: int| 0 <= r < self.ptrs@.len() ==>
                        (#[trigger] self.ptrs@[r]).ptr + (self.local_size + end) * elem_size::<T>() <= usize::MAX,
                    local_slice@.len() == slice_prefix(ls as int, begin_rank as int, begin as int, rank as int).len(),
                    forall|k: int| 0 <= k < local_slice@.len() ==>
                        local_slice@[k] == self.at(#[trigger] slice_prefix(ls as int, begin_rank as int, begin as int, rank as int)[k]),
                decreases end_rank - rank,
            {
                let ghost pre = slice_prefix(ls as int, begin_rank as int, begin as int, rank as int);
                let ghost start = local_slice@.len();
                let mut i = begin_idx;
                while i < ls
                    invariant
                        begin_idx <= i,
                        i == begin_idx || i <= ls,
                        rank < end_rank,
                        end_rank < self.ptrs@.len(),
                        ls == self.local_size,
                        e == elem_size::<T>(),
                        forall|r: int| 0 <= r < self.ptrs@.len() ==>
                            (#[trigger] self.ptrs@[r]).ptr + (self.local_size + end) * elem_size::<T>() <= usize::MAX,
                        start == pre.len(),
                        local_slice@.len() == pre.len() + run(rank as int, begin_idx as int, i as int).len(),
                        forall|k: int| 0 <= k < local_slice@.len() ==>
                            local_slice@[k] == self.at(#[trigger] (pre + run(rank as int, begin_idx as int, i as int))[k]),
                    decreases ls - i,
                {
                    proof {
                        assert(self.ptrs@[rank as int].ptr + (self.local_size + end) * e <= usize::MAX);
                        assert(i * e <= (self.local_size + end) * e) by (nonlinear_arith)
                            requires i < self.local_size, e >= 0;
                    }
                    let p = self.ptrs[rank].idx_ptr(i);
                    local_slice.push(p);
                    proof {
                        assert(pre + run(rank as int, begin_idx as int, i + 1) =~=
                            (pre + run(rank as int, begin_idx as int, i as int)).push((rank as int, i as int)));
                    }
                    i = i + 1;
                }
                proof {
                    assert(run(rank as int, begin_idx as int, i as int) =~= run(rank as int, begin_idx as int, ls as int));
                    assert(slice_prefix(ls as int, begin_rank as int, begin as int, rank + 1)
                        =~= pre + run(rank as int, begin_idx as int, ls as int));
                }
                begin_idx = 0;
                rank = rank + 1;
            }
            let ghost pre = slice_prefix(ls as int, begin_rank as int, begin as int, rank as int);
            proof {
                if end_rank < begin_rank {
                    assert(pre =~= slice_prefix(ls as int, begin_rank as int, begin as int, end_rank as int));
                }
            }
            let mut i: usize = 0;
            while i < end
                invariant
                    i <= end,
                    end_rank < self.ptrs@.len(),
                    ls == self.local_size,
                    e == elem_size::<T>(),
                    forall|r: int| 0 <= r < self.ptrs@.len() ==>
                        (#[trigger] self.ptrs@[r]).ptr + (self.local_size + end) * elem_size::<T>() <= usize::MAX,
                    local_slice@.len() == pre.len() + run(end_rank as int, 0, i as int).len(),
                    forall|k: int| 0 <= k < local_slice@.len() ==>
                        local_slice@[k] == self.at(#[trigger] (pre + run(end_rank as int, 0, i as int))[k]),
                decreases end - i,
            {
                proof {
                    assert(self.ptrs@[end_rank as int].ptr + (self.local_size + end) * e <= usize::MAX);
                    assert(i * e <= (self.local_size + end) * e) by (nonlinear_arith)
                        requires i < end, e >= 0;
                }
                let p = self.ptrs[end_rank].idx_ptr(i);
                local_slice.push(p);
                proof {
                    assert(pre + run(end_rank as int, 0, i + 1) =~=
                        (pre + run(end_rank as int, 0, i as int)).push((end_rank as int, i as int)));
                }
                i = i + 1;
            }
            proof {
                if end_rank < begin_rank {
                    assert(pre =~= slice_prefix(ls as int, begin_rank as int, begin as int, end_rank as int));
                }
            }
        } else {
            let mut i = begin;
            while i < end
                invariant
                    begin <= i <= end || i == begin,
                    begin_rank < self.ptrs@.len(),
                    ls == self.local_size,
                    e == elem_size::<T>(),
                    forall|r: int| 0 <= r < self.ptrs@.len() ==>
                        (#[trigger] self.ptrs@[r]).ptr + (self.local_size + end) * elem_size::<T>() <= usize::MAX,
                    local_slice@.len() == run(begin_rank as int, begin as int, i as int).len(),
                    forall|k: int| 0 <= k < local_slice@.len() ==>
                        local_slice@[k] == self.at(#[trigger] run(begin_rank as int, begin as int, i as int)[k]),
                decreases end - i,
            {
                proof {
                    assert(self.ptrs@[begin_rank as int].ptr + (self.local_size + end) * e <= usize::MAX);
                    assert(i * e <= (self.local_size + end) * e) by (nonlinear_arith)
                        requires i < end, e >= 0;
                }
                let p = self.ptrs[begin_rank].idx_ptr(i);
                local_slice.push(p);
                proof {
                    assert(run(begin_rank as int, begin as int, i + 1) =~=
                        run(begin_rank as int, begin as int, i as int).push((begin_rank as int, i as int)));
                }
                i = i + 1;
            }
        }
        proof {
            lemma_slice_reads(ls as int, begin as int, end as int);
            let ls = ls as int;
            let br = (begin as int) / ls;
            let er = (end as int) / ls;
            let f = first_part(ls, begin as int);
            let pos = slice_positions(ls as int, begin as int, end as int);
            if br < er {
                assert(0 <= (er - br - 1) * ls) by (nonlinear_arith) requires er - br - 1 >= 0, ls > 0;
                assert forall|q: int, i: int| br < q < er && 0 <= i < ls implies
                    #[trigger] local_slice@[f + (q - br - 1) * ls + i] == self.at((q, i)) by {
                    assert((q - br - 1) * ls + ls <= (er - br - 1) * ls) by (nonlinear_arith)
                        requires q <= er - 1, ls > 0;
                    assert(0 <= (q - br - 1) * ls) by (nonlinear_arith) requires q - br - 1 >= 0, ls > 0;
                    assert(pos[f + (q - br - 1) * ls + i] == (q, i));
                }
                assert forall|i: int| 0 <= i < end implies
                    #[trigger] local_slice@[f + (er - br - 1) * ls + i] == self.at((er, i)) by {
                    assert(pos[f + (er - br - 1) * ls + i] == (er, i));
                }
                assert forall|i: int| 0 <= i < f implies #[trigger] local_slice@[i] == self.at((br, begin + i)) by {
                    assert(pos[i] == (br, begin + i));
                }
            }
        }
        local_slice
    }
}

/// The placement of elements in blocks of `ls` is one to one: index `i`
/// goes to position `(i / ls, i % ls)`, from which it is recovered as
/// `(i / ls) * ls + i % ls`, so distinct indices go to distinct positions.
pub proof fn lemma_placement(ls: int, i: int, j: int)
    requires
        ls > 0,
        0 <= i,
        0 <= j,
    ensures
        (i / ls) * ls + i % ls == i,
        0 <= i % ls < ls,
        i != j ==> (i / ls, i % ls) != (j / ls, j % ls),
{
    vstd::arithmetic::div_mod::lemma_fundamental_div_mod(i, ls);
    vstd::arithmetic::div_mod::lemma_fundamental_div_mod(j, ls);
    vstd::arithmetic::div_mod::lemma_mod_pos_bound(i, ls);
    assert(ls * (i / ls) == (i / ls) * ls) by (nonlinear_arith);
    assert(ls * (j / ls) == (j / ls) * ls) by (nonlinear_arith);
}


/// Distinct elements of an array are distinct places: two different indices
/// of existing PEs' blocks point at different PEs, or at different addresses
/// of one PE's block (the blocks of different PEs being on different PEs).
pub proof fn lemma_elements_distinct<T: Bclable>(a: Array<T>, i: int, j: int)
    requires
        a.local_size > 0,
        elem_size::<T>() > 0,
        forall|r: int| 0 <= r < a.ptrs@.len() ==>
            (#[trigger] a.ptrs@[r]).ptr + a.local_size * elem_size::<T>() <= usize::MAX,
        forall|r: int, s: int| 0 <= r < s < a.ptrs@.len() ==> a.ptrs@[r].rank != a.ptrs@[s].rank,
        0 <= i < j,
        j / (a.local_size as int) < a.ptrs@.len(),
    ensures
        a.at((i / (a.local_size as int), i % (a.local_size as int)))
            != a.at((j / (a.local_size as int), j % (a.local_size as int))),
{
    let ls = a.local_size as int;
    lemma_placement(ls, i, j);
    lemma_placement(ls, j, i);
    let ri = i / ls;
    let rj = j / ls;
    assert(ri <= rj) by {
        vstd::arithmetic::div_mod::lemma_div_is_ordered(i, j, ls);
    }
    assert(ri >= 0) by {
        vstd::arithmetic::div_mod::lemma_div_pos_is_pos(i, ls);
    }
    if ri == rj {
        let li = i % ls;
        let lj = j % ls;
        assert(li != lj);
        let e = elem_size::<T>();
        let p = a.ptrs@[ri].ptr as int;
        assert(li * e != lj * e) by (nonlinear_arith) requires li != lj, e > 0;
        assert(li * e < ls * e && lj * e < ls * e) by (nonlinear_arith) requires li < ls, lj < ls, e > 0, li >= 0, lj >= 0;
        assert(0 <= li * e && 0 <= lj * e) by (nonlinear_arith) requires li >= 0, lj >= 0, e > 0;
        assert(a.at((ri, li)).ptr == (p + li * e) as usize);
        assert(a.at((rj, lj)).ptr == (p + lj * e) as usize);
    } else {
        assert(a.ptrs@[ri].rank != a.ptrs@[rj].rank);
    }
}


/// The length of the part of the first block that a slice from `begin`
/// reads there: the local indices from `begin` up to `ls`.
pub open spec fn first_part(ls: int, begin: int) -> int {
    if begin < ls { ls - begin } else { 0 }
}

proof fn lemma_slice_prefix(ls: int, br: int, begin: int, r: int)
    requires
        ls > 0,
        0 <= begin,
        0 <= br < r,
    ensures
        slice_prefix(ls, br, begin, r).len() == first_part(ls, begin) + (r - br - 1) * ls,
        forall|i: int| 0 <= i < first_part(ls, begin) ==> #[trigger] slice_prefix(ls, br, begin, r)[i] == (br, begin + i),
        forall|q: int, i: int| br < q < r && 0 <= i < ls ==>
            #[trigger] slice_prefix(ls, br, begin, r)[first_part(ls, begin) + (q - br - 1) * ls + i] == (q, i),
    decreases r - br,
{
    let f = first_part(ls, begin);
    let sp = slice_prefix(ls, br, begin, r);
    if r == br + 1 {
        assert(slice_prefix(ls, br, begin, br) =~= Seq::<(int, int)>::empty());
        assert(sp =~= run(br, begin, ls));
        assert((r - br - 1) * ls == 0);
    } else {
        lemma_slice_prefix(ls, br, begin, r - 1);
        let old = slice_prefix(ls, br, begin, r - 1);
        assert(sp == old + run(r - 1, 0, ls));
        assert((r - br - 2) * ls + ls == (r - br - 1) * ls) by (nonlinear_arith);
        assert(0 <= (r - br - 2) * ls) by (nonlinear_arith) requires r - br - 2 >= 0, ls > 0;
        assert forall|q: int, i: int| br < q < r && 0 <= i < ls implies
            #[trigger] sp[f + (q - br - 1) * ls + i] == (q, i) by {
            if q < r - 1 {
                assert((q - br - 1) * ls + ls <= (r - br - 2) * ls) by (nonlinear_arith)
                    requires q <= r - 2, ls > 0;
                assert(0 <= (q - br - 1) * ls) by (nonlinear_arith) requires q - br - 1 >= 0, ls > 0;
                assert(old[f + (q - br - 1) * ls + i] == (q, i));
            } else {
                assert(q == r - 1);
            }
        }
    }
}

/// What a slice reads, block by block. When `begin` and `end` fall in
/// blocks `br < er`, it reads block `br` from local index `begin` (nothing
/// when `begin` is past the block), then every element of every block
/// strictly between, in order, then local indices `0` to `end` of block
/// `er`. When they fall in one block it reads local indices `begin` to
/// `end` there; when `begin` lies past `end`, local indices `0` to `end` of
/// block `er`.
pub proof fn lemma_slice_reads(ls: int, begin: int, end: int)
    requires
        ls > 0,
        0 <= begin,
        0 <= end,
    ensures
        ({
            let br = begin / ls;
            let er = end / ls;
            let f = first_part(ls, begin);
            let pos = slice_positions(ls, begin, end);
            &&& br < er ==> {
                &&& pos.len() == f + (er - br - 1) * ls + end
                &&& forall|i: int| 0 <= i < f ==> #[trigger] pos[i] == (br, begin + i)
                &&& forall|q: int, i: int| br < q < er && 0 <= i < ls ==>
                    #[trigger] pos[f + (q - br - 1) * ls + i] == (q, i)
                &&& forall|i: int| 0 <= i < end ==> #[trigger] pos[f + (er - br - 1) * ls + i] == (er, i)
            }
            &&& br == er ==> {
                &&& pos.len() == if end > begin { end - begin } else { 0 }
                &&& forall|i: int| 0 <= i < pos.len() ==> #[trigger] pos[i] == (br, begin + i)
            }
            &&& br > er ==> {
                &&& pos.len() == end
                &&& forall|i: int| 0 <= i < end ==> #[trigger] pos[i] == (er, i)
            }
        }),
{
    let br = begin / ls;
    let er = end / ls;
    let f = first_part(ls, begin);
    let pos = slice_positions(ls, begin, end);
    assert(br >= 0) by { vstd::arithmetic::div_mod::lemma_div_pos_is_pos(begin, ls); }
    assert(er >= 0) by { vstd::arithmetic::div_mod::lemma_div_pos_is_pos(end, ls); }
    if br < er {
        lemma_slice_prefix(ls, br, begin, er);
        let pre = slice_prefix(ls, br, begin, er);
        assert(pos == pre + run(er, 0, end));
        assert(0 <= (er - br - 1) * ls) by (nonlinear_arith) requires er - br - 1 >= 0, ls > 0;
        assert forall|q: int, i: int| br < q < er && 0 <= i < ls implies
            #[trigger] pos[f + (q - br - 1) * ls + i] == (q, i) by {
            assert((q - br - 1) * ls + ls <= (er - br - 1) * ls) by (nonlinear_arith)
                requires q <= er - 1, ls > 0;
            assert(0 <= (q - br - 1) * ls) by (nonlinear_arith) requires q - br - 1 >= 0, ls > 0;
            assert(pre[f + (q - br - 1) * ls + i] == (q, i));
        }
    } else if br > er {
        assert(slice_prefix(ls, br, begin, er) =~= Seq::<(int, int)>::empty());
        assert(pos =~= run(er, 0, end));
    }
}

} // verus!
