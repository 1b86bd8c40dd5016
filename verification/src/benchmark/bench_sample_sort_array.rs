//! The local steps of the distributed sample sort: choosing pivots, cutting
//! the sorted local data into one bucket per PE, and joining received
//! buckets. A bucket buffer holds bucket `j` at stride `stride`: its length
//! at `stride * j`, its elements after it.
use vstd::prelude::*;

verus! {

/// The first index from `b` on whose element is not below `pivot`, or
/// `data.len()` when there is none.
pub open spec fn first_not_below(data: Seq<u32>, pivot: u32, b: int) -> int
    decreases data.len() - b,
{
    if b >= data.len() || b < 0 {
        data.len() as int
    } else if data[b] >= pivot {
        b
    } else {
        first_not_below(data, pivot, b + 1)
    }
}

/// The writes `(index, value)` that put `data[b..e]` into bucket `j` of a
/// buffer of stride `stride`, followed by the write of its length.
pub open spec fn bucket_writes(data: Seq<u32>, stride: int, j: int, b: int, e: int) -> Seq<(usize, u32)> {
    Seq::new((e - b) as nat, |k: int| ((stride * j + 1 + k) as usize, data[b + k]))
        .push(((stride * j) as usize, (e - b) as u32))
}

/// The writes that partition `data` from index `b` on into buckets `j`,
/// `j + 1`, ...: bucket `j` takes elements while they are below `pivots[j]`;
/// the last bucket, or the bucket where the data runs out, takes the rest.
/// Buckets after the one where the data runs out get no write, not even of
/// their length.
pub open spec fn partition_writes(data: Seq<u32>, pivots: Seq<u32>, stride: int, j: int, b: int) -> Seq<(usize, u32)>
    decreases pivots.len() - j,
{
    if j >= pivots.len() || j < 0 {
        bucket_writes(data, stride, j, b, data.len() as int)
    } else {
        let e = first_not_below(data, pivots[j], b);
        if e >= data.len() {
            bucket_writes(data, stride, j, b, data.len() as int)
        } else {
            bucket_writes(data, stride, j, b, e) + partition_writes(data, pivots, stride, j + 1, e)
        }
    }
}

proof fn lemma_first_not_below(data: Seq<u32>, pivot: u32, b: int)
    requires
        0 <= b <= data.len(),
    ensures
        b <= first_not_below(data, pivot, b) <= data.len(),
        forall|i: int| b <= i < first_not_below(data, pivot, b) ==> data[i] < pivot,
        first_not_below(data, pivot, b) < data.len() ==> data[first_not_below(data, pivot, b)] >= pivot,
    decreases data.len() - b,
{
    if b < data.len() && data[b] < pivot {
        lemma_first_not_below(data, pivot, b + 1);
    }
}

/// The pivots that a PE proposes from its sorted local data: for each of the
/// first `rankn - 1` PEs `i`, the element at `size / rankn^2 * (i + 1)`.
pub fn local_pivots(data: &Vec<u32>, rankn: usize, size: usize) -> (v: Vec<u32>)
    requires
        rankn > 0,
        rankn * rankn <= usize::MAX,
        (size as int / (rankn * rankn)) * (rankn - 1) < data@.len() || rankn == 1,
    ensures
        v@.len() == rankn - 1,
        forall|i: int| 0 <= i < rankn - 1 ==> #[trigger] v@[i] == data@[(size as int / (rankn * rankn)) * (i + 1)],
{
    assert(rankn * rankn > 0) by (nonlinear_arith) requires rankn > 0;
    let step = size / (rankn * rankn);
    let mut v: Vec<u32> = Vec::new();
    let mut i: usize = 0;
    while i < rankn - 1
        invariant
            i <= rankn - 1,
            step == size as int / (rankn * rankn),
            rankn > 0,
            (step * (rankn - 1) < data@.len() || rankn == 1),
            v@.len() == i,
            forall|k: int| 0 <= k < i ==> #[trigger] v@[k] == data@[step * (k + 1)],
        decreases rankn - 1 - i,
    {
        assert(step * (i + 1) <= step * (rankn - 1)) by (nonlinear_arith)
            requires i + 1 <= rankn - 1, step >= 0;
        assert(step * (rankn - 1) < data@.len());
        let m = i + 1;
        assert(step * m < data.len());
        let idx = step * m;
        v.push(data[idx]);
        i = i + 1;
    }
    v
}

/// The global pivots that the root picks from all proposed pivots, sorted:
/// for each of the first `rankn - 1` PEs `i`, the element at
/// `(rankn - 1) * (i + 1)`.
pub fn global_pivots(pivots: &Vec<u32>, rankn: usize) -> (v: Vec<u32>)
    requires
        rankn > 0,
        (rankn - 1) * (rankn - 1) < pivots@.len() || rankn == 1,
    ensures
        v@.len() == rankn - 1,
        forall|i: int| 0 <= i < rankn - 1 ==> #[trigger] v@[i] == pivots@[(rankn - 1) * (i + 1)],
{
    let mut v: Vec<u32> = Vec::new();
    let mut i: usize = 0;
    while i < rankn - 1
        invariant
            i <= rankn - 1,
            rankn > 0,
            ((rankn - 1) * (rankn - 1) < pivots@.len() || rankn == 1),
            v@.len() == i,
            forall|k: int| 0 <= k < i ==> #[trigger] v@[k] == pivots@[(rankn - 1) * (k + 1)],
        decreases rankn - 1 - i,
    {
        assert((rankn - 1) * (i + 1) <= (rankn - 1) * (rankn - 1)) by (nonlinear_arith)
            requires i + 1 <= rankn - 1;
        assert((rankn - 1) * (rankn - 1) < pivots@.len());
        let m = i + 1;
        let r1 = rankn - 1;
        assert(r1 * m < pivots.len());
        let idx = r1 * m;
        v.push(pivots[idx]);
        i = i + 1;
    }
    v
}

/// The writes, in order, that partition the local data into a bucket
/// buffer of stride `n + 1`, one bucket per PE (`pivots.len() + 1` buckets):
/// see `partition_writes`. The partition steps back one element whenever it
/// closes a bucket, which underflows when the first element already closes
/// the first bucket: that input is refused.
pub fn partition_by_pivots(data: &Vec<u32>, pivots: &Vec<u32>) -> (w: Vec<(usize, u32)>)
    requires
        data@.len() + 1 <= u32::MAX,
        (data@.len() + 1) * (pivots@.len() + 1) <= usize::MAX,
        data@.len() > 0 && pivots@.len() > 0 ==> data@[0] < pivots@[0],
    ensures
        w@ == partition_writes(data@, pivots@, data@.len() + 1int, 0, 0),
{
    let n = data.len();
    let stride = n + 1;
    let np = pivots.len();
    let mut w: Vec<(usize, u32)> = Vec::new();
    let mut j: usize = 0;
    let mut b: usize = 0;
    let ghost whole = partition_writes(data@, pivots@, stride as int, 0, 0);
    loop
        invariant_except_break
            whole == w@ + partition_writes(data@, pivots@, stride as int, j as int, b as int),
        invariant
            n == data@.len(),
            np == pivots@.len(),
            stride == n + 1,
            n + 1 <= u32::MAX,
            stride * (np + 1) <= usize::MAX,
            j <= np,
            b <= n,
        ensures
            whole == w@,
        decreases np - j,
    {
        // scan bucket j
        let mut e = b;
        proof { lemma_first_not_below(data@, if j < np { pivots@[j as int] } else { 0 }, b as int); }
        while e < n && (j >= np || data[e] < pivots[j])
            invariant
                n == data@.len(),
                np == pivots@.len(),
                b <= e <= n,
                j <= np,
                j < np ==> first_not_below(data@, pivots@[j as int], e as int)
                    == first_not_below(data@, pivots@[j as int], b as int),
            decreases n - e,
        {
            e = e + 1;
        }
        proof {
            assert(j * stride + stride <= stride * (np + 1)) by (nonlinear_arith)
                requires j <= np;
            assert(stride * j == j * stride) by (nonlinear_arith);
        }
        let base = stride * j;
        let ghost before = w@;
        let mut k: usize = b;
        while k < e
            invariant
                b <= k <= e <= n,
                n == data@.len(),
                stride == n + 1,
                base + stride <= usize::MAX,
                base == stride * j,
                w@ == before + Seq::new((k - b) as nat, |t: int| ((stride * j + 1 + t) as usize, data@[b + t])),
            decreases e - k,
        {
            w.push((base + 1 + (k - b), data[k]));
            proof {
                assert(w@ =~= before + Seq::new((k + 1 - b) as nat, |t: int| ((stride * j + 1 + t) as usize, data@[b + t])));
            }
            k = k + 1;
        }
        w.push((base, (e - b) as u32));
        proof {
            let last = if j < np { first_not_below(data@, pivots@[j as int], b as int) } else { n as int };
            assert(e == last || j >= np);
            let bw = bucket_writes(data@, stride as int, j as int, b as int, e as int);
            assert(w@ =~= before + bw);
            if j >= np || e >= n {
                assert(partition_writes(data@, pivots@, stride as int, j as int, b as int) == bw);
                assert(whole =~= w@);
            } else {
                assert(partition_writes(data@, pivots@, stride as int, j as int, b as int)
                    == bw + partition_writes(data@, pivots@, stride as int, j + 1, e as int));
                assert(whole =~= w@ + partition_writes(data@, pivots@, stride as int, j + 1, e as int));
            }
        }
        if j >= np || e >= n {
            break;
        }
        j = j + 1;
        b = e;
    }
    w
}

/// The elements of buckets `0` to `j - 1` of a bucket buffer of stride
/// `stride`, one bucket after the other; bucket `i` has `buf[stride * i]`
/// elements, which follow its length.
pub open spec fn gathered(buf: Seq<u32>, stride: int, j: int) -> Seq<u32>
    decreases j,
{
    if j <= 0 {
        Seq::empty()
    } else {
        gathered(buf, stride, j - 1) + bucket(buf, stride, j - 1)
    }
}

/// The elements of bucket `j` of a bucket buffer of stride `stride`.
pub open spec fn bucket(buf: Seq<u32>, stride: int, j: int) -> Seq<u32> {
    buf.subrange(stride * j + 1, stride * j + 1 + buf[stride * j] as int)
}

/// The elements of the first `buckets` buckets of a bucket buffer of stride
/// `stride`, joined in bucket order. A bucket whose elements run past the end
/// of the buffer is refused.
pub fn gather_buckets(buf: &Vec<u32>, stride: usize, buckets: usize) -> (v: Vec<u32>)
    requires
        forall|j: int| 0 <= j < buckets ==>
            stride * j + 1 + #[trigger] buf@[stride * j] as int <= buf@.len() && stride * j < buf@.len(),
    ensures
        v@ == gathered(buf@, stride as int, buckets as int),
{
    let mut v: Vec<u32> = Vec::new();
    let blen = buf.len();
    let mut j: usize = 0;
    while j < buckets
        invariant
            j <= buckets,
            blen == buf@.len(),
            forall|jj: int| 0 <= jj < buckets ==>
                stride * jj + 1 + #[trigger] buf@[stride * jj] as int <= buf@.len() && stride * jj < buf@.len(),
            v@ == gathered(buf@, stride as int, j as int),
        decreases buckets - j,
    {
        assert(stride * j + 1 + buf@[stride * j] as int <= buf@.len() && stride * j < buf@.len());
        let start = stride * j;
        let cnt = buf[start] as usize;
        let ghost before = v@;
        let mut i: usize = 0;
        while i < cnt
            invariant
                i <= cnt,
                blen == buf@.len(),
                start + 1 + cnt <= buf@.len(),
                v@ == before + buf@.subrange(start + 1, start + 1 + i),
            decreases cnt - i,
        {
            v.push(buf[start + 1 + i]);
            proof {
                assert(v@ =~= before + buf@.subrange(start + 1, start + 1 + i + 1));
            }
            i = i + 1;
        }
        proof {
            assert(gathered(buf@, stride as int, j + 1) == before + buf@.subrange(start + 1, start + 1 + cnt));
        }
        j = j + 1;
    }
    v
}


/// The buffer `buf` after the writes `w`, done in order.
pub open spec fn apply_writes(buf: Seq<u32>, w: Seq<(usize, u32)>) -> Seq<u32>
    decreases w.len(),
{
    if w.len() == 0 {
        buf
    } else {
        apply_writes(buf.update(w[0].0 as int, w[0].1), w.drop_first())
    }
}

/// The elements of buckets `j` to `m - 1`, in bucket order.
pub open spec fn gathered_range(buf: Seq<u32>, stride: int, j: int, m: int) -> Seq<u32>
    decreases m - j,
{
    if j >= m {
        Seq::empty()
    } else {
        bucket(buf, stride, j) + gathered_range(buf, stride, j + 1, m)
    }
}

proof fn lemma_apply_concat(buf: Seq<u32>, a: Seq<(usize, u32)>, b: Seq<(usize, u32)>)
    ensures
        apply_writes(buf, a + b) == apply_writes(apply_writes(buf, a), b),
    decreases a.len(),
{
    if a.len() > 0 {
        assert((a + b).drop_first() =~= a.drop_first() + b);
        assert((a + b)[0] == a[0]);
        lemma_apply_concat(buf.update(a[0].0 as int, a[0].1), a.drop_first(), b);
    } else {
        assert(a + b =~= b);
    }
}

proof fn lemma_apply_one(buf: Seq<u32>, x: (usize, u32))
    ensures
        apply_writes(buf, seq![x]) == buf.update(x.0 as int, x.1),
{
    let w = seq![x];
    assert(w.len() == 1 && w[0] == x);
    assert(w.drop_first() =~= Seq::<(usize, u32)>::empty());
    let b2 = buf.update(x.0 as int, x.1);
    assert(apply_writes(b2, w.drop_first()) == b2);
}

/// Writing the elements of one bucket: the `c` elements `data[b..b + c]` go
/// to the `c` places after index `base`; nothing else changes.
proof fn lemma_apply_elements(buf: Seq<u32>, data: Seq<u32>, base: int, b: int, c: int)
    requires
        0 <= base,
        0 <= c,
        base + 1 + c <= buf.len(),
        base + 1 + c <= usize::MAX,
        0 <= b,
        b + c <= data.len(),
    ensures
        ({
            let r = apply_writes(buf, Seq::new(c as nat, |k: int| ((base + 1 + k) as usize, data[b + k])));
            &&& r.len() == buf.len()
            &&& forall|i: int| 0 <= i < buf.len() ==> #[trigger] r[i] == if base + 1 <= i < base + 1 + c {
                data[b + i - base - 1]
            } else {
                buf[i]
            }
        }),
    decreases c,
{
    let ws = Seq::new(c as nat, |k: int| ((base + 1 + k) as usize, data[b + k]));
    if c > 0 {
        let prev = Seq::new((c - 1) as nat, |k: int| ((base + 1 + k) as usize, data[b + k]));
        lemma_apply_elements(buf, data, base, b, c - 1);
        let x = ((base + c) as usize, data[b + c - 1]);
        assert(ws =~= prev + seq![x]);
        lemma_apply_concat(buf, prev, seq![x]);
        lemma_apply_one(apply_writes(buf, prev), x);
    } else {
        assert(ws =~= Seq::<(usize, u32)>::empty());
    }
}

/// The bucket writes of bucket `j`: the elements `data[b..e]` and then the
/// length at `stride * j`.
proof fn lemma_apply_bucket(buf: Seq<u32>, data: Seq<u32>, stride: int, j: int, b: int, e: int)
    requires
        stride == data.len() + 1,
        data.len() + 1 <= u32::MAX,
        0 <= j,
        stride * j + stride <= buf.len(),
        buf.len() <= usize::MAX,
        0 <= b <= e <= data.len(),
    ensures
        ({
            let r = apply_writes(buf, bucket_writes(data, stride, j, b, e));
            &&& r.len() == buf.len()
            &&& forall|i: int| 0 <= i < buf.len() && !(stride * j <= i < stride * j + stride) ==> #[trigger] r[i] == buf[i]
            &&& bucket(r, stride, j) == data.subrange(b, e)
            &&& r[stride * j] as int == e - b
        }),
{
    let base = stride * j;
    let elems = Seq::new((e - b) as nat, |k: int| ((base + 1 + k) as usize, data[b + k]));
    lemma_apply_elements(buf, data, base, b, e - b);
    let r1 = apply_writes(buf, elems);
    let cnt = (base as usize, (e - b) as u32);
    assert(bucket_writes(data, stride, j, b, e) =~= elems + seq![cnt]);
    lemma_apply_concat(buf, elems, seq![cnt]);
    lemma_apply_one(r1, cnt);
    let r = r1.update(base, (e - b) as u32);
    assert(r[base] as int == e - b);
    assert(bucket(r, stride, j) =~= data.subrange(b, e));
}

proof fn lemma_gathered_split(buf: Seq<u32>, stride: int, j: int, m: int)
    requires
        0 <= j <= m,
    ensures
        gathered(buf, stride, m) == gathered(buf, stride, j) + gathered_range(buf, stride, j, m),
    decreases m - j,
{
    if j < m {
        lemma_gathered_split(buf, stride, j + 1, m);
        assert(gathered(buf, stride, j + 1) == gathered(buf, stride, j) + bucket(buf, stride, j));
        assert(gathered(buf, stride, m) =~= gathered(buf, stride, j) + gathered_range(buf, stride, j, m));
    } else {
        assert(gathered(buf, stride, m) =~= gathered(buf, stride, j) + gathered_range(buf, stride, j, m));
    }
}

proof fn lemma_empty_buckets(buf: Seq<u32>, stride: int, j: int, m: int)
    requires
        0 <= j,
        stride >= 1,
        stride * m <= buf.len(),
        forall|k: int| j <= k < m ==> #[trigger] buf[stride * k] == 0,
    ensures
        gathered_range(buf, stride, j, m) == Seq::<u32>::empty(),
    decreases m - j,
{
    if j < m {
        assert(stride * j < stride * m) by (nonlinear_arith) requires j < m, stride >= 1;
        assert(buf[stride * j] == 0);
        assert(bucket(buf, stride, j) =~= Seq::<u32>::empty());
        lemma_empty_buckets(buf, stride, j + 1, m);
    }
}

proof fn lemma_partition_gather_from(data: Seq<u32>, pivots: Seq<u32>, stride: int, j: int, b: int, buf: Seq<u32>)
    requires
        stride == data.len() + 1,
        data.len() + 1 <= u32::MAX,
        0 <= j <= pivots.len(),
        0 <= b <= data.len(),
        buf.len() == stride * (pivots.len() + 1),
        buf.len() <= usize::MAX,
        forall|i: int| stride * j <= i < buf.len() ==> #[trigger] buf[i] == 0,
    ensures
        ({
            let r = apply_writes(buf, partition_writes(data, pivots, stride, j, b));
            &&& r.len() == buf.len()
            &&& forall|i: int| 0 <= i < stride * j ==> #[trigger] r[i] == buf[i]
            &&& gathered_range(r, stride, j, pivots.len() + 1int) == data.subrange(b, data.len() as int)
        }),
    decreases pivots.len() - j,
{
    let n = data.len() as int;
    let np = pivots.len() as int;
    assert(stride * (j + 1) == stride * j + stride) by (nonlinear_arith);
    assert(stride * (j + 1) <= stride * (np + 1)) by (nonlinear_arith)
        requires j <= np, stride >= 1;
    assert(0 <= stride * j) by (nonlinear_arith) requires j >= 0, stride >= 1;
    let e = if j < np { first_not_below(data, pivots[j], b) } else { n };
    if j < np {
        lemma_first_not_below(data, pivots[j], b);
    }
    let stop = j >= np || e >= n;
    let e2 = if stop { n } else { e };
    lemma_apply_bucket(buf, data, stride, j, b, e2);
    let r1 = apply_writes(buf, bucket_writes(data, stride, j, b, e2));
    assert forall|i: int| stride * (j + 1) <= i < buf.len() implies #[trigger] r1[i] == 0 by {
        assert(!(stride * j <= i < stride * j + stride));
        assert(buf[i] == 0);
    }
    if stop {
        assert(partition_writes(data, pivots, stride, j, b) == bucket_writes(data, stride, j, b, n));
        assert forall|k: int| j + 1 <= k < np + 1 implies #[trigger] r1[stride * k] == 0 by {
            assert(stride * (j + 1) <= stride * k) by (nonlinear_arith) requires j + 1 <= k, stride >= 1;
            assert(stride * k < stride * (np + 1)) by (nonlinear_arith) requires k < np + 1, stride >= 1;
        }
        lemma_empty_buckets(r1, stride, j + 1, np + 1);
        assert(gathered_range(r1, stride, j, np + 1) =~= data.subrange(b, n));
    } else {
        let w2 = partition_writes(data, pivots, stride, j + 1, e);
        assert(partition_writes(data, pivots, stride, j, b) == bucket_writes(data, stride, j, b, e) + w2);
        lemma_apply_concat(buf, bucket_writes(data, stride, j, b, e), w2);
        lemma_partition_gather_from(data, pivots, stride, j + 1, e, r1);
        let r = apply_writes(r1, w2);
        assert(bucket(r, stride, j) =~= bucket(r1, stride, j)) by {
            assert(r[stride * j] == r1[stride * j]);
            assert(r1[stride * j] as int == e - b);
            assert forall|i: int| stride * j <= i < stride * j + stride implies r[i] == r1[i] by {
                assert(i < stride * (j + 1));
            }
        }
        assert(gathered_range(r, stride, j, np + 1) =~= data.subrange(b, n)) by {
            assert(data.subrange(b, e) + data.subrange(e, n) =~= data.subrange(b, n));
        }
        assert forall|i: int| 0 <= i < stride * j implies #[trigger] r[i] == buf[i] by {
            assert(i < stride * (j + 1));
            assert(r[i] == r1[i]);
            assert(!(stride * j <= i < stride * j + stride));
        }
    }
}

/// Partitioning and joining undo each other: the writes of
/// `partition_by_pivots`, done on a zeroed bucket buffer with a bucket per
/// PE, give a buffer whose buckets, joined by `gather_buckets`, are the data
/// again, in order. (A bucket that got no write keeps length 0.)
pub proof fn lemma_partition_then_gather(data: Seq<u32>, pivots: Seq<u32>)
    requires
        data.len() + 1 <= u32::MAX,
        (data.len() + 1) * (pivots.len() + 1) <= usize::MAX,
    ensures
        ({
            let stride = data.len() + 1;
            let zeros = Seq::new((stride * (pivots.len() + 1)) as nat, |i: int| 0u32);
            gathered(apply_writes(zeros, partition_writes(data, pivots, stride as int, 0, 0)), stride as int,
                pivots.len() + 1int) == data
        }),
{
    let stride = data.len() + 1;
    let zeros = Seq::new((stride * (pivots.len() + 1)) as nat, |i: int| 0u32);
    lemma_partition_gather_from(data, pivots, stride as int, 0, 0, zeros);
    let r = apply_writes(zeros, partition_writes(data, pivots, stride as int, 0, 0));
    lemma_gathered_split(r, stride as int, 0, pivots.len() + 1int);
    assert(gathered(r, stride as int, 0) =~= Seq::<u32>::empty());
    assert(data.subrange(0, data.len() as int) =~= data);
    assert(gathered(r, stride as int, pivots.len() + 1int) =~= data);
}


/// The sequence is in non-decreasing order.
pub open spec fn sorted_seq(s: Seq<u32>) -> bool {
    forall|i: int, j: int| 0 <= i <= j < s.len() ==> s[i] <= s[j]
}

/// `x` belongs to bucket `k` of `pivots`: it is not below pivot `k - 1`, if
/// there is one, and below pivot `k`, if there is one.
pub open spec fn in_bucket(pivots: Seq<u32>, k: int, x: u32) -> bool {
    &&& k > 0 ==> pivots[k - 1] <= x
    &&& k < pivots.len() ==> x < pivots[k]
}

proof fn lemma_buckets_in_range_from(data: Seq<u32>, pivots: Seq<u32>, stride: int, j: int, b: int, buf: Seq<u32>)
    requires
        stride == data.len() + 1,
        data.len() + 1 <= u32::MAX,
        0 <= j <= pivots.len(),
        0 <= b <= data.len(),
        buf.len() == stride * (pivots.len() + 1),
        buf.len() <= usize::MAX,
        forall|i: int| stride * j <= i < buf.len() ==> #[trigger] buf[i] == 0,
        sorted_seq(data),
        j > 0 && b < data.len() ==> pivots[j - 1] <= data[b],
    ensures
        ({
            let r = apply_writes(buf, partition_writes(data, pivots, stride, j, b));
            forall|k: int, t: int| j <= k <= pivots.len() && 0 <= t < bucket(r, stride, k).len() ==>
                in_bucket(pivots, k, #[trigger] bucket(r, stride, k)[t])
        }),
    decreases pivots.len() - j,
{
    let n = data.len() as int;
    let np = pivots.len() as int;
    lemma_partition_gather_from(data, pivots, stride, j, b, buf);
    assert(stride * (j + 1) == stride * j + stride) by (nonlinear_arith);
    assert(stride * (j + 1) <= stride * (np + 1)) by (nonlinear_arith)
        requires j <= np, stride >= 1;
    assert(0 <= stride * j) by (nonlinear_arith) requires j >= 0, stride >= 1;
    let e = if j < np { first_not_below(data, pivots[j], b) } else { n };
    if j < np {
        lemma_first_not_below(data, pivots[j], b);
    }
    let stop = j >= np || e >= n;
    let e2 = if stop { n } else { e };
    lemma_apply_bucket(buf, data, stride, j, b, e2);
    let r1 = apply_writes(buf, bucket_writes(data, stride, j, b, e2));
    let r = apply_writes(buf, partition_writes(data, pivots, stride, j, b));
    assert forall|i: int| stride * (j + 1) <= i < buf.len() implies #[trigger] r1[i] == 0 by {
        assert(!(stride * j <= i < stride * j + stride));
        assert(buf[i] == 0);
    }
    // the elements of bucket j are data[b..e2]
    assert forall|t: int| 0 <= t < bucket(r1, stride, j).len() implies
        in_bucket(pivots, j, #[trigger] bucket(r1, stride, j)[t]) by {
        assert(bucket(r1, stride, j)[t] == data[b + t]);
        if j > 0 {
            assert(data[b] <= data[b + t]);
        }
    }
    if stop {
        assert(partition_writes(data, pivots, stride, j, b) == bucket_writes(data, stride, j, b, n));
        assert forall|k: int, t: int| j <= k <= np && 0 <= t < bucket(r, stride, k).len() implies
            in_bucket(pivots, k, #[trigger] bucket(r, stride, k)[t]) by {
            if k > j {
                assert(stride * (j + 1) <= stride * k) by (nonlinear_arith) requires j + 1 <= k, stride >= 1;
                assert(stride * k < stride * (np + 1)) by (nonlinear_arith) requires k < np + 1, stride >= 1;
                assert(r1[stride * k] == 0);
                assert(bucket(r, stride, k).len() == 0);
            }
        }
    } else {
        let w2 = partition_writes(data, pivots, stride, j + 1, e);
        assert(partition_writes(data, pivots, stride, j, b) == bucket_writes(data, stride, j, b, e) + w2);
        lemma_apply_concat(buf, bucket_writes(data, stride, j, b, e), w2);
        lemma_partition_gather_from(data, pivots, stride, j + 1, e, r1);
        lemma_buckets_in_range_from(data, pivots, stride, j + 1, e, r1);
        assert(r == apply_writes(r1, w2));
        assert(bucket(r, stride, j) =~= bucket(r1, stride, j)) by {
            assert(r[stride * j] == r1[stride * j]);
            assert forall|i: int| stride * j <= i < stride * j + stride implies r[i] == r1[i] by {
                assert(i < stride * (j + 1));
            }
        }
        assert forall|k: int, t: int| j <= k <= np && 0 <= t < bucket(r, stride, k).len() implies
            in_bucket(pivots, k, #[trigger] bucket(r, stride, k)[t]) by {
            if k == j {
                assert(bucket(r, stride, j)[t] == bucket(r1, stride, j)[t]);
            }
        }
    }
}

/// Partitioning sorted data sends each element to its bucket: after the
/// writes of `partition_by_pivots` on a zeroed buffer, every element of
/// bucket `k` lies in `[pivots[k - 1], pivots[k])` (without the bound that
/// does not exist for the first and the last bucket). Together with
/// `lemma_partition_then_gather`, bucket `k` holds exactly the elements of the
/// data in that range.
pub proof fn lemma_partition_buckets(data: Seq<u32>, pivots: Seq<u32>)
    requires
        data.len() + 1 <= u32::MAX,
        (data.len() + 1) * (pivots.len() + 1) <= usize::MAX,
        sorted_seq(data),
    ensures
        ({
            let stride = data.len() + 1;
            let zeros = Seq::new((stride * (pivots.len() + 1)) as nat, |i: int| 0u32);
            let r = apply_writes(zeros, partition_writes(data, pivots, stride as int, 0, 0));
            forall|k: int, t: int| 0 <= k <= pivots.len() && 0 <= t < bucket(r, stride as int, k).len() ==>
                in_bucket(pivots, k, #[trigger] bucket(r, stride as int, k)[t])
        }),
{
    let stride = data.len() + 1;
    let zeros = Seq::new((stride * (pivots.len() + 1)) as nat, |i: int| 0u32);
    lemma_buckets_in_range_from(data, pivots, stride as int, 0, 0, zeros);
}

/// Blocks `0` to `m - 1`, one after the other.
pub open spec fn join_blocks(blocks: Seq<Seq<u32>>, m: int) -> Seq<u32>
    decreases m,
{
    if m <= 0 {
        Seq::empty()
    } else {
        join_blocks(blocks, m - 1) + blocks[m - 1]
    }
}

proof fn lemma_sorted_join_upto(blocks: Seq<Seq<u32>>, pivots: Seq<u32>, m: int)
    requires
        sorted_seq(pivots),
        blocks.len() == pivots.len() + 1,
        0 <= m <= blocks.len(),
        forall|k: int| 0 <= k < blocks.len() ==> sorted_seq(#[trigger] blocks[k]),
        forall|k: int, t: int| 0 <= k < blocks.len() && 0 <= t < blocks[k].len() ==>
            in_bucket(pivots, k, #[trigger] blocks[k][t]),
    ensures
        sorted_seq(join_blocks(blocks, m)),
        1 <= m <= pivots.len() ==> forall|t: int| 0 <= t < join_blocks(blocks, m).len() ==>
            #[trigger] join_blocks(blocks, m)[t] < pivots[m - 1],
    decreases m,
{
    if m > 0 {
        lemma_sorted_join_upto(blocks, pivots, m - 1);
        let a = join_blocks(blocks, m - 1);
        let bl = blocks[m - 1];
        let jn = join_blocks(blocks, m);
        assert(jn == a + bl);
        assert forall|t: int| 0 <= t < bl.len() implies in_bucket(pivots, m - 1, #[trigger] bl[t]) by {
            assert(in_bucket(pivots, m - 1, blocks[m - 1][t]));
        }
        assert forall|i: int, j: int| 0 <= i <= j < jn.len() implies jn[i] <= jn[j] by {
            if j < a.len() {
                assert(a[i] <= a[j]);
            } else if i >= a.len() {
                assert(bl[i - a.len()] <= bl[j - a.len()]);
            } else {
                assert(m >= 2);
                assert(a[i] < pivots[m - 2]);
                assert(in_bucket(pivots, m - 1, bl[j - a.len()]));
            }
        }
        if m <= pivots.len() {
            assert forall|t: int| 0 <= t < jn.len() implies #[trigger] jn[t] < pivots[m - 1] by {
                if t < a.len() {
                    assert(a[t] < pivots[m - 2]);
                    assert(pivots[m - 2] <= pivots[m - 1]);
                } else {
                    assert(in_bucket(pivots, m - 1, bl[t - a.len()]));
                }
            }
        }
    }
}

/// The sample sort's output is sorted: when every element that PE `k`
/// receives lies in bucket `k` of sorted pivots, and each PE sorts what it
/// received, the PEs' blocks joined in PE order are sorted.
pub proof fn lemma_sorted_join(blocks: Seq<Seq<u32>>, pivots: Seq<u32>)
    requires
        sorted_seq(pivots),
        blocks.len() == pivots.len() + 1,
        forall|k: int| 0 <= k < blocks.len() ==> sorted_seq(#[trigger] blocks[k]),
        forall|k: int, t: int| 0 <= k < blocks.len() && 0 <= t < blocks[k].len() ==>
            in_bucket(pivots, k, #[trigger] blocks[k][t]),
    ensures
        sorted_seq(join_blocks(blocks, blocks.len() as int)),
{
    lemma_sorted_join_upto(blocks, pivots, blocks.len() as int);
}

} // verus!
