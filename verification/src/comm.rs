//! Locks in the symmetric heap and the protocol that takes them.
//!
//! A lock is one `LockT` word in some PE's segment, `UNLOCKED` or `LOCKED`.
//! Taking it is a remote fetch of the word followed, when it reads unlocked,
//! by a remote compare-and-swap from `UNLOCKED` to `LOCKED`; `test_lock` decides
//! each step from what those remote operations returned. Spinning on it until
//! it reports `Acquired` is the blocking `set_lock`.
use vstd::prelude::*;

verus! {

pub type LockT = i64;

/// Bytes that a lock word occupies in front of the value it guards.
pub const LOCK_SIZE: usize = 8;
pub const UNLOCKED: LockT = 0;
pub const LOCKED: LockT = 1;

/// What to do next while taking a lock.
#[derive(PartialEq, Eq, Structural, Clone, Copy)]
pub enum LockStep {
    /// The word read unlocked: compare-and-swap it from `UNLOCKED` to `LOCKED`.
    Swap,
    /// The swap took the lock.
    Acquired,
    /// Someone else holds the lock.
    Busy,
}

/// The word holds a lock value; anything else is not a lock.
pub open spec fn is_lock_value(w: LockT) -> bool {
    w == LOCKED || w == UNLOCKED
}

/// The step `test_lock` takes after fetching `current` and, when a swap was
/// made, seeing it return `status`.
pub open spec fn test_lock_spec(current: LockT, status: Option<LockT>) -> LockStep {
    if current == UNLOCKED {
        match status {
            None => LockStep::Swap,
            Some(s) => if s == UNLOCKED { LockStep::Acquired } else { LockStep::Busy },
        }
    } else {
        LockStep::Busy
    }
}

/// One attempt at a lock: `current` is the value the remote fetch of the lock
/// word returned, `status` what the compare-and-swap returned once it was made.
/// A word that is neither `LOCKED` nor `UNLOCKED` is not a lock and is refused.
pub fn test_lock(current: LockT, status: Option<LockT>) -> (r: LockStep)
    requires
        is_lock_value(current),
    ensures
        r == test_lock_spec(current, status),
{
    if current == UNLOCKED {
        match status {
            None => LockStep::Swap,
            Some(s) => if s == UNLOCKED { LockStep::Acquired } else { LockStep::Busy },
        }
    } else {
        LockStep::Busy
    }
}

/// A compare-and-swap on word `w`: it returns the old value and stores `value`
/// when the old value is `cond`.
pub open spec fn cas(w: LockT, cond: LockT, value: LockT) -> (LockT, LockT) {
    if w == cond { (w, value) } else { (w, w) }
}

/// A whole `test_lock` attempt on a lock word that nobody else touches
/// meanwhile: the step it ends in and the word afterwards.
pub open spec fn test_lock_run(w: LockT) -> (LockStep, LockT) {
    match test_lock_spec(w, None) {
        LockStep::Swap => {
            let (old, new) = cas(w, UNLOCKED, LOCKED);
            (test_lock_spec(w, Some(old)), new)
        },
        step => (step, w),
    }
}

/// A free lock is taken by one attempt, which leaves it locked; a held lock
/// refuses an attempt and stays held.
pub proof fn lemma_test_lock_run(w: LockT)
    requires
        is_lock_value(w),
    ensures
        w == UNLOCKED ==> test_lock_run(w) == (LockStep::Acquired, LOCKED),
        w == LOCKED ==> test_lock_run(w) == (LockStep::Busy, LOCKED),
{
}

/// Mutual exclusion: of two attempts on the same lock with no release between
/// them, at most one takes it; after a release (the word set back to
/// `UNLOCKED`) the next attempt takes it.
pub proof fn lemma_lock_exclusive(w: LockT)
    requires
        is_lock_value(w),
    ensures
        !(test_lock_run(w).0 == LockStep::Acquired && test_lock_run(test_lock_run(w).1).0 == LockStep::Acquired),
        test_lock_run(UNLOCKED).0 == LockStep::Acquired,
{
}


/// A PE of a run of locked increments: its stage, the increments it has left
/// to do, and the value it read. Stages: 0 fetch the lock word, 1 swap it,
/// 2 read the value, 3 write the value read plus one, 4 release the lock,
/// 5 finished.
pub type IncPe = (int, int, int);

/// A run of locked increments on one guarded counter: the lock word, the
/// counter, the increments released so far, and the PEs.
pub type IncSys = (LockT, int, int, Seq<IncPe>);

/// The PE holds the lock: it is reading, writing or releasing.
pub open spec fn critical(pe: IncPe) -> bool {
    2 <= pe.0 <= 4
}

/// Every one of `n` PEs about to do `steps` increments, the lock free and
/// the counter 0.
pub open spec fn inc_init(n: nat, steps: nat) -> IncSys {
    (UNLOCKED, 0, 0, Seq::new(n, |i: int| (0int, steps as int, 0int)))
}

/// PE `p` takes its next step. Taking the lock goes by `test_lock_spec`: a
/// fetch of the word, and, when it reads unlocked, a compare-and-swap.
pub open spec fn inc_step(sys: IncSys, p: int) -> IncSys {
    let (w, v, d, pes) = sys;
    let (st, rem, reg) = pes[p];
    if st == 0 {
        if rem <= 0 {
            (w, v, d, pes.update(p, (5int, rem, reg)))
        } else {
            match test_lock_spec(w, None) {
                LockStep::Swap => (w, v, d, pes.update(p, (1int, rem, reg))),
                _ => sys,
            }
        }
    } else if st == 1 {
        let (old, new) = cas(w, UNLOCKED, LOCKED);
        match test_lock_spec(UNLOCKED, Some(old)) {
            LockStep::Acquired => (new, v, d, pes.update(p, (2int, rem, reg))),
            _ => (new, v, d, pes.update(p, (0int, rem, reg))),
        }
    } else if st == 2 {
        (w, v, d, pes.update(p, (3int, rem, v)))
    } else if st == 3 {
        (w, reg + 1, d, pes.update(p, (4int, rem, reg)))
    } else if st == 4 {
        (UNLOCKED, v, d + 1, pes.update(p, (0int, rem - 1, reg)))
    } else {
        sys
    }
}

/// The PEs take steps in the order `sched` names them.
pub open spec fn inc_run(sys: IncSys, sched: Seq<int>) -> IncSys
    decreases sched.len(),
{
    if sched.len() == 0 {
        sys
    } else {
        inc_run(inc_step(sys, sched[0]), sched.drop_first())
    }
}

/// The increments the PEs have left.
pub open spec fn rem_sum(pes: Seq<IncPe>) -> int
    decreases pes.len(),
{
    if pes.len() == 0 {
        0
    } else {
        rem_sum(pes.drop_last()) + pes.last().1
    }
}

/// What holds of every state of a run of `n` PEs doing `steps` increments
/// each: the lock word is locked exactly when some PE holds it, at most one
/// PE holds it, and the counter counts the released increments, plus one
/// while the holder's write is done but not released.
pub open spec fn inc_inv(sys: IncSys, n: nat, steps: nat) -> bool {
    let w = sys.0;
    let v = sys.1;
    let d = sys.2;
    let pes = sys.3;
    &&& pes.len() == n
    &&& is_lock_value(w)
    &&& forall|p: int| 0 <= p < n ==> 0 <= (#[trigger] pes[p]).0 <= 5 && 0 <= pes[p].1 <= steps
    &&& forall|p: int| 0 <= p < n && 1 <= (#[trigger] pes[p]).0 <= 4 ==> pes[p].1 >= 1
    &&& forall|p: int| 0 <= p < n && (#[trigger] pes[p]).0 == 5 ==> pes[p].1 == 0
    &&& forall|p: int| 0 <= p < n && critical(#[trigger] pes[p]) ==> w == LOCKED
    &&& w == LOCKED ==> exists|p: int| 0 <= p < n && critical(#[trigger] pes[p])
    &&& forall|p: int, q: int| 0 <= p < n && 0 <= q < n && critical(#[trigger] pes[p]) && critical(#[trigger] pes[q]) ==> p == q
    &&& w == UNLOCKED ==> v == d
    &&& forall|p: int| 0 <= p < n && 2 <= (#[trigger] pes[p]).0 <= 3 ==> v == d
    &&& forall|p: int| 0 <= p < n && (#[trigger] pes[p]).0 == 3 ==> pes[p].2 == v
    &&& forall|p: int| 0 <= p < n && (#[trigger] pes[p]).0 == 4 ==> v == d + 1
    &&& d + rem_sum(pes) == (n * steps) as int
}

proof fn lemma_rem_sum_update(pes: Seq<IncPe>, i: int, x: IncPe)
    requires
        0 <= i < pes.len(),
    ensures
        rem_sum(pes.update(i, x)) == rem_sum(pes) - pes[i].1 + x.1,
    decreases pes.len(),
{
    let u = pes.update(i, x);
    if i < pes.len() - 1 {
        lemma_rem_sum_update(pes.drop_last(), i, x);
        assert(u.drop_last() =~= pes.drop_last().update(i, x));
    } else {
        assert(u.drop_last() =~= pes.drop_last());
    }
}

proof fn lemma_rem_sum_const(n: nat, steps: nat)
    ensures
        rem_sum(Seq::new(n, |i: int| (0int, steps as int, 0int))) == n * steps,
    decreases n,
{
    let s = Seq::new(n, |i: int| (0int, steps as int, 0int));
    if n > 0 {
        lemma_rem_sum_const((n - 1) as nat, steps);
        assert(s.drop_last() =~= Seq::new((n - 1) as nat, |i: int| (0int, steps as int, 0int)));
        assert(s.last().1 == steps);
        assert((n - 1) * steps + steps == n * steps) by (nonlinear_arith);
    } else {
        assert(n * steps == 0) by (nonlinear_arith) requires n == 0;
    }
}

proof fn lemma_rem_sum_zero(pes: Seq<IncPe>)
    requires
        forall|p: int| 0 <= p < pes.len() ==> (#[trigger] pes[p]).1 == 0,
    ensures
        rem_sum(pes) == 0,
    decreases pes.len(),
{
    if pes.len() > 0 {
        assert(pes.last() == pes[pes.len() - 1]);
        lemma_rem_sum_zero(pes.drop_last());
    }
}

/// A step that changes only PE `p`'s entry, to `x`, keeps the invariant when
/// the new state meets it at `p` and nothing else changed of what the
/// invariant reads of the other PEs.
#[verifier::spinoff_prover]
#[verifier::rlimit(40)]
proof fn lemma_inc_update(sys: IncSys, n: nat, steps: nat, p: int, w2: LockT, v2: int, d2: int, x: IncPe)
    requires
        inc_inv(sys, n, steps),
        0 <= p < n,
        is_lock_value(w2),
        0 <= x.0 <= 5,
        0 <= x.1 <= steps,
        1 <= x.0 <= 4 ==> x.1 >= 1,
        x.0 == 5 ==> x.1 == 0,
        critical(x) ==> w2 == LOCKED,
        w2 == LOCKED ==> critical(x) || (exists|q: int| 0 <= q < n && q != p && critical(#[trigger] sys.3[q])),
        critical(x) ==> forall|q: int| 0 <= q < n && q != p ==> !critical(#[trigger] sys.3[q]),
        w2 == LOCKED && !critical(x) ==> w2 == sys.0,
        w2 == UNLOCKED ==> v2 == d2 && forall|q: int| 0 <= q < n && q != p ==> !critical(#[trigger] sys.3[q]),
        2 <= x.0 <= 3 ==> v2 == d2,
        x.0 == 3 ==> x.2 == v2,
        x.0 == 4 ==> v2 == d2 + 1,
        forall|q: int| 0 <= q < n && q != p && critical(#[trigger] sys.3[q]) ==> v2 == sys.1 && d2 == sys.2,
        d2 + rem_sum(sys.3) - sys.3[p].1 + x.1 == n * steps,
    ensures
        inc_inv((w2, v2, d2, sys.3.update(p, x)), n, steps),
{
    let (w, v, d, pes) = sys;
    let pes2 = pes.update(p, x);
    lemma_rem_sum_update(pes, p, x);
    assert forall|q: int| 0 <= q < n && critical(#[trigger] pes2[q]) implies w2 == LOCKED by {
        if q != p {
            assert(critical(pes[q]));
            assert(w == LOCKED);
            if critical(x) {
            } else if w2 == UNLOCKED {
                assert(false);
            }
        }
    }
    if w2 == LOCKED {
        if critical(x) {
            assert(critical(pes2[p]));
        } else {
            let q = choose|q: int| 0 <= q < n && q != p && critical(#[trigger] pes[q]);
            assert(critical(pes2[q]));
        }
    }
    assert forall|a: int, b: int| 0 <= a < n && 0 <= b < n && critical(#[trigger] pes2[a]) && critical(#[trigger] pes2[b])
        implies a == b by {
        if a != p && b != p {
            assert(critical(pes[a]) && critical(pes[b]));
        } else if a == p && b != p {
            assert(critical(pes[b]));
        } else if a != p && b == p {
            assert(critical(pes[a]));
        }
    }
    assert forall|q: int| 0 <= q < n && 2 <= (#[trigger] pes2[q]).0 <= 3 implies v2 == d2 by {
        if q != p {
            assert(critical(pes[q]));
            assert(v == d);
        }
    }
    assert forall|q: int| 0 <= q < n && (#[trigger] pes2[q]).0 == 3 implies pes2[q].2 == v2 by {
        if q != p {
            assert(critical(pes[q]));
        }
    }
    assert forall|q: int| 0 <= q < n && (#[trigger] pes2[q]).0 == 4 implies v2 == d2 + 1 by {
        if q != p {
            assert(critical(pes[q]));
        }
    }
    assert forall|q: int| 0 <= q < n implies 0 <= (#[trigger] pes2[q]).0 <= 5 && 0 <= pes2[q].1 <= steps by {
        if q != p {
            assert(pes2[q] == pes[q]);
        }
    }
    assert forall|q: int| 0 <= q < n && 1 <= (#[trigger] pes2[q]).0 <= 4 implies pes2[q].1 >= 1 by {
        if q != p {
            assert(pes2[q] == pes[q]);
        }
    }
    assert forall|q: int| 0 <= q < n && (#[trigger] pes2[q]).0 == 5 implies pes2[q].1 == 0 by {
        if q != p {
            assert(pes2[q] == pes[q]);
        }
    }
    assert(pes2.len() == n);
    assert(d2 + rem_sum(pes2) == n * steps);
    assert(w2 == LOCKED ==> exists|q: int| 0 <= q < n && critical(#[trigger] pes2[q]));
    assert(w2 == UNLOCKED ==> v2 == d2);
    assert(is_lock_value(w2));
    assert(inc_inv((w2, v2, d2, pes2), n, steps));
}

#[verifier::spinoff_prover]
proof fn lemma_inc_step(sys: IncSys, n: nat, steps: nat, p: int)
    requires
        inc_inv(sys, n, steps),
        0 <= p < n,
    ensures
        inc_inv(inc_step(sys, p), n, steps),
{
    let (w, v, d, pes) = sys;
    let (st, rem, reg) = pes[p];
    assert(!critical(pes[p]) ==> forall|q: int| 0 <= q < n && critical(#[trigger] pes[q]) ==> q != p);
    if critical(pes[p]) {
        assert(w == LOCKED);
        assert forall|q: int| 0 <= q < n && q != p implies !critical(#[trigger] pes[q]) by {
            if critical(pes[q]) {
                assert(q == p);
            }
        }
    }
    if w == LOCKED && !critical(pes[p]) {
        let h = choose|q: int| 0 <= q < n && critical(#[trigger] pes[q]);
        assert(h != p);
    }
    if w == UNLOCKED {
        assert forall|q: int| 0 <= q < n && q != p implies !critical(#[trigger] pes[q]) by {
            if critical(pes[q]) {
                assert(w == LOCKED);
            }
        }
    }
    if st == 0 {
        if rem <= 0 {
            lemma_inc_update(sys, n, steps, p, w, v, d, (5int, rem, reg));
        } else if w == UNLOCKED {
            lemma_inc_update(sys, n, steps, p, w, v, d, (1int, rem, reg));
        }
    } else if st == 1 {
        if w == UNLOCKED {
            lemma_inc_update(sys, n, steps, p, LOCKED, v, d, (2int, rem, reg));
        } else {
            lemma_inc_update(sys, n, steps, p, w, v, d, (0int, rem, reg));
        }
    } else if st == 2 {
        lemma_inc_update(sys, n, steps, p, w, v, d, (3int, rem, v));
    } else if st == 3 {
        lemma_inc_update(sys, n, steps, p, w, reg + 1, d, (4int, rem, reg));
    } else if st == 4 {
        lemma_inc_update(sys, n, steps, p, UNLOCKED, v, d + 1, (0int, rem - 1, reg));
    }
}

proof fn lemma_inc_run(sys: IncSys, n: nat, steps: nat, sched: Seq<int>)
    requires
        inc_inv(sys, n, steps),
        forall|i: int| 0 <= i < sched.len() ==> 0 <= #[trigger] sched[i] < n,
    ensures
        inc_inv(inc_run(sys, sched), n, steps),
    decreases sched.len(),
{
    if sched.len() > 0 {
        lemma_inc_step(sys, n, steps, sched[0]);
        assert forall|i: int| 0 <= i < sched.drop_first().len() implies 0 <= #[trigger] sched.drop_first()[i] < n by {
            assert(sched.drop_first()[i] == sched[i + 1]);
        }
        lemma_inc_run(inc_step(sys, sched[0]), n, steps, sched.drop_first());
    }
}

/// No increment is lost. `n` PEs each add one to a guarded counter `steps`
/// times, each increment taking the lock by `test_lock`, reading the
/// counter, writing it plus one and releasing the lock. In every state of
/// every interleaving of their steps at most one PE holds the lock, the word
/// is locked exactly while one does, and the counter is the number of
/// released increments (plus one while a written increment awaits its
/// release); once every PE has finished, the counter is `n * steps`.
pub proof fn lemma_no_lost_update(n: nat, steps: nat, sched: Seq<int>)
    requires
        forall|i: int| 0 <= i < sched.len() ==> 0 <= #[trigger] sched[i] < n,
    ensures
        inc_inv(inc_run(inc_init(n, steps), sched), n, steps),
        ({
            let (w, v, d, pes) = inc_run(inc_init(n, steps), sched);
            (forall|p: int| 0 <= p < n ==> (#[trigger] pes[p]).0 == 5) ==> v == n * steps && w == UNLOCKED
        }),
{
    lemma_rem_sum_const(n, steps);
    let init = inc_init(n, steps);
    assert(inc_inv(init, n, steps));
    lemma_inc_run(init, n, steps, sched);
    let (w, v, d, pes) = inc_run(init, sched);
    if forall|p: int| 0 <= p < n ==> (#[trigger] pes[p]).0 == 5 {
        lemma_rem_sum_zero(pes);
        if w == LOCKED {
            let h = choose|q: int| 0 <= q < n && critical(#[trigger] pes[q]);
            assert(pes[h].0 == 5);
        }
    }
}

} // verus!
