//! The bit reversal that orders the data of the parallel FFT.
use vstd::prelude::*;

verus! {

/// Bit `k` of `x`.
pub open spec fn bit_of(x: usize, k: usize) -> bool {
    (x >> k) & 1usize == 1usize
}

/// `r` is the reversal of the low `n` bits of `x`.
pub open spec fn is_rev(r: usize, x: usize, n: usize) -> bool {
    &&& forall|k: usize| k < n ==> bit_of(r, k) == bit_of(x, (n - 1 - k) as usize)
    &&& forall|k: usize| n <= k < usize::BITS ==> !bit_of(r, k)
}

/// `x` has no bit set from bit `n` up: it is below `2^n`.
pub open spec fn fits_bits(x: usize, n: usize) -> bool {
    forall|k: usize| n <= k < usize::BITS ==> !bit_of(x, k)
}

proof fn lemma_set_bit(r: usize, j: usize, k: usize)
    by (bit_vector)
    requires
        j < usize::BITS,
        k < usize::BITS,
    ensures
        bit_of(r | (1usize << j), k) == (k == j || bit_of(r, k)),
{
}

proof fn lemma_test_bit(x: usize, s: usize)
    by (bit_vector)
    requires
        s < usize::BITS,
    ensures
        ((x & (1usize << s)) != 0usize) == bit_of(x, s),
{
}

proof fn lemma_zero_bits(k: usize)
    by (bit_vector)
    ensures
        !bit_of(0usize, k),
{
}

/// The low `log_n` bits of `idx` in reverse order: bit `j` of the result is
/// bit `log_n - 1 - j` of `idx`, and the bits from `log_n` up are 0. A width
/// past the bits of a `usize` is refused.
pub fn rev(idx: usize, log_n: usize) -> (r: usize)
    requires
        log_n <= usize::BITS,
    ensures
        is_rev(r, idx, log_n),
        log_n < usize::BITS ==> r < (1usize << log_n),
{
    let mut idx_rev: usize = 0;
    let mut j: usize = 0;
    proof {
        assert forall|k: usize| j <= k < usize::BITS implies !bit_of(idx_rev, k) by {
            lemma_zero_bits(k);
        }
    }
    while j < log_n
        invariant
            j <= log_n <= usize::BITS,
            forall|k: usize| k < j ==> bit_of(idx_rev, k) == bit_of(idx, (log_n - 1 - k) as usize),
            forall|k: usize| j <= k < usize::BITS ==> !bit_of(idx_rev, k),
        decreases log_n - j,
    {
        let s = log_n - j - 1;
        let old_rev = idx_rev;
        proof { lemma_test_bit(idx, s); }
        if (idx & (1usize << s)) != 0 {
            idx_rev = idx_rev | (1usize << j);
            proof {
                assert forall|k: usize| k < usize::BITS implies bit_of(idx_rev, k) == (k == j || bit_of(old_rev, k)) by {
                    lemma_set_bit(old_rev, j, k);
                }
            }
        }
        j = j + 1;
    }
    proof {
        if log_n < usize::BITS {
            lemma_fits_bits(idx_rev, log_n);
        }
    }
    idx_rev
}

proof fn lemma_bits_equal(a: usize, b: usize)
    by (bit_vector)
    requires
        ((a >> 0usize) & 1usize) == ((b >> 0usize) & 1usize),
        ((a >> 1usize) & 1usize) == ((b >> 1usize) & 1usize),
        ((a >> 2usize) & 1usize) == ((b >> 2usize) & 1usize),
        ((a >> 3usize) & 1usize) == ((b >> 3usize) & 1usize),
        ((a >> 4usize) & 1usize) == ((b >> 4usize) & 1usize),
        ((a >> 5usize) & 1usize) == ((b >> 5usize) & 1usize),
        ((a >> 6usize) & 1usize) == ((b >> 6usize) & 1usize),
        ((a >> 7usize) & 1usize) == ((b >> 7usize) & 1usize),
        ((a >> 8usize) & 1usize) == ((b >> 8usize) & 1usize),
        ((a >> 9usize) & 1usize) == ((b >> 9usize) & 1usize),
        ((a >> 10usize) & 1usize) == ((b >> 10usize) & 1usize),
        ((a >> 11usize) & 1usize) == ((b >> 11usize) & 1usize),
        ((a >> 12usize) & 1usize) == ((b >> 12usize) & 1usize),
        ((a >> 13usize) & 1usize) == ((b >> 13usize) & 1usize),
        ((a >> 14usize) & 1usize) == ((b >> 14usize) & 1usize),
        ((a >> 15usize) & 1usize) == ((b >> 15usize) & 1usize),
        ((a >> 16usize) & 1usize) == ((b >> 16usize) & 1usize),
        ((a >> 17usize) & 1usize) == ((b >> 17usize) & 1usize),
        ((a >> 18usize) & 1usize) == ((b >> 18usize) & 1usize),
        ((a >> 19usize) & 1usize) == ((b >> 19usize) & 1usize),
        ((a >> 20usize) & 1usize) == ((b >> 20usize) & 1usize),
        ((a >> 21usize) & 1usize) == ((b >> 21usize) & 1usize),
        ((a >> 22usize) & 1usize) == ((b >> 22usize) & 1usize),
        ((a >> 23usize) & 1usize) == ((b >> 23usize) & 1usize),
        ((a >> 24usize) & 1usize) == ((b >> 24usize) & 1usize),
        ((a >> 25usize) & 1usize) == ((b >> 25usize) & 1usize),
        ((a >> 26usize) & 1usize) == ((b >> 26usize) & 1usize),
        ((a >> 27usize) & 1usize) == ((b >> 27usize) & 1usize),
        ((a >> 28usize) & 1usize) == ((b >> 28usize) & 1usize),
        ((a >> 29usize) & 1usize) == ((b >> 29usize) & 1usize),
        ((a >> 30usize) & 1usize) == ((b >> 30usize) & 1usize),
        ((a >> 31usize) & 1usize) == ((b >> 31usize) & 1usize),
        ((a >> 32usize) & 1usize) == ((b >> 32usize) & 1usize),
        ((a >> 33usize) & 1usize) == ((b >> 33usize) & 1usize),
        ((a >> 34usize) & 1usize) == ((b >> 34usize) & 1usize),
        ((a >> 35usize) & 1usize) == ((b >> 35usize) & 1usize),
        ((a >> 36usize) & 1usize) == ((b >> 36usize) & 1usize),
        ((a >> 37usize) & 1usize) == ((b >> 37usize) & 1usize),
        ((a >> 38usize) & 1usize) == ((b >> 38usize) & 1usize),
        ((a >> 39usize) & 1usize) == ((b >> 39usize) & 1usize),
        ((a >> 40usize) & 1usize) == ((b >> 40usize) & 1usize),
        ((a >> 41usize) & 1usize) == ((b >> 41usize) & 1usize),
        ((a >> 42usize) & 1usize) == ((b >> 42usize) & 1usize),
        ((a >> 43usize) & 1usize) == ((b >> 43usize) & 1usize),
        ((a >> 44usize) & 1usize) == ((b >> 44usize) & 1usize),
        ((a >> 45usize) & 1usize) == ((b >> 45usize) & 1usize),
        ((a >> 46usize) & 1usize) == ((b >> 46usize) & 1usize),
        ((a >> 47usize) & 1usize) == ((b >> 47usize) & 1usize),
        ((a >> 48usize) & 1usize) == ((b >> 48usize) & 1usize),
        ((a >> 49usize) & 1usize) == ((b >> 49usize) & 1usize),
        ((a >> 50usize) & 1usize) == ((b >> 50usize) & 1usize),
        ((a >> 51usize) & 1usize) == ((b >> 51usize) & 1usize),
        ((a >> 52usize) & 1usize) == ((b >> 52usize) & 1usize),
        ((a >> 53usize) & 1usize) == ((b >> 53usize) & 1usize),
        ((a >> 54usize) & 1usize) == ((b >> 54usize) & 1usize),
        ((a >> 55usize) & 1usize) == ((b >> 55usize) & 1usize),
        ((a >> 56usize) & 1usize) == ((b >> 56usize) & 1usize),
        ((a >> 57usize) & 1usize) == ((b >> 57usize) & 1usize),
        ((a >> 58usize) & 1usize) == ((b >> 58usize) & 1usize),
        ((a >> 59usize) & 1usize) == ((b >> 59usize) & 1usize),
        ((a >> 60usize) & 1usize) == ((b >> 60usize) & 1usize),
        ((a >> 61usize) & 1usize) == ((b >> 61usize) & 1usize),
        ((a >> 62usize) & 1usize) == ((b >> 62usize) & 1usize),
        ((a >> 63usize) & 1usize) == ((b >> 63usize) & 1usize),
    ensures
        a == b,
{
}

/// Two words whose bits all agree are equal.
proof fn lemma_bits_eq(a: usize, b: usize)
    requires
        forall|k: usize| k < 64 ==> #[trigger] ((a >> k) & 1usize) == ((b >> k) & 1usize),
    ensures
        a == b,
{
    assert(((a >> 0usize) & 1usize) == ((b >> 0usize) & 1usize));
    assert(((a >> 1usize) & 1usize) == ((b >> 1usize) & 1usize));
    assert(((a >> 2usize) & 1usize) == ((b >> 2usize) & 1usize));
    assert(((a >> 3usize) & 1usize) == ((b >> 3usize) & 1usize));
    assert(((a >> 4usize) & 1usize) == ((b >> 4usize) & 1usize));
    assert(((a >> 5usize) & 1usize) == ((b >> 5usize) & 1usize));
    assert(((a >> 6usize) & 1usize) == ((b >> 6usize) & 1usize));
    assert(((a >> 7usize) & 1usize) == ((b >> 7usize) & 1usize));
    assert(((a >> 8usize) & 1usize) == ((b >> 8usize) & 1usize));
    assert(((a >> 9usize) & 1usize) == ((b >> 9usize) & 1usize));
    assert(((a >> 10usize) & 1usize) == ((b >> 10usize) & 1usize));
    assert(((a >> 11usize) & 1usize) == ((b >> 11usize) & 1usize));
    assert(((a >> 12usize) & 1usize) == ((b >> 12usize) & 1usize));
    assert(((a >> 13usize) & 1usize) == ((b >> 13usize) & 1usize));
    assert(((a >> 14usize) & 1usize) == ((b >> 14usize) & 1usize));
    assert(((a >> 15usize) & 1usize) == ((b >> 15usize) & 1usize));
    assert(((a >> 16usize) & 1usize) == ((b >> 16usize) & 1usize));
    assert(((a >> 17usize) & 1usize) == ((b >> 17usize) & 1usize));
    assert(((a >> 18usize) & 1usize) == ((b >> 18usize) & 1usize));
    assert(((a >> 19usize) & 1usize) == ((b >> 19usize) & 1usize));
    assert(((a >> 20usize) & 1usize) == ((b >> 20usize) & 1usize));
    assert(((a >> 21usize) & 1usize) == ((b >> 21usize) & 1usize));
    assert(((a >> 22usize) & 1usize) == ((b >> 22usize) & 1usize));
    assert(((a >> 23usize) & 1usize) == ((b >> 23usize) & 1usize));
    assert(((a >> 24usize) & 1usize) == ((b >> 24usize) & 1usize));
    assert(((a >> 25usize) & 1usize) == ((b >> 25usize) & 1usize));
    assert(((a >> 26usize) & 1usize) == ((b >> 26usize) & 1usize));
    assert(((a >> 27usize) & 1usize) == ((b >> 27usize) & 1usize));
    assert(((a >> 28usize) & 1usize) == ((b >> 28usize) & 1usize));
    assert(((a >> 29usize) & 1usize) == ((b >> 29usize) & 1usize));
    assert(((a >> 30usize) & 1usize) == ((b >> 30usize) & 1usize));
    assert(((a >> 31usize) & 1usize) == ((b >> 31usize) & 1usize));
    assert(((a >> 32usize) & 1usize) == ((b >> 32usize) & 1usize));
    assert(((a >> 33usize) & 1usize) == ((b >> 33usize) & 1usize));
    assert(((a >> 34usize) & 1usize) == ((b >> 34usize) & 1usize));
    assert(((a >> 35usize) & 1usize) == ((b >> 35usize) & 1usize));
    assert(((a >> 36usize) & 1usize) == ((b >> 36usize) & 1usize));
    assert(((a >> 37usize) & 1usize) == ((b >> 37usize) & 1usize));
    assert(((a >> 38usize) & 1usize) == ((b >> 38usize) & 1usize));
    assert(((a >> 39usize) & 1usize) == ((b >> 39usize) & 1usize));
    assert(((a >> 40usize) & 1usize) == ((b >> 40usize) & 1usize));
    assert(((a >> 41usize) & 1usize) == ((b >> 41usize) & 1usize));
    assert(((a >> 42usize) & 1usize) == ((b >> 42usize) & 1usize));
    assert(((a >> 43usize) & 1usize) == ((b >> 43usize) & 1usize));
    assert(((a >> 44usize) & 1usize) == ((b >> 44usize) & 1usize));
    assert(((a >> 45usize) & 1usize) == ((b >> 45usize) & 1usize));
    assert(((a >> 46usize) & 1usize) == ((b >> 46usize) & 1usize));
    assert(((a >> 47usize) & 1usize) == ((b >> 47usize) & 1usize));
    assert(((a >> 48usize) & 1usize) == ((b >> 48usize) & 1usize));
    assert(((a >> 49usize) & 1usize) == ((b >> 49usize) & 1usize));
    assert(((a >> 50usize) & 1usize) == ((b >> 50usize) & 1usize));
    assert(((a >> 51usize) & 1usize) == ((b >> 51usize) & 1usize));
    assert(((a >> 52usize) & 1usize) == ((b >> 52usize) & 1usize));
    assert(((a >> 53usize) & 1usize) == ((b >> 53usize) & 1usize));
    assert(((a >> 54usize) & 1usize) == ((b >> 54usize) & 1usize));
    assert(((a >> 55usize) & 1usize) == ((b >> 55usize) & 1usize));
    assert(((a >> 56usize) & 1usize) == ((b >> 56usize) & 1usize));
    assert(((a >> 57usize) & 1usize) == ((b >> 57usize) & 1usize));
    assert(((a >> 58usize) & 1usize) == ((b >> 58usize) & 1usize));
    assert(((a >> 59usize) & 1usize) == ((b >> 59usize) & 1usize));
    assert(((a >> 60usize) & 1usize) == ((b >> 60usize) & 1usize));
    assert(((a >> 61usize) & 1usize) == ((b >> 61usize) & 1usize));
    assert(((a >> 62usize) & 1usize) == ((b >> 62usize) & 1usize));
    assert(((a >> 63usize) & 1usize) == ((b >> 63usize) & 1usize));
    lemma_bits_equal(a, b);
}

proof fn lemma_below_has_no_high_bit(x: usize, n: usize, k: usize)
    by (bit_vector)
    requires
        n < usize::BITS,
        n <= k < usize::BITS,
        x < (1usize << n),
    ensures
        ((x >> k) & 1usize) != 1usize,
{
}

proof fn lemma_shifted_bit(x: usize, n: usize, k: usize)
    by (bit_vector)
    requires
        n < usize::BITS,
        k < usize::BITS,
        n + k < usize::BITS,
    ensures
        ((x >> n) >> k) & 1usize == (x >> ((n + k) as usize)) & 1usize,
{
}

proof fn lemma_shifted_past(x: usize, n: usize, k: usize)
    by (bit_vector)
    requires
        n < usize::BITS,
        usize::BITS <= n + k,
    ensures
        ((x >> n) >> k) & 1usize == 0usize,
{
}

proof fn lemma_zero_shift_below(x: usize, n: usize)
    by (bit_vector)
    requires
        n < usize::BITS,
        x >> n == 0usize,
    ensures
        x < (1usize << n),
{
}

proof fn lemma_zero_bit(k: usize)
    by (bit_vector)
    ensures
        (0usize >> k) & 1usize == 0usize,
{
}

/// Having no bit set from bit `n` up is being below `2^n`.
pub proof fn lemma_fits_bits(x: usize, n: usize)
    requires
        n < usize::BITS,
    ensures
        fits_bits(x, n) <==> x < (1usize << n),
{
    if x < (1usize << n) {
        assert forall|k: usize| n <= k < usize::BITS implies !bit_of(x, k) by {
            lemma_below_has_no_high_bit(x, n, k);
        }
    }
    if fits_bits(x, n) {
        let y = x >> n;
        assert forall|k: usize| k < 64 implies #[trigger] ((y >> k) & 1usize) == ((0usize >> k) & 1usize) by {
            lemma_zero_bit(k);
            if n + k < usize::BITS {
                lemma_shifted_bit(x, n, k);
                let m = (n + k) as usize;
                assert(!bit_of(x, m));
                lemma_bit_value(x, m);
            } else {
                lemma_shifted_past(x, n, k);
            }
        }
        lemma_bits_eq(y, 0usize);
        lemma_zero_shift_below(x, n);
    }
}

/// Reversing twice gives the index back: for an index below `2^log_n`, the
/// bit reversal of its bit reversal is the index itself. (This is what makes
/// swapping each element with its reversed partner a permutation.)
pub proof fn lemma_rev_involution(x: usize, log_n: usize, r1: usize, r2: usize)
    requires
        log_n <= usize::BITS,
        fits_bits(x, log_n),
        is_rev(r1, x, log_n),
        is_rev(r2, r1, log_n),
    ensures
        r2 == x,
{
    assert forall|k: usize| k < usize::BITS implies bit_of(r2, k) == bit_of(x, k) by {
        if k < log_n {
            let k2 = (log_n - 1 - k) as usize;
            assert(bit_of(r1, k2) == bit_of(x, (log_n - 1 - k2) as usize));
        }
    }
    assert forall|k: usize| k < 64 implies ((r2 >> k) & 1usize) == ((x >> k) & 1usize) by {
        if k < usize::BITS {
            assert(bit_of(r2, k) == bit_of(x, k));
            lemma_bit_value(r2, k);
            lemma_bit_value(x, k);
        } else {
            lemma_high_shift(r2, k);
            lemma_high_shift(x, k);
        }
    }
    lemma_bits_eq(r2, x);
}

/// The involution for an index below `2^log_n`: reversing its low `log_n`
/// bits twice gives it back, and each reversal is again below `2^log_n`.
pub proof fn lemma_rev_involution_below(x: usize, log_n: usize, r1: usize, r2: usize)
    requires
        log_n < usize::BITS,
        x < (1usize << log_n),
        is_rev(r1, x, log_n),
        is_rev(r2, r1, log_n),
    ensures
        r1 < (1usize << log_n),
        r2 == x,
{
    lemma_fits_bits(x, log_n);
    lemma_fits_bits(r1, log_n);
    lemma_rev_involution(x, log_n, r1, r2);
}

proof fn lemma_bit_value(x: usize, k: usize)
    by (bit_vector)
    ensures
        ((x >> k) & 1usize) == 1usize || ((x >> k) & 1usize) == 0usize,
{
}

proof fn lemma_high_shift(x: usize, k: usize)
    by (bit_vector)
    requires
        usize::BITS <= k,
    ensures
        ((x >> k) & 1usize) == 0usize,
{
}

} // verus!
