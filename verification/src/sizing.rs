//! Powers of two and the size-rounding policy.

use vstd::prelude::*;

verus! {

/// `n` is a power of two: 1, 2, 4, 8, ...
pub open spec fn is_pow2(n: int) -> bool
    decreases n,
{
    if n <= 1 {
        n == 1
    } else {
        n % 2 == 0 && is_pow2(n / 2)
    }
}

/// The smallest power of two that is at least `n`.
pub open spec fn ceil_pow2(n: int) -> int
    decreases n,
{
    if n <= 1 {
        1
    } else {
        2 * ceil_pow2((n + 1) / 2)
    }
}

/// The block size that serves a request for `count` units: `count` rounded
/// up to a power of two, raised to `min_block_size`, capped at
/// `max_block_size`; `None` where even the cap is smaller than the request.
pub open spec fn best_size(count: int, min_block_size: int, max_block_size: int) -> Option<int> {
    let rounded = ceil_pow2(count);
    let raised = if rounded < min_block_size { min_block_size } else { rounded };
    let capped = if raised > max_block_size { max_block_size } else { raised };
    if capped < count {
        None
    } else {
        Some(capped)
    }
}

/// A power of two is positive, and above 1 it is twice a power of two.
pub proof fn lemma_pow2_halves(n: int)
    requires
        is_pow2(n),
    ensures
        n >= 1,
        n > 1 ==> n % 2 == 0 && is_pow2(n / 2) && n / 2 >= 1,
    decreases n,
{
    if n > 1 {
        lemma_pow2_halves(n / 2);
    }
}

/// Twice a power of two is a power of two.
pub proof fn lemma_pow2_doubles(n: int)
    requires
        is_pow2(n),
    ensures
        is_pow2(2 * n),
{
    lemma_pow2_halves(n);
    assert((2 * n) / 2 == n);
}

/// Of two different powers of two the larger is at least twice the smaller.
pub proof fn lemma_pow2_gap(a: int, b: int)
    requires
        is_pow2(a),
        is_pow2(b),
        a < b,
    ensures
        2 * a <= b,
    decreases b,
{
    lemma_pow2_halves(a);
    lemma_pow2_halves(b);
    if a > b / 2 {
        lemma_pow2_gap(a / 2, b / 2);
    }
}

/// `ceil_pow2(n)` is a power of two, at least `n`, and below `2 * n` for
/// positive `n`; so no smaller power of two reaches `n`.
pub proof fn lemma_ceil_pow2(n: int)
    ensures
        is_pow2(ceil_pow2(n)),
        n <= ceil_pow2(n),
        n >= 1 ==> ceil_pow2(n) < 2 * n,
        forall|p: int| is_pow2(p) && n <= p ==> ceil_pow2(n) <= p,
    decreases n,
{
    if n > 1 {
        let h = (n + 1) / 2;
        lemma_ceil_pow2(h);
        lemma_pow2_doubles(ceil_pow2(h));
    }
    assert forall|p: int| is_pow2(p) && n <= p implies ceil_pow2(n) <= p by {
        lemma_pow2_halves(p);
        if n > 1 && ceil_pow2(n) > p {
            lemma_pow2_gap(p, ceil_pow2(n));
        }
    }
}

/// A power of two between `n` and `2 * n` is the rounded size of `n`.
pub proof fn lemma_ceil_pow2_unique(n: int, p: int)
    requires
        is_pow2(p),
        n <= p < 2 * n,
    ensures
        p == ceil_pow2(n),
{
    lemma_ceil_pow2(n);
    if ceil_pow2(n) < p {
        lemma_pow2_gap(ceil_pow2(n), p);
    }
}

/// With power-of-two bounds every size that the policy hands out is a power
/// of two.
pub proof fn lemma_best_size_pow2(count: int, min_block_size: int, max_block_size: int)
    requires
        is_pow2(min_block_size),
        is_pow2(max_block_size),
    ensures
        best_size(count, min_block_size, max_block_size) matches Some(size) ==> is_pow2(size),
{
    lemma_ceil_pow2(count);
}

/// The size-rounding policy, free of any tree access.
pub fn block_size_for(count: usize, min_block_size: usize, max_block_size: usize) -> (size: Option<usize>)
    ensures
        size matches Some(s) ==> best_size(count as int, min_block_size as int, max_block_size as int) == Some(s as int),
        size is None ==> best_size(count as int, min_block_size as int, max_block_size as int) is None,
{
    proof {
        lemma_ceil_pow2(count as int);
    }
    if count > max_block_size {
        return None;
    }
    let mut rounded: usize = 1;
    while rounded < count
        invariant
            is_pow2(rounded as int),
            rounded == 1 || rounded < 2 * count,
            count <= max_block_size,
        decreases usize::MAX - rounded,
    {
        if rounded > max_block_size / 2 {
            // The next power of two is beyond the cap, so the cap decides.
            proof {
                lemma_ceil_pow2(count as int);
                lemma_pow2_gap(rounded as int, ceil_pow2(count as int));
            }
            return Some(max_block_size);
        }
        proof {
            lemma_pow2_doubles(rounded as int);
        }
        rounded = rounded * 2;
    }
    proof {
        if count > 0 {
            lemma_ceil_pow2_unique(count as int, rounded as int);
        }
    }
    let raised = if rounded < min_block_size { min_block_size } else { rounded };
    let capped = if raised > max_block_size { max_block_size } else { raised };
    Some(capped)
}

} // verus!
