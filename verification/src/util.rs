//! Alignment arithmetic shared by the wire format and the memory-pool sizing
//! rules.

use vstd::arithmetic::div_mod::{
    lemma_fundamental_div_mod, lemma_fundamental_div_mod_converse, lemma_mod_bound,
    lemma_mod_multiples_basic,
};
use vstd::arithmetic::power2::{lemma2_to64, lemma_pow2_unfold, pow2};
use vstd::prelude::*;

verus! {

/// The least multiple of `align_size` that is at least `x`.
pub open spec fn spec_align_up(x: int, align_size: int) -> int {
    ((x + align_size - 1) / align_size) * align_size
}

/// Whether `x` is a power of two.
pub open spec fn spec_is_pow2(x: int) -> bool {
    exists|k: nat| x == pow2(k)
}

/// Rounds `x` up to the next multiple of `align_size`.
pub fn align_up(x: usize, align_size: usize) -> (r: usize)
    requires
        align_size >= 1,
        x + align_size <= usize::MAX,
    ensures
        r as int == spec_align_up(x as int, align_size as int),
        r as int % align_size as int == 0,
        x <= r < x + align_size,
{
    let ghost a = align_size as int;
    let ghost m = (x as int) % a;
    let divisor = x / align_size;
    let ghost d = divisor as int;
    proof {
        lemma_fundamental_div_mod(x as int, a);
        lemma_mod_bound(x as int, a);
        assert(a * d == d * a) by (nonlinear_arith);
        assert(x as int == d * a + m);
    }
    if divisor * align_size < x {
        proof {
            assert(m != 0);
            assert((d + 1) * a == d * a + a) by (nonlinear_arith);
        }
        let r = (divisor + 1) * align_size;
        proof {
            assert((x as int) + a - 1 == (d + 1) * a + (m - 1));
            lemma_fundamental_div_mod_converse((x as int) + a - 1, a, d + 1, m - 1);
            assert(spec_align_up(x as int, a) == (d + 1) * a);
            lemma_mod_multiples_basic(d + 1, a);
        }
        r
    } else {
        proof {
            assert(d * a == x as int);
            assert(m == 0);
            assert((x as int) + a - 1 == d * a + (a - 1));
            lemma_fundamental_div_mod_converse((x as int) + a - 1, a, d, a - 1);
            assert(spec_align_up(x as int, a) == d * a);
            lemma_mod_multiples_basic(d, a);
        }
        x
    }
}

/// Rounds `x` up to the next power of two; `0` rounds to `1`.
///
/// The result is pinned exactly: it is the unique power of two in
/// `[x, 2 * x)` (and `1` when `x` is `0` or `1`).
pub fn align_to_pow2(x: usize) -> (r: usize)
    requires
        x as int <= usize::MAX as int / 2 + 1,
    ensures
        spec_is_pow2(r as int),
        x <= r,
        1 <= r,
        x == 0 ==> r == 1,
        x >= 1 ==> (r as int) < 2 * (x as int),
{
    if x == 0 {
        proof {
            lemma2_to64();
            assert(1int == pow2(0));
        }
        return 1;
    }
    let mut p: usize = 1;
    proof {
        lemma2_to64();
        assert(1int == pow2(0));
    }
    while p < x
        invariant
            1 <= p,
            1 <= x,
            x as int <= usize::MAX as int / 2 + 1,
            spec_is_pow2(p as int),
            (p as int) < 2 * (x as int),
        decreases 2 * (x as int) - (p as int),
    {
        proof {
            let k = choose|k: nat| p as int == pow2(k);
            lemma_pow2_unfold(k + 1);
            assert(2 * (p as int) == pow2(k + 1));
            assert((p as int) <= (x as int) - 1);
            assert(2 * (p as int) <= 2 * (x as int) - 2);
            assert(2 * (x as int) <= 2 * (usize::MAX as int / 2 + 1));
            assert(2 * (p as int) <= usize::MAX as int);
        }
        p = 2 * p;
    }
    p
}

} // verus!
