//! The collapse mask of a decoded pulse vector.
use vstd::prelude::*;
use crate::utils::{p2, lemma_p2_pos, lemma_p2_values, lemma_p2_mono, lemma_p2_adds, pow2_u32};

verus! {

/// Block `i` of `x`, split into blocks of `n` samples, holds a non-zero sample.
pub open spec fn block_nonzero(x: Seq<i32>, n: int, i: int) -> bool {
    exists|j: int| 0 <= j < n && #[trigger] x[i * n + j] != 0
}

/// Bit `i` of `m`.
pub open spec fn bit_set(m: int, i: int) -> bool {
    (m / p2(i as nat) as int) % 2 == 1
}

proof fn lemma_add_bit(m: int, i: int)
    requires
        0 <= i < 32,
        0 <= m < p2(i as nat),
    ensures
        forall|k: int| 0 <= k < i ==> bit_set(m + p2(i as nat), k) == #[trigger] bit_set(m, k),
        bit_set(m + p2(i as nat), i),
        !bit_set(m, i),
        m + p2(i as nat) < p2((i + 1) as nat),
{
    lemma_p2_pos(i as nat);
    lemma_p2_adds(i as nat, 1);
    reveal_with_fuel(p2, 2);
    assert forall|k: int| 0 <= k < i implies bit_set(m + p2(i as nat), k) == #[trigger] bit_set(m, k) by {
        lemma_p2_adds(k as nat, (i - k) as nat);
        lemma_p2_pos(k as nat);
        lemma_p2_pos((i - k) as nat);
        let d = p2(k as nat) as int;
        let e = p2((i - k) as nat) as int;
        lemma_p2_adds(1, (i - k - 1) as nat);
        assert(e % 2 == 0) by {
            assert(e == 2 * p2((i - k - 1) as nat));
        }
        assert((m + d * e) / d == m / d + e) by {
            vstd::arithmetic::div_mod::lemma_fundamental_div_mod(m, d);
            vstd::arithmetic::div_mod::lemma_mod_bound(m, d);
            assert(m + d * e == (m / d + e) * d + m % d) by (nonlinear_arith)
                requires
                    m == d * (m / d) + m % d,
            ;
            vstd::arithmetic::div_mod::lemma_fundamental_div_mod_converse(m + d * e, d, m / d + e, m % d);
        }
        vstd::arithmetic::div_mod::lemma_mod_add_multiples_vanish(m / d, 2);
        assert((m / d + e) % 2 == (m / d) % 2) by {
            vstd::arithmetic::div_mod::lemma_fundamental_div_mod(e, 2);
            vstd::arithmetic::div_mod::lemma_mod_multiples_vanish(e / 2, m / d, 2);
        }
    }
    let d = p2(i as nat) as int;
    assert(m / d == 0) by {
        vstd::arithmetic::div_mod::lemma_fundamental_div_mod_converse(m, d, 0, m);
    }
    assert((m + d) / d == 1) by {
        vstd::arithmetic::div_mod::lemma_fundamental_div_mod_converse(m + d, d, 1, m);
    }
}

/// The collapse mask of `x` split into `stride` blocks: bit `i` is set exactly when block
/// `i` holds a non-zero sample. A single block counts as filled.
pub fn extract_collapse_mask(x: &[i32], stride: usize) -> (r: u32)
    requires
        stride <= 31,
    ensures
        stride <= 1 ==> r == 1,
        stride > 1 ==> (r as int) < p2(stride as nat),
        stride > 1 ==> forall|i: int|
            0 <= i < stride ==> (bit_set(r as int, i) <==> block_nonzero(x@, (x@.len() as int) / (stride as int), i)),
{
    if stride <= 1 {
        return 1;
    }
    let n = x.len() / stride;
    let mut mask: u32 = 0;
    let mut i: usize = 0;
    proof {
        reveal_with_fuel(p2, 1);
        vstd::arithmetic::div_mod::lemma_fundamental_div_mod(x@.len() as int, stride as int);
        vstd::arithmetic::div_mod::lemma_mod_bound(x@.len() as int, stride as int);
    }
    while i < stride
        invariant
            0 <= i <= stride <= 31,
            n == (x@.len() as int) / (stride as int),
            stride * n <= x@.len(),
            (mask as int) < p2(i as nat),
            forall|k: int| 0 <= k < i ==> (bit_set(mask as int, k) <==> block_nonzero(x@, n as int, k)),
        decreases stride - i,
    {
        let mut any = false;
        let mut j: usize = 0;
        assert((i + 1) * n <= stride * n) by (nonlinear_arith)
            requires
                i + 1 <= stride,
                n >= 0,
        ;
        assert(i * n <= (i + 1) * n) by (nonlinear_arith)
            requires
                n >= 0,
        ;
        let len = x.len();
        let base = i * n;
        while j < n
            invariant
                0 <= j <= n,
                i < stride,
                len == x@.len(),
                base == i * n,
                n == (x@.len() as int) / (stride as int),
                i * n <= (i + 1) * n <= x@.len(),
                any <==> exists|jj: int| 0 <= jj < j && #[trigger] x@[i * n + jj] != 0,
            decreases n - j,
        {
            assert(i * n + j < (i + 1) * n) by (nonlinear_arith)
                requires
                    j < n,
            ;
            if x[base + j] != 0 {
                any = true;
            }
            j = j + 1;
        }
        proof {
            lemma_p2_mono((i + 1) as nat, 31);
            lemma_p2_values();
        }
        let ghost old_mask = mask as int;
        proof {
            lemma_add_bit(mask as int, i as int);
        }
        if any {
            mask = mask + pow2_u32(i as u32);
        } else {
            proof {
                lemma_p2_adds(i as nat, 1);
                reveal_with_fuel(p2, 2);
            }
        }
        assert forall|k: int| 0 <= k < i + 1 implies (bit_set(mask as int, k) <==> block_nonzero(x@, n as int, k)) by {
            if k < i {
                assert(bit_set(old_mask, k) <==> block_nonzero(x@, n as int, k));
            }
        }
        i = i + 1;
    }
    mask
}

} // verus!
