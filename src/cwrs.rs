//! Pyramid vector quantisation: the codebook size table and the decoding of one codeword.
use vstd::prelude::*;
use crate::entdec::EntropyCoder;

verus! {

/// The rows and columns of the codebook size table.
pub const PVQ_SIZE: usize = 177;

/// `V(n, k)`: the number of vectors of `n` integers whose absolute values sum to `k`.
pub open spec fn pvq_count(n: nat, k: nat) -> nat
    decreases n, k,
{
    if n == 0 {
        if k == 0 {
            1
        } else {
            0
        }
    } else if k == 0 {
        1
    } else {
        pvq_count((n - 1) as nat, k) + pvq_count(n, (k - 1) as nat) + pvq_count((n - 1) as nat, (k - 1) as nat)
    }
}

/// The table entry of `V(n, k)`: the recurrence on 32-bit values, with `None` where an
/// addend is missing or the sum does not fit.
pub open spec fn pvq_entry(n: nat, k: nat) -> Option<u32>
    decreases n, k,
{
    if n == 0 {
        if k == 0 {
            Some(1u32)
        } else {
            Some(0u32)
        }
    } else if k == 0 {
        Some(1u32)
    } else {
        match (pvq_entry((n - 1) as nat, k), pvq_entry(n, (k - 1) as nat), pvq_entry((n - 1) as nat, (k - 1) as nat)) {
            (Some(a), Some(b), Some(c)) => if a + b + c < 0x1_0000_0000 {
                Some((a + b + c) as u32)
            } else {
                None
            },
            _ => None,
        }
    }
}

/// Each entry of the table follows from the three before it whenever they and their sum
/// fit in 32 bits.
pub proof fn lemma_pvq_recurrence(n: nat, k: nat)
    requires
        n >= 1,
        k >= 1,
        pvq_entry((n - 1) as nat, k) is Some,
        pvq_entry(n, (k - 1) as nat) is Some,
        pvq_entry((n - 1) as nat, (k - 1) as nat) is Some,
        pvq_entry((n - 1) as nat, k)->0 + pvq_entry(n, (k - 1) as nat)->0 + pvq_entry(
            (n - 1) as nat,
            (k - 1) as nat,
        )->0 < 0x1_0000_0000,
    ensures
        pvq_entry(n, k) == Some(
            (pvq_entry((n - 1) as nat, k)->0 + pvq_entry(n, (k - 1) as nat)->0 + pvq_entry(
                (n - 1) as nat,
                (k - 1) as nat,
            )->0) as u32,
        ),
{
}

/// `V(n, k)` grows with `n` and `k` (for `n >= 1`), and is at least one for `n >= 1`.
pub proof fn lemma_pvq_mono(n: nat, k: nat)
    requires
        n >= 1,
    ensures
        pvq_count((n - 1) as nat, k) <= pvq_count(n, k),
        k >= 1 ==> pvq_count(n, (k - 1) as nat) <= pvq_count(n, k),
        k >= 1 ==> pvq_count((n - 1) as nat, (k - 1) as nat) <= pvq_count(n, k),
        pvq_count(n, k) >= 1,
    decreases k,
{
    if k >= 1 {
        lemma_pvq_mono(n, (k - 1) as nat);
    }
}

/// `V(m, t) <= V(n, k)` for `m <= n` and `t <= k`, with `n >= 1`.
pub proof fn lemma_pvq_le(m: nat, t: nat, n: nat, k: nat)
    requires
        1 <= n,
        m <= n,
        t <= k,
    ensures
        pvq_count(m, t) <= pvq_count(n, k),
    decreases n + k,
{
    lemma_pvq_mono(n, k);
    if t < k {
        lemma_pvq_le(m, t, n, (k - 1) as nat);
    } else if m < n {
        if n - 1 >= 1 {
            lemma_pvq_le(m, t, (n - 1) as nat, k);
        } else {
            assert(m == 0);
            assert(pvq_count(0, t) <= 1);
        }
    }
}

/// The table entry is `V(n, k)` exactly when that fits in 32 bits.
pub proof fn lemma_pvq_entry(n: nat, k: nat)
    ensures
        pvq_entry(n, k) == (if pvq_count(n, k) < 0x1_0000_0000 {
            Some(pvq_count(n, k) as u32)
        } else {
            None
        }),
    decreases n, k,
{
    if n >= 1 && k >= 1 {
        lemma_pvq_entry((n - 1) as nat, k);
        lemma_pvq_entry(n, (k - 1) as nat);
        lemma_pvq_entry((n - 1) as nat, (k - 1) as nat);
        lemma_pvq_mono(n, k);
    }
}

/// The table that `build_pvq_table` returns.
pub open spec fn pvq_table_ok(v: Seq<Vec<Option<u32>>>) -> bool {
    &&& v.len() == PVQ_SIZE
    &&& forall|n: int| 0 <= n < PVQ_SIZE ==> #[trigger] v[n]@.len() == PVQ_SIZE
    &&& forall|n: int, k: int|
        0 <= n < PVQ_SIZE && 0 <= k < PVQ_SIZE ==> #[trigger] v[n]@[k] == pvq_entry(n as nat, k as nat)
}

/// Builds the codebook size table `V(n, k)` for `n, k < 177` from its recurrence; entries
/// that do not fit in 32 bits are `None`.
pub fn build_pvq_table() -> (v: Vec<Vec<Option<u32>>>)
    ensures
        pvq_table_ok(v@),
{
    let mut v: Vec<Vec<Option<u32>>> = Vec::new();
    let mut row0: Vec<Option<u32>> = Vec::new();
    row0.push(Some(1u32));
    let mut k: usize = 1;
    while k < PVQ_SIZE
        invariant
            1 <= k <= PVQ_SIZE,
            row0@.len() == k,
            forall|t: int| 0 <= t < k ==> #[trigger] row0@[t] == pvq_entry(0, t as nat),
        decreases PVQ_SIZE - k,
    {
        row0.push(Some(0u32));
        k = k + 1;
    }
    v.push(row0);
    let mut n: usize = 1;
    while n < PVQ_SIZE
        invariant
            1 <= n <= PVQ_SIZE,
            v@.len() == n,
            forall|r: int| 0 <= r < n ==> #[trigger] v@[r]@.len() == PVQ_SIZE,
            forall|r: int, t: int| 0 <= r < n && 0 <= t < PVQ_SIZE ==> #[trigger] v@[r]@[t] == pvq_entry(r as nat, t as nat),
        decreases PVQ_SIZE - n,
    {
        let mut row: Vec<Option<u32>> = Vec::new();
        row.push(Some(1u32));
        let mut k: usize = 1;
        while k < PVQ_SIZE
            invariant
                1 <= n < PVQ_SIZE,
                1 <= k <= PVQ_SIZE,
                v@.len() == n,
                forall|r: int| 0 <= r < n ==> #[trigger] v@[r]@.len() == PVQ_SIZE,
                forall|r: int, t: int| 0 <= r < n && 0 <= t < PVQ_SIZE ==> #[trigger] v@[r]@[t] == pvq_entry(r as nat, t as nat),
                row@.len() == k,
                forall|t: int| 0 <= t < k ==> #[trigger] row@[t] == pvq_entry(n as nat, t as nat),
            decreases PVQ_SIZE - k,
        {
            let a = v[n - 1][k];
            let b = row[k - 1];
            let c = v[n - 1][k - 1];
            let e: Option<u32> = match (a, b, c) {
                (Some(a), Some(b), Some(c)) => {
                    let s = a as u64 + b as u64 + c as u64;
                    if s < 0x1_0000_0000 {
                        Some(s as u32)
                    } else {
                        None
                    }
                },
                _ => None,
            };
            assert(e == pvq_entry(n as nat, k as nat));
            row.push(e);
            k = k + 1;
        }
        v.push(row);
        n = n + 1;
    }
    v
}

/// `V(m, 0) + ... + V(m, t - 1)`: the codewords of one sign whose first magnitude exceeds
/// what is left after `t` pulses.
pub open spec fn pvq_sum(m: nat, t: nat) -> nat
    decreases t,
{
    if t == 0 {
        0
    } else {
        pvq_sum(m, (t - 1) as nat) + pvq_count(m, (t - 1) as nat)
    }
}

/// The codewords split by the sign of their first value: `V(m, k) = V(m - 1, k) +
/// 2 (V(m - 1, 0) + ... + V(m - 1, k - 1))`.
pub proof fn lemma_pvq_half(m: nat, k: nat)
    requires
        m >= 1,
    ensures
        pvq_count(m, k) == pvq_count((m - 1) as nat, k) + 2 * pvq_sum((m - 1) as nat, k),
    decreases k,
{
    if k >= 1 {
        lemma_pvq_half(m, (k - 1) as nat);
    }
}

proof fn lemma_pvq_sum_mono(m: nat, a: nat, b: nat)
    requires
        a <= b,
    ensures
        pvq_sum(m, a) <= pvq_sum(m, b),
    decreases b,
{
    if a < b {
        lemma_pvq_sum_mono(m, a, (b - 1) as nat);
    }
}

/// The pulses left after the first value of a codeword of index `i` within its sign: the
/// largest `t <= k` with `pvq_sum(m1, t) <= i`.
pub open spec fn pvq_peel(m1: nat, k: nat, i: nat) -> nat
    decreases k,
{
    if k == 0 || pvq_sum(m1, k) <= i {
        k
    } else {
        pvq_peel(m1, (k - 1) as nat, i)
    }
}

proof fn lemma_peel(m1: nat, k: nat, i: nat)
    ensures
        pvq_peel(m1, k, i) <= k,
        pvq_sum(m1, pvq_peel(m1, k, i)) <= i,
        pvq_peel(m1, k, i) == k || pvq_sum(m1, pvq_peel(m1, k, i) + 1) > i,
    decreases k,
{
    if k > 0 && pvq_sum(m1, k) > i {
        lemma_peel(m1, (k - 1) as nat, i);
    }
}

proof fn lemma_peel_at(m1: nat, k: nat, t: nat, i: nat)
    requires
        t <= k,
        pvq_sum(m1, t) <= i < pvq_sum(m1, t + 1) || (t == k && pvq_sum(m1, t) <= i),
    ensures
        pvq_peel(m1, k, i) == t,
    decreases k,
{
    if k > t {
        lemma_pvq_sum_mono(m1, t + 1, k);
        lemma_peel_at(m1, (k - 1) as nat, t, i);
    }
}

/// The codeword of index `i` among the `V(m, k)` vectors of `m` values with `k` pulses:
/// those with a non-negative first value come first, then those with a negative one; within
/// a sign, larger first magnitudes come first, and the rest is the codeword of the remaining
/// index among the vectors of `m - 1` values with the remaining pulses.
pub open spec fn pvq_decode(m: nat, k: nat, i: nat) -> Seq<int>
    decreases m,
{
    if m == 0 {
        Seq::empty()
    } else {
        let m1 = (m - 1) as nat;
        let ph = pvq_count(m1, k) + pvq_sum(m1, k);
        if i < ph {
            let t = pvq_peel(m1, k, i);
            seq![k - t].add(pvq_decode(m1, t, (i - pvq_sum(m1, t)) as nat))
        } else {
            let i2 = (i - ph) as nat;
            let t = pvq_peel(m1, k, i2);
            seq![t - k].add(pvq_decode(m1, t, (i2 - pvq_sum(m1, t)) as nat))
        }
    }
}

/// The sum of the absolute values of `x`.
pub open spec fn l1_norm(x: Seq<int>) -> nat
    decreases x.len(),
{
    if x.len() == 0 {
        0
    } else {
        (if x[0] < 0 {
            -x[0]
        } else {
            x[0]
        }) as nat + l1_norm(x.subrange(1, x.len() as int))
    }
}

/// The index of the codeword `x` (with `l1_norm(x)` pulses): the inverse of `pvq_decode`.
pub open spec fn pvq_index(x: Seq<int>) -> nat
    decreases x.len(),
{
    if x.len() == 0 {
        0
    } else {
        let m1 = (x.len() - 1) as nat;
        let k = l1_norm(x);
        let rest = x.subrange(1, x.len() as int);
        let t = l1_norm(rest);
        let r = pvq_sum(m1, t) + pvq_index(rest);
        if x[0] < 0 {
            pvq_count(m1, k) + pvq_sum(m1, k) + r
        } else {
            r
        }
    }
}

/// One step of decoding: the first value and what is left are in range.
proof fn lemma_decode_step(m: nat, k: nat, i: nat)
    requires
        m >= 1,
        i < pvq_count(m, k),
    ensures
        ({
            let m1 = (m - 1) as nat;
            let ph = pvq_count(m1, k) + pvq_sum(m1, k);
            let i2 = if i < ph {
                i
            } else {
                (i - ph) as nat
            };
            let t = pvq_peel(m1, k, i2);
            &&& t <= k
            &&& pvq_sum(m1, t) <= i2
            &&& i2 - pvq_sum(m1, t) < pvq_count(m1, t)
            &&& i >= ph ==> t < k
        }),
{
    let m1 = (m - 1) as nat;
    lemma_pvq_half(m, k);
    let ph = pvq_count(m1, k) + pvq_sum(m1, k);
    let i2 = if i < ph {
        i
    } else {
        (i - ph) as nat
    };
    lemma_peel(m1, k, i2);
}

/// Decoding an index below `V(m, k)` gives `m` values whose absolute values sum to `k`.
pub proof fn lemma_decode_norm(m: nat, k: nat, i: nat)
    requires
        i < pvq_count(m, k),
    ensures
        pvq_decode(m, k, i).len() == m,
        l1_norm(pvq_decode(m, k, i)) == k,
    decreases m,
{
    if m >= 1 {
        let m1 = (m - 1) as nat;
        lemma_decode_step(m, k, i);
        let ph = pvq_count(m1, k) + pvq_sum(m1, k);
        let i2 = if i < ph {
            i
        } else {
            (i - ph) as nat
        };
        let t = pvq_peel(m1, k, i2);
        lemma_decode_norm(m1, t, (i2 - pvq_sum(m1, t)) as nat);
        let d = pvq_decode(m, k, i);
        assert(d.subrange(1, d.len() as int) =~= pvq_decode(m1, t, (i2 - pvq_sum(m1, t)) as nat));
    } else {
        assert(pvq_count(0, k) > 0 ==> k == 0);
    }
}

/// Decoding the index of a codeword gives the codeword back, and every index is in range.
pub proof fn lemma_pvq_round_trip(x: Seq<int>)
    ensures
        pvq_index(x) < pvq_count(x.len() as nat, l1_norm(x)),
        pvq_decode(x.len() as nat, l1_norm(x), pvq_index(x)) == x,
    decreases x.len(),
{
    if x.len() > 0 {
        let m = x.len() as nat;
        let m1 = (m - 1) as nat;
        let k = l1_norm(x);
        let rest = x.subrange(1, x.len() as int);
        let t = l1_norm(rest);
        lemma_pvq_round_trip(rest);
        let r = pvq_sum(m1, t) + pvq_index(rest);
        assert(pvq_sum(m1, t + 1) == pvq_sum(m1, t) + pvq_count(m1, t));
        lemma_pvq_half(m, k);
        let a = if x[0] < 0 {
            -x[0]
        } else {
            x[0]
        };
        assert(k == a + t);
        let ph = pvq_count(m1, k) + pvq_sum(m1, k);
        if t < k {
            lemma_pvq_sum_mono(m1, t + 1, k);
        }
        lemma_peel_at(m1, k, t, r);
        assert(rest.len() == m1);
        if x[0] < 0 {
            assert(pvq_index(x) == ph + r);
            assert(pvq_decode(m, k, pvq_index(x)) =~= seq![t - k].add(pvq_decode(m1, t, pvq_index(rest))));
        } else {
            assert(pvq_index(x) == r);
            assert(r < ph);
            assert(pvq_decode(m, k, pvq_index(x)) =~= seq![k - t].add(pvq_decode(m1, t, pvq_index(rest))));
        }
        assert(pvq_decode(m, k, pvq_index(x)) =~= x);
    } else {
        assert(x =~= Seq::empty());
    }
}

/// Decodes a PVQ codeword of `k` pulses into `x`: its index, uniform in `[0, V(n, k))`,
/// from the range decoder, then the vector of that index (`pvq_decode`), whose absolute
/// values sum to `k`.
pub fn decode_pulses(x: &mut [i32], k: usize, ec: &mut EntropyCoder, v: &Vec<Vec<Option<u32>>>)
    requires
        1 <= old(x)@.len() < PVQ_SIZE,
        k < PVQ_SIZE,
        pvq_table_ok(v@),
        pvq_count(old(x)@.len() as nat, k as nat) < 0x1_0000_0000,
        old(ec).wf(),
        EntropyCoder::uint_bits(pvq_count(old(x)@.len() as nat, k as nat) as u32) > 8 ==> old(ec).raw_room()
            >= EntropyCoder::uint_bits(pvq_count(old(x)@.len() as nat, k as nat) as u32) - 8,
    ensures
        final(x)@.len() == old(x)@.len(),
        ({
            let ft = pvq_count(old(x)@.len() as nat, k as nat) as u32;
            let i = EntropyCoder::uint_value(*old(ec), ft);
            &&& 0 <= i < ft
            &&& *final(ec) == EntropyCoder::uint_next(*old(ec), ft)
            &&& forall|j: int| 0 <= j < final(x)@.len() ==> #[trigger] final(x)@[j] as int == pvq_decode(
                old(x)@.len() as nat,
                k as nat,
                i as nat,
            )[j]
        }),
        final(ec).wf(),
        final(ec).nbits_total >= old(ec).nbits_total,
{
    let n = x.len();
    let ghost nn = n as nat;
    let ghost kk0 = k as nat;
    proof {
        lemma_pvq_entry(nn, kk0);
        lemma_pvq_mono(nn, kk0);
    }
    let ft = v[n][k].unwrap();
    let mut i = ec.decode_uint(ft);
    let ghost i0 = i as nat;
    let ghost d = pvq_decode(nn, kk0, i0);
    proof {
        lemma_decode_norm(nn, kk0, i0);
    }
    let mut k = k;
    let mut j: usize = 0;
    while j < n
        invariant
            0 <= j <= n,
            n == x@.len(),
            n < PVQ_SIZE,
            k <= kk0,
            kk0 < PVQ_SIZE,
            pvq_table_ok(v@),
            pvq_count(nn, kk0) < 0x1_0000_0000,
            nn == n,
            (i as nat) < pvq_count((n - j) as nat, k as nat),
            d.len() == n,
            d.subrange(j as int, n as int) == pvq_decode((n - j) as nat, k as nat, i as nat),
            forall|t: int| 0 <= t < j ==> #[trigger] x@[t] as int == d[t],
        decreases n - j,
    {
        let m = n - j;
        let ghost m1 = (m - 1) as nat;
        let ghost kn = k as nat;
        let ghost inat = i as nat;
        proof {
            lemma_pvq_le(m as nat, kn, nn, kk0);
            lemma_pvq_le(m1, kn, nn, kk0);
            lemma_pvq_entry(m as nat, kn);
            lemma_pvq_entry(m1, kn);
            lemma_pvq_half(m as nat, kn);
            lemma_decode_step(m as nat, kn, inat);
        }
        let vm = v[m][k].unwrap();
        let vm1 = v[m - 1][k].unwrap();
        let mut p: u32 = ((vm as u64 + vm1 as u64) / 2) as u32;
        assert(p == pvq_count(m1, kn) + pvq_sum(m1, kn));
        let neg = i >= p;
        if neg {
            i = i - p;
        }
        let ghost i2 = i as nat;
        let k0 = k;
        p = p - vm1;
        proof {
            lemma_peel(m1, kn, i2);
        }
        while p > i
            invariant
                k <= k0,
                k0 == kn,
                kn < PVQ_SIZE,
                1 <= m <= n < PVQ_SIZE,
                m1 == m - 1,
                p == pvq_sum(m1, k as nat),
                i == i2,
                pvq_peel(m1, kn, i2) == pvq_peel(m1, k as nat, i2),
                pvq_table_ok(v@),
                pvq_count(nn, kk0) < 0x1_0000_0000,
                nn == n,
                kk0 < PVQ_SIZE,
                k0 <= kk0,
            decreases k,
        {
            proof {
                lemma_pvq_le(m1, (k - 1) as nat, nn, kk0);
                lemma_pvq_entry(m1, (k - 1) as nat);
            }
            k = k - 1;
            p = p - v[m - 1][k].unwrap();
        }
        assert(k as nat == pvq_peel(m1, kn, i2));
        let mag = (k0 - k) as i32;
        x[j] = if neg {
            -mag
        } else {
            mag
        };
        i = i - p;
        proof {
            let dm = pvq_decode(m as nat, kn, inat);
            assert(dm[0] == x@[j as int] as int);
            assert(dm.subrange(1, dm.len() as int) =~= pvq_decode(m1, k as nat, i as nat));
            assert(d.subrange(j as int, n as int)[0] == d[j as int]);
            assert(d.subrange(j as int + 1, n as int) =~= d.subrange(j as int, n as int).subrange(1, (n - j) as int));
        }
        j = j + 1;
    }
}

/// `log2(val)` in 1/8 bits, rounded up (exact for powers of two): the cost of a uniform
/// choice among `val` codewords. The mantissa is scaled to 16 bits and squared once per
/// fractional bit.
pub fn log2_frac_q3(val: u32) -> (r: i32)
    requires
        val >= 1,
    ensures
        0 <= r <= 8 * 32 + 64,
{
    let l = crate::utils::ec_ilog(val);
    proof {
        crate::utils::lemma_p2_values();
        crate::utils::lemma_ilog_bounds(val as nat);
        crate::utils::lemma_ilog_le(val as nat, 32);
    }
    if val & (val - 1) == 0 {
        return ((l - 1) * 8) as i32;
    }
    let mut v: u64 = val as u64;
    if l > 16 {
        let d = crate::utils::pow2_u32(l - 16) as u64;
        proof {
            crate::utils::lemma_p2_pos((l - 16) as nat);
            crate::utils::lemma_p2_adds((l - 16) as nat, 16);
            assert((l - 16) as nat + 16 == l as nat);
            vstd::arithmetic::div_mod::lemma_multiply_divide_lt((val - 1) as int, d as int, 0x1_0000);
        }
        v = ((v - 1) / d) + 1;
    } else {
        let d = crate::utils::pow2_u32(16 - l) as u64;
        proof {
            crate::utils::lemma_p2_pos((16 - l) as nat);
            crate::utils::lemma_p2_adds((16 - l) as nat, l as nat);
            assert(val * d < crate::utils::p2(l as nat) * d) by (nonlinear_arith)
                requires
                    val < crate::utils::p2(l as nat),
                    d >= 1,
            ;
            assert(crate::utils::p2(l as nat) * d == d * crate::utils::p2(l as nat)) by (nonlinear_arith);
        }
        v = v * d;
    }
    let mut lg: i32 = ((l - 1) * 8) as i32;
    let mut step: u32 = 0;
    while step < 4
        invariant
            step <= 4,
            0 <= lg <= 8 * 31 + 16 * step,
            v <= 0x2_0000,
        decreases 4 - step,
    {
        let b: u64 = v / 0x1_0000;
        assert(b <= 2);
        let w: i32 = if step == 0 {
            8
        } else if step == 1 {
            4
        } else if step == 2 {
            2
        } else {
            1
        };
        lg = lg + (b as i32) * w;
        if b == 1 {
            v = (v + 1) / 2;
        } else if b == 2 {
            v = (v + 2) / 4;
        }
        assert(v * v <= 0x1_0000_0000) by (nonlinear_arith)
            requires
                v <= 0x1_0000,
        ;
        v = (v * v + 0x7FFF) / 0x8000;
        step = step + 1;
    }
    lg + if v > 0x1_0000 {
        1
    } else {
        0
    }
}

/// The most pulse-count entries a cache holds.
pub const MAX_PSEUDO: usize = 40;

/// The pulse cache of a band of `n` samples: the cost in 1/8 bits, less one, of each
/// permitted pulse count `get_pulses(j + 1)` whose codebook size fits in 32 bits (at most 40
/// entries).
pub fn pulse_cache(n: usize, v: &Vec<Vec<Option<u32>>>) -> (r: Vec<i32>)
    requires
        n < PVQ_SIZE,
        pvq_table_ok(v@),
    ensures
        r@.len() <= MAX_PSEUDO,
        forall|j: int| 1 <= j <= r@.len() ==> pvq_entry(n as nat, #[trigger] crate::bands_utils::pulses_of(j) as nat) is Some,
        forall|j: int| 0 <= j < r@.len() ==> -1 <= #[trigger] r@[j] <= 8 * 32 + 64,
{
    let mut r: Vec<i32> = Vec::new();
    if n == 0 {
        return r;
    }
    let mut k: usize = 0;
    while k < MAX_PSEUDO
        invariant
            k <= MAX_PSEUDO,
            1 <= n < PVQ_SIZE,
            pvq_table_ok(v@),
            r@.len() == k,
            forall|j: int| 1 <= j <= k ==> pvq_entry(n as nat, #[trigger] crate::bands_utils::pulses_of(j) as nat) is Some,
            forall|j: int| 0 <= j < k ==> -1 <= #[trigger] r@[j] <= 8 * 32 + 64,
        decreases MAX_PSEUDO - k,
    {
        let p = crate::bands_utils::get_pulses(k + 1);
        proof {
            crate::utils::lemma_p2_values();
            reveal_with_fuel(crate::utils::p2, 5);
            let e = (k + 1) / 8;
            if k + 1 >= 8 {
                if e == 5 {
                    assert(k + 1 == 40);
                    assert(p == 8 * 16);
                } else {
                    crate::utils::lemma_p2_mono((e - 1) as nat, 3);
                    let q = crate::utils::p2((e - 1) as nat);
                    assert((8 + (k + 1) % 8) * q <= 15 * 8) by (nonlinear_arith)
                        requires
                            q <= 8,
                            0 <= (k + 1) % 8 < 8,
                    ;
                }
            }
        }
        assert(p <= 128);
        match v[n][p] {
            Some(count) => {
                proof {
                    lemma_pvq_entry(n as nat, p as nat);
                    lemma_pvq_mono(n as nat, p as nat);
                }
                let bits = log2_frac_q3(count);
                r.push(bits - 1);
                k = k + 1;
            },
            None => {
                return r;
            },
        }
    }
    r
}

} // verus!
