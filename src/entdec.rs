//! The range decoder: arithmetic-coded symbols read from the front of the
//! frame, and raw bits read from its back.
use vstd::prelude::*;
use crate::utils::{p2, ilog, lemma_p2_pos, lemma_p2_adds, lemma_p2_mono, lemma_p2_values,
    lemma_ilog_bounds, lemma_ilog_le, lemma_ilog_gt, pow2_u32, ec_ilog};

verus! {

/// The range is renormalised whenever it falls to `2^23` or below.
pub const CODE_BOT: u32 = 0x80_0000;

/// The largest range, `2^31`.
pub const CODE_TOP: u32 = 0x8000_0000;

/// The bit counter stops at this value, far beyond any frame.
pub const NBITS_CAP: usize = 0x3FF_FFFF;

/// The byte at `i`, or `0` past the end (the stream is padded with zeros).
pub open spec fn byte_at(buf: Seq<u8>, i: int) -> u8 {
    if 0 <= i < buf.len() {
        buf[i]
    } else {
        0
    }
}

/// The last `n` bytes of `buf` as a little-endian number: the last byte is the least
/// significant. Raw bits are read from this number, lowest bit first.
pub open spec fn tail_stream(buf: Seq<u8>, n: nat) -> nat
    decreases n,
{
    if n == 0 {
        0
    } else {
        tail_stream(buf, (n - 1) as nat) + (byte_at(buf, buf.len() - n) as nat) * p2((8 * (n - 1)) as nat)
    }
}

/// `n` raw bits starting at bit `pos` of the tail stream of `nbytes` bytes.
pub open spec fn raw_bits(buf: Seq<u8>, nbytes: nat, pos: nat, n: nat) -> nat {
    (tail_stream(buf, nbytes) / p2(pos)) % p2(n)
}

/// The longest frame the decoder takes, in bytes.
pub const MAX_FRAME: usize = 0x10_0000;

/// Adds without passing `NBITS_CAP`.
pub open spec fn count_add(a: usize, b: nat) -> usize {
    if a + b <= NBITS_CAP {
        (a + b) as usize
    } else {
        NBITS_CAP
    }
}

/// The symbol `decode(ft)` finds: `ft - min(value / (range / ft) + 1, ft)`.
pub open spec fn sym_of(range: u32, value: u32, ft: u32) -> int {
    let s = value / (range / ft) + 1;
    ft - (if s < ft { s } else { ft as int })
}

/// The fractional logarithm of `tell_frac`: `ilog(r)` refined by three squarings to 1/8 bit.
pub open spec fn frac_log_step(r: nat, lg: nat, i: nat) -> nat
    decreases i,
{
    if i == 0 {
        lg
    } else {
        let rs = r / p2((ilog(r) - 16) as nat);
        let sq = rs * rs;
        frac_log_step(sq, 2 * lg + sq / p2(31), (i - 1) as nat)
    }
}

/// The range decoder of one frame: `head` bytes read from the front into the range coder
/// (`range`, `value`, with one byte of carry in `remainder`), `tail` bytes read from the back
/// into the raw-bit window (`bits_buffer`, holding `bits_buffer_size` bits), `nbits_total`
/// the bits consumed, and `norm_factor` the scale of the last `decode`.
pub struct EntropyCoder<'a> {
    pub buffer: &'a [u8],
    pub head: usize,
    pub tail: usize,
    pub bits_buffer: u32,
    pub bits_buffer_size: usize,
    pub nbits_total: usize,
    pub range: u32,
    pub value: u32,
    pub norm_factor: u32,
    pub remainder: u8,
}

impl<'a> EntropyCoder<'a> {
    /// The number of raw bits consumed from the back so far.
    pub open spec fn raw_pos(&self) -> int {
        8 * self.tail - self.bits_buffer_size
    }

    /// The state between two symbols.
    pub open spec fn wf(&self) -> bool {
        &&& CODE_BOT < self.range <= CODE_TOP
        &&& self.value < self.range
        &&& self.head <= self.buffer@.len()
        &&& self.tail <= self.buffer@.len()
        &&& self.buffer@.len() <= MAX_FRAME
        &&& 33 <= self.nbits_total <= NBITS_CAP
        &&& self.bits_buffer_size <= 32
        &&& self.bits_buffer_size <= 8 * self.tail
        &&& self.bits_buffer < p2(self.bits_buffer_size as nat)
        &&& self.bits_buffer == tail_stream(self.buffer@, self.tail as nat) / p2(
            self.raw_pos() as nat,
        )
    }

    /// One step of renormalisation: the range grows by a byte and one byte is read.
    pub open spec fn norm_step(s: Self) -> Self {
        let b = byte_at(s.buffer@, s.head as int);
        let sym = (s.remainder % 2) * 128 + b / 2;
        EntropyCoder {
            range: (s.range * 256) as u32,
            value: (s.value * 256 + 255 - sym) as u32,
            remainder: b,
            head: if s.head < s.buffer@.len() {
                (s.head + 1) as usize
            } else {
                s.head
            },
            nbits_total: count_add(s.nbits_total, 8),
            ..s
        }
    }

    /// At most `n` steps of renormalisation, while the range is at most `2^23`.
    pub open spec fn norm_iter(s: Self, n: nat) -> Self
        decreases n,
    {
        if n > 0 && 0 < s.range <= CODE_BOT {
            Self::norm_iter(Self::norm_step(s), (n - 1) as nat)
        } else {
            s
        }
    }

    /// Renormalisation: steps while the range is at most `2^23` (three steps lift any
    /// positive range above it).
    pub open spec fn normalized(s: Self) -> Self {
        Self::norm_iter(s, 3)
    }

    /// The state that `init` starts from before renormalising.
    pub open spec fn initial(s: Self, buffer: &'a [u8]) -> Self {
        let b = byte_at(buffer@, 0);
        EntropyCoder {
            buffer: buffer,
            head: if buffer@.len() > 0 {
                1usize
            } else {
                0usize
            },
            tail: 0,
            bits_buffer: 0,
            bits_buffer_size: 0,
            nbits_total: 9,
            range: 128,
            value: (127 - b / 2) as u32,
            remainder: b,
            norm_factor: s.norm_factor,
        }
    }

    /// The symbol that `decode(ft)` returns in state `s`.
    pub open spec fn sym(s: Self, ft: u32) -> int {
        sym_of(s.range, s.value, ft)
    }

    /// `decode(ft)` followed by `update(fl, fh, ft)`.
    pub open spec fn step(s: Self, fl: u32, fh: u32, ft: u32) -> Self {
        let norm = s.range / ft;
        let v = (s.value - norm * (ft - fh)) as u32;
        let r = if fl > 0 {
            (norm * (fh - fl)) as u32
        } else {
            (s.range - norm * (ft - fh)) as u32
        };
        Self::normalized(Self::step_pre(s, fl, fh, ft))
    }

    /// The state that `step` renormalises.
    pub open spec fn step_pre(s: Self, fl: u32, fh: u32, ft: u32) -> Self {
        let norm = s.range / ft;
        let v = (s.value - norm * (ft - fh)) as u32;
        let r = if fl > 0 {
            (norm * (fh - fl)) as u32
        } else {
            (s.range - norm * (ft - fh)) as u32
        };
        EntropyCoder { value: v, range: r, norm_factor: norm as u32, ..s }
    }

    /// What `tell` returns: whole bits consumed, rounded up.
    pub open spec fn tell_spec(&self) -> int {
        self.nbits_total - ilog(self.range as nat)
    }

    /// What `tell_frac` returns: 1/8 bits consumed, rounded up.
    pub open spec fn tell_frac_spec(&self) -> int {
        8 * self.nbits_total - frac_log_step(
            self.range as nat,
            ilog(self.range as nat),
            3,
        )
    }

    /// The bytes of the tail window that `decode_bits(bits)` leaves consumed.
    pub open spec fn tail_after(&self, bits: nat) -> nat {
        if self.bits_buffer_size >= bits {
            self.tail as nat
        } else {
            (self.tail + (bits - self.bits_buffer_size + 7) / 8) as nat
        }
    }

    /// Renormalisation leaves the back of the frame and the last scale alone.
    pub proof fn lemma_norm_iter_keeps(s: Self, n: nat)
        ensures
            Self::norm_iter(s, n).buffer == s.buffer,
            Self::norm_iter(s, n).tail == s.tail,
            Self::norm_iter(s, n).bits_buffer == s.bits_buffer,
            Self::norm_iter(s, n).bits_buffer_size == s.bits_buffer_size,
            Self::norm_iter(s, n).norm_factor == s.norm_factor,
        decreases n,
    {
        if n > 0 && 0 < s.range <= CODE_BOT {
            Self::lemma_norm_iter_keeps(Self::norm_step(s), (n - 1) as nat);
        }
    }

    proof fn lemma_norm_step(s: Self)
        requires
            0 < s.range <= CODE_BOT,
            s.value < s.range,
            s.head <= s.buffer@.len(),
        ensures
            Self::norm_step(s).range == s.range * 256,
            Self::norm_step(s).value < Self::norm_step(s).range,
            Self::norm_step(s).head <= s.buffer@.len(),
    {
        assert(s.range * 256 <= CODE_TOP);
        assert(s.value * 256 + 255 < s.range * 256);
    }

    /// Reads the next byte of the front stream, or `0` past its end.
    fn read_byte(&mut self) -> (r: u8)
        requires
            old(self).head <= old(self).buffer@.len(),
        ensures
            r == byte_at(old(self).buffer@, old(self).head as int),
            *final(self) == (EntropyCoder {
                head: if old(self).head < old(self).buffer@.len() {
                    (old(self).head + 1) as usize
                } else {
                    old(self).head
                },
                nbits_total: count_add(old(self).nbits_total, 8),
                ..*old(self)
            }),
    {
        if self.nbits_total <= NBITS_CAP - 8 {
            self.nbits_total = self.nbits_total + 8;
        } else {
            self.nbits_total = NBITS_CAP;
        }
        if self.head >= self.buffer.len() {
            return 0;
        }
        let byte = self.buffer[self.head];
        self.head = self.head + 1;
        byte
    }

    /// Reads the next byte of the back stream.
    fn read_byte_from_end(&mut self) -> (r: u8)
        requires
            old(self).tail < old(self).buffer@.len(),
        ensures
            r == old(self).buffer@[old(self).buffer@.len() - 1 - old(self).tail],
            *final(self) == (EntropyCoder { tail: (old(self).tail + 1) as usize, ..*old(self) }),
    {
        let n = self.buffer.len();
        self.tail = self.tail + 1;
        self.buffer[self.buffer.len() - self.tail]
    }

    /// Renormalises: while the range is at most `2^23`, shifts range and value up one byte.
    fn normalize(&mut self)
        requires
            0 < old(self).range <= CODE_TOP,
            old(self).value < old(self).range,
            old(self).head <= old(self).buffer@.len(),
            old(self).nbits_total <= NBITS_CAP,
        ensures
            *final(self) == Self::normalized(*old(self)),
            CODE_BOT < final(self).range <= CODE_TOP,
            final(self).value < final(self).range,
            final(self).head <= final(self).buffer@.len(),
            old(self).nbits_total <= final(self).nbits_total <= NBITS_CAP,
            final(self).nbits_total <= old(self).nbits_total + 24,
            final(self).buffer == old(self).buffer,
            final(self).tail == old(self).tail,
            final(self).bits_buffer == old(self).bits_buffer,
            final(self).bits_buffer_size == old(self).bits_buffer_size,
            final(self).norm_factor == old(self).norm_factor,
    {
        proof {
            Self::lemma_norm_iter_keeps(*old(self), 3);
        }
        let ghost mut k: nat = 0;
        proof {
            lemma_p2_values();
            assert(p2(0) == 1);
        }
        while self.range <= CODE_BOT
            invariant
                0 < self.range <= CODE_TOP,
                self.value < self.range,
                self.head <= self.buffer@.len(),
                k <= 3,
                self.range >= p2(8 * k),
                Self::norm_iter(*self, (3 - k) as nat) == Self::normalized(*old(self)),
                old(self).nbits_total <= self.nbits_total <= NBITS_CAP,
                self.nbits_total <= old(self).nbits_total + 8 * k,
            decreases 3 - k,
        {
            proof {
                Self::lemma_norm_step(*self);
            }
            let ghost before = *self;
            self.range = self.range * 256;
            let sym = self.remainder;
            self.remainder = self.read_byte();
            let s: u32 = (sym as u32 % 2) * 128 + self.remainder as u32 / 2;
            self.value = self.value * 256 + (255 - s);
            assert(*self == Self::norm_step(before));
            assert(self.range == before.range * 256);
            proof {
                lemma_p2_values();
                lemma_p2_adds(8 * k, 8);
                if k >= 3 {
                    lemma_p2_mono(24, 8 * k);
                }
                k = k + 1;
            }
        }
    }

    /// Starts decoding `buffer`: the first byte seeds the state, which is then renormalised.
    pub fn init(&mut self, buffer: &'a [u8])
        requires
            buffer@.len() <= MAX_FRAME,
        ensures
            *final(self) == Self::normalized(Self::initial(*old(self), buffer)),
            final(self).wf(),
    {
        self.buffer = buffer;
        self.head = 0;
        self.tail = 0;
        self.nbits_total = 1;
        self.remainder = self.read_byte();
        self.range = 128;
        self.value = self.range - (self.remainder / 2) as u32 - 1;
        self.bits_buffer = 0;
        self.bits_buffer_size = 0;
        let ghost start = *self;
        assert(start == Self::initial(*old(self), buffer));
        self.normalize();
        proof {
            lemma_p2_values();
            reveal_with_fuel(EntropyCoder::norm_iter, 4);
            assert(p2(0) == 1);
        }
    }

    /// The state of a decoder of `buffer` before its first symbol.
    pub open spec fn started(buffer: &'a [u8]) -> Self {
        Self::normalized(
            Self::initial(
                EntropyCoder {
                    buffer: buffer,
                    head: 0,
                    tail: 0,
                    bits_buffer: 0,
                    bits_buffer_size: 0,
                    nbits_total: 0,
                    range: 0,
                    value: 0,
                    norm_factor: 0,
                    remainder: 0,
                },
                buffer,
            ),
        )
    }

    /// A decoder of `buffer`, ready for its first symbol.
    pub fn new(buffer: &'a [u8]) -> (r: Self)
        requires
            buffer@.len() <= MAX_FRAME,
        ensures
            r.wf(),
            r.buffer@ == buffer@,
            r.head <= 4,
            r.tail == 0,
            r.nbits_total == 33,
            r == Self::started(buffer),
    {
        let mut ec = EntropyCoder {
            buffer: buffer,
            head: 0,
            tail: 0,
            bits_buffer: 0,
            bits_buffer_size: 0,
            nbits_total: 0,
            range: 0,
            value: 0,
            norm_factor: 0,
            remainder: 0,
        };
        ec.init(buffer);
        proof {
            reveal_with_fuel(EntropyCoder::norm_iter, 4);
        }
        ec
    }

    /// The raw bits still available at the back.
    pub open spec fn raw_room(&self) -> int {
        8 * (self.buffer@.len() - self.tail) + self.bits_buffer_size
    }

    /// The state after `decode_bits(bits)`.
    pub open spec fn bits_next(s: Self, bits: nat) -> Self {
        let t = s.tail_after(bits);
        EntropyCoder {
            tail: t as usize,
            bits_buffer: (tail_stream(s.buffer@, t) / p2((s.raw_pos() + bits) as nat)) as u32,
            bits_buffer_size: (8 * t - s.raw_pos() - bits) as usize,
            nbits_total: count_add(s.nbits_total, bits),
            ..s
        }
    }

    /// What `decode_bits(bits)` returns.
    pub open spec fn bits_value(s: Self, bits: nat) -> nat {
        raw_bits(s.buffer@, s.tail_after(bits), s.raw_pos() as nat, bits)
    }

    /// The symbol of `decode_bit_logp(logp)`: one with probability `2^-logp`.
    pub open spec fn bit_value(s: Self, logp: nat) -> u8 {
        if Self::sym(s, p2(logp) as u32) < p2(logp) - 1 {
            0
        } else {
            1
        }
    }

    /// The state after `decode_bit_logp(logp)`.
    pub open spec fn bit_next(s: Self, logp: nat) -> Self {
        let ft = p2(logp) as u32;
        if Self::bit_value(s, logp) == 0 {
            Self::step(s, 0, (ft - 1) as u32, ft)
        } else {
            Self::step(s, (ft - 1) as u32, ft, ft)
        }
    }

    /// The number of bits of `ft - 1`, which `decode_uint(ft)` codes.
    pub open spec fn uint_bits(ft: u32) -> nat {
        ilog((ft - 1) as nat)
    }

    /// The scaled-down total that `decode_uint(ft)` range-codes when `ft - 1` has more
    /// than eight bits.
    pub open spec fn uint_top(ft: u32) -> u32 {
        (((ft - 1) as nat) / p2((Self::uint_bits(ft) - 8) as nat) + 1) as u32
    }

    /// What `decode_uint(ft)` returns.
    pub open spec fn uint_value(s: Self, ft: u32) -> int {
        if Self::uint_bits(ft) <= 8 {
            Self::sym(s, ft)
        } else {
            let sh = (Self::uint_bits(ft) - 8) as nat;
            let rft = Self::uint_top(ft);
            let t = Self::sym(s, rft);
            let s1 = Self::step(s, t as u32, (t + 1) as u32, rft);
            let v = t * p2(sh) + Self::bits_value(s1, sh);
            if v < ft {
                v
            } else {
                ft - 1
            }
        }
    }

    /// The state after `decode_uint(ft)`.
    pub open spec fn uint_next(s: Self, ft: u32) -> Self {
        if Self::uint_bits(ft) <= 8 {
            let t = Self::sym(s, ft);
            Self::step(s, t as u32, (t + 1) as u32, ft)
        } else {
            let sh = (Self::uint_bits(ft) - 8) as nat;
            let rft = Self::uint_top(ft);
            let t = Self::sym(s, rft);
            Self::bits_next(Self::step(s, t as u32, (t + 1) as u32, rft), sh)
        }
    }

    /// The raw bits still available at the back of the frame.
    pub fn raw_bits_left(&self) -> (r: usize)
        requires
            self.wf(),
        ensures
            r == self.raw_room(),
    {
        8 * (self.buffer.len() - self.tail) + self.bits_buffer_size
    }

    /// The bits consumed, rounded up: the bit counter less the bits of the range.
    pub fn tell(&self) -> (r: usize)
        requires
            self.wf(),
        ensures
            r == self.tell_spec(),
            r <= NBITS_CAP,
    {
        proof {
            lemma_p2_values();
            lemma_ilog_le(self.range as nat, 32);
        }
        self.nbits_total - ec_ilog(self.range) as usize
    }

    proof fn lemma_window(r: nat)
        requires
            p2(15) <= r < p2(32),
        ensures
            ilog(r) >= 16,
            ilog(r) <= 32,
            p2(15) <= r / p2((ilog(r) - 16) as nat) < p2(16),
    {
        lemma_ilog_gt(r, 15);
        lemma_ilog_le(r, 32);
        lemma_ilog_bounds(r);
        let l = ilog(r);
        let d = p2((l - 16) as nat);
        lemma_p2_pos((l - 16) as nat);
        lemma_p2_adds((l - 16) as nat, 15);
        lemma_p2_adds((l - 16) as nat, 16);
        assert((l - 16) as nat + 15 == (l - 1) as nat);
        assert((l - 16) as nat + 16 == l);
        vstd::arithmetic::div_mod::lemma_div_is_ordered((d * p2(15)) as int, r as int, d as int);
        vstd::arithmetic::div_mod::lemma_div_multiples_vanish(p2(15) as int, d as int);
        vstd::arithmetic::mul::lemma_mul_is_commutative(d as int, p2(15) as int);
        vstd::arithmetic::div_mod::lemma_multiply_divide_lt(r as int, d as int, p2(16) as int);
    }

    /// The bits consumed in 1/8 bits, rounded up.
    pub fn tell_frac(&self) -> (r: usize)
        requires
            self.wf(),
        ensures
            r == self.tell_frac_spec(),
            r <= 8 * NBITS_CAP,
            8 * self.nbits_total - 263 <= r <= 8 * self.nbits_total,
    {
        proof {
            lemma_p2_values();
            lemma_ilog_le(self.range as nat, 32);
        }
        let mut lg: usize = ec_ilog(self.range) as usize;
        let mut r: u32 = self.range;
        let mut i: usize = 0;
        while i < 3
            invariant
                i <= 3,
                p2(15) <= r,
                lg < 33 * p2(i as nat),
                frac_log_step(r as nat, lg as nat, (3 - i) as nat) == frac_log_step(
                    self.range as nat,
                    ilog(self.range as nat),
                    3,
                ),
            decreases 3 - i,
        {
            proof {
                lemma_p2_values();
                Self::lemma_window(r as nat);
                lemma_p2_mono(i as nat, 3);
                reveal_with_fuel(p2, 4);
            }
            let sh = ec_ilog(r) - 16;
            r = r / pow2_u32(sh);
            assert(r * r < 0x1_0000_0000) by (nonlinear_arith)
                requires
                    r < 0x1_0000,
            ;
            assert(r * r >= 0x4000_0000) by (nonlinear_arith)
                requires
                    r >= 0x8000,
            ;
            r = r * r;
            lg = lg * 2 + (r / 0x8000_0000) as usize;
            i = i + 1;
        }
        proof {
            reveal_with_fuel(p2, 4);
        }
        self.nbits_total * 8 - lg
    }

    /// Finds the symbol of a total `ft`: `ft - min(value / (range / ft) + 1, ft)`, and
    /// keeps `range / ft` for the `update` that follows.
    pub fn decode(&mut self, ft: u32) -> (r: u32)
        requires
            old(self).wf(),
            0 < ft <= old(self).range,
        ensures
            r == Self::sym(*old(self), ft),
            r < ft,
            *final(self) == (EntropyCoder { norm_factor: (old(self).range / ft) as u32, ..*old(self) }),
            final(self).wf(),
    {
        self.norm_factor = self.range / ft;
        assert(self.norm_factor >= 1) by {
            vstd::arithmetic::div_mod::lemma_div_is_ordered(ft as int, self.range as int, ft as int);
            vstd::arithmetic::div_mod::lemma_div_by_self(ft as int);
        }
        let s = self.value / self.norm_factor + 1;
        ft - if s < ft {
            s
        } else {
            ft
        }
    }

    proof fn lemma_update(s: Self, fl: u32, fh: u32, ft: u32)
        requires
            0 < ft <= s.range,
            s.value < s.range,
            fl <= Self::sym(s, ft) < fh <= ft,
        ensures
            ({
                let norm = s.range / ft;
                &&& norm >= 1
                &&& norm * ft <= s.range
                &&& norm * (ft - fh) <= s.value
                &&& fl > 0 ==> s.value - norm * (ft - fh) < norm * (fh - fl)
                &&& fl > 0 ==> norm * (fh - fl) <= s.range
                &&& fl > 0 ==> 0 < norm * (fh - fl)
                &&& norm * (ft - fh) < s.range
            }),
    {
        let norm = s.range / ft;
        let v = s.value as int;
        vstd::arithmetic::div_mod::lemma_div_is_ordered(ft as int, s.range as int, ft as int);
        vstd::arithmetic::div_mod::lemma_div_by_self(ft as int);
        vstd::arithmetic::div_mod::lemma_fundamental_div_mod(s.range as int, ft as int);
        vstd::arithmetic::div_mod::lemma_fundamental_div_mod(v, norm as int);
        vstd::arithmetic::div_mod::lemma_mod_bound(v, norm as int);
        let q = v / (norm as int);
        assert(norm * ft <= s.range) by (nonlinear_arith)
            requires
                s.range == ft * norm + s.range % ft,
                s.range % ft >= 0,
        ;
        if q + 1 < ft {
            assert(Self::sym(s, ft) == ft - (q + 1));
            assert(q >= ft - fh);
            assert(norm * (ft - fh) <= norm * q) by (nonlinear_arith)
                requires
                    q >= ft - fh,
                    norm >= 1,
            ;
            assert(q <= ft - fl - 1);
            assert(norm * q + norm <= norm * (ft - fl)) by (nonlinear_arith)
                requires
                    q <= ft - fl - 1,
                    norm >= 1,
            ;
            assert(norm * (ft - fl) == norm * (ft - fh) + norm * (fh - fl)) by (nonlinear_arith);
            assert(v < norm * (ft - fl));
        } else {
            assert(Self::sym(s, ft) == 0);
            assert(fl == 0);
            assert(norm * (ft - fh) <= norm * q) by (nonlinear_arith)
                requires
                    q >= ft - 1,
                    ft - fh <= ft - 1,
                    norm >= 1,
            ;
        }
        assert(norm * (fh - fl) <= norm * ft) by (nonlinear_arith)
            requires
                fh - fl <= ft,
                norm >= 1,
        ;
        assert(norm * (ft - fh) < norm * ft) by (nonlinear_arith)
            requires
                ft - fh < ft,
                norm >= 1,
        ;
        assert(0 < norm * (fh - fl)) by (nonlinear_arith)
            requires
                fh - fl > 0,
                norm >= 1,
        ;
    }

    /// Narrows the range to the symbol `[fl, fh)` of a total `ft`, after `decode(ft)` found
    /// a symbol in it, and renormalises.
    pub fn update(&mut self, fl: u32, fh: u32, ft: u32)
        requires
            old(self).wf(),
            0 < ft <= old(self).range,
            old(self).norm_factor == old(self).range / ft,
            fl <= Self::sym(*old(self), ft) < fh <= ft,
        ensures
            *final(self) == Self::step(*old(self), fl, fh, ft),
            final(self).wf(),
            final(self).nbits_total >= old(self).nbits_total,
            final(self).nbits_total <= old(self).nbits_total + 24,
            final(self).buffer == old(self).buffer,
            final(self).raw_room() == old(self).raw_room(),
    {
        proof {
            Self::lemma_update(*self, fl, fh, ft);
        }
        let temp = self.norm_factor * (ft - fh);
        self.value = self.value - temp;
        self.range = if fl > 0 {
            self.norm_factor * (fh - fl)
        } else {
            self.range - temp
        };
        self.normalize();
    }

    /// Decodes a symbol from an inverse cumulative table: `r` is the first index with
    /// `fs < 2^ftb - icdf[r]`, where `fs` is what `decode(2^ftb)` finds.
    pub fn decode_icdf(&mut self, icdf: &[u8], ftb: u32) -> (r: u8)
        requires
            old(self).wf(),
            ftb <= 23,
            1 <= icdf@.len() <= 256,
            icdf@[icdf@.len() - 1] == 0,
            icdf@[0] < p2(ftb as nat),
            forall|i: int, j: int| 0 <= i < j < icdf@.len() ==> icdf@[i] >= icdf@[j],
        ensures
            ({
                let ft = p2(ftb as nat);
                let fs = Self::sym(*old(self), ft as u32);
                &&& r < icdf@.len()
                &&& fs < ft - icdf@[r as int]
                &&& r > 0 ==> fs >= ft - icdf@[r - 1]
                &&& *final(self) == Self::step(
                    *old(self),
                    if r > 0 {
                        (ft - icdf@[r - 1]) as u32
                    } else {
                        0
                    },
                    (ft - icdf@[r as int]) as u32,
                    ft as u32,
                )
            }),
            final(self).wf(),
            final(self).nbits_total >= old(self).nbits_total,
            final(self).nbits_total <= old(self).nbits_total + 24,
            final(self).buffer == old(self).buffer,
            final(self).raw_room() == old(self).raw_room(),
    {
        proof {
            lemma_p2_values();
            lemma_p2_mono(ftb as nat, 23);
        }
        let ft = pow2_u32(ftb);
        let fs = self.decode(ft);
        let mut k: usize = 0;
        while fs >= ft - icdf[k] as u32
            invariant
                k < icdf@.len(),
                icdf@[icdf@.len() - 1] == 0,
                fs < ft,
                icdf@[0] < ft,
                forall|i: int, j: int| 0 <= i < j < icdf@.len() ==> icdf@[i] >= icdf@[j],
                k > 0 ==> fs >= ft - icdf@[k - 1],
            decreases icdf@.len() - k,
        {
            k = k + 1;
        }
        let fl: u32 = if k > 0 {
            ft - icdf[k - 1] as u32
        } else {
            0
        };
        let fh = ft - icdf[k] as u32;
        self.update(fl, fh, ft);
        k as u8
    }

    /// Decodes one bit whose probability of being `1` is `2^-logp`.
    pub fn decode_bit_logp(&mut self, logp: u32) -> (r: u8)
        requires
            old(self).wf(),
            1 <= logp <= 23,
        ensures
            r == Self::bit_value(*old(self), logp as nat),
            *final(self) == Self::bit_next(*old(self), logp as nat),
            final(self).wf(),
            final(self).nbits_total >= old(self).nbits_total,
            final(self).nbits_total <= old(self).nbits_total + 24,
            final(self).buffer == old(self).buffer,
            final(self).raw_room() == old(self).raw_room(),
    {
        proof {
            lemma_p2_values();
            lemma_p2_mono(logp as nat, 23);
            lemma_p2_mono(1, logp as nat);
            reveal_with_fuel(p2, 2);
        }
        let ft = pow2_u32(logp);
        let fs = self.decode(ft);
        if fs < ft - 1 {
            self.update(0, ft - 1, ft);
            0
        } else {
            self.update(ft - 1, ft, ft);
            1
        }
    }

    /// Reads `bits` raw bits from the back of the frame, lowest first.
    pub fn decode_bits(&mut self, bits: u32) -> (r: u32)
        requires
            old(self).wf(),
            bits <= 25,
            old(self).raw_room() >= bits,
        ensures
            r == Self::bits_value(*old(self), bits as nat),
            *final(self) == Self::bits_next(*old(self), bits as nat),
            final(self).wf(),
            final(self).nbits_total >= old(self).nbits_total,
            final(self).nbits_total <= old(self).nbits_total + bits,
            final(self).buffer == old(self).buffer,
            final(self).raw_room() == old(self).raw_room() - bits,
            r < p2(bits as nat),
    {
        let ghost raw = self.raw_pos() as nat;
        let ghost j: nat = 0;
        let n = self.buffer.len();
        while self.bits_buffer_size < bits as usize
            invariant
                self.wf(),
                self.raw_pos() == raw,
                raw == old(self).raw_pos(),
                bits <= 25,
                self.tail == old(self).tail + j,
                self.bits_buffer_size == old(self).bits_buffer_size + 8 * j,
                j > 0 ==> old(self).bits_buffer_size + 8 * (j - 1) < bits,
                self.raw_room() >= bits,
                n == self.buffer@.len(),
                self.buffer == old(self).buffer,
                self.head == old(self).head,
                self.range == old(self).range,
                self.value == old(self).value,
                self.remainder == old(self).remainder,
                self.norm_factor == old(self).norm_factor,
                self.nbits_total == old(self).nbits_total,
            decreases bits + 8 - self.bits_buffer_size,
        {
            let ghost t0 = self.tail as nat;
            let ghost bb = self.bits_buffer as nat;
            let ghost sz = self.bits_buffer_size as nat;
            let b = self.read_byte_from_end();
            proof {
                lemma_p2_values();
                lemma_p2_mono(sz, 24);
                lemma_p2_pos(sz);
                lemma_p2_pos(raw);
                lemma_p2_adds(sz, 8);
                lemma_p2_adds(raw, sz);
                assert(8 * t0 == raw + sz);
                assert(byte_at(self.buffer@, self.buffer@.len() - (t0 + 1)) == b);
                let d = p2(raw) as int;
                let m = b as int * p2(sz);
                assert(tail_stream(self.buffer@, t0 + 1) == tail_stream(self.buffer@, t0) + b * p2(8 * t0));
                assert(b * p2(8 * t0) == d * m) by (nonlinear_arith)
                    requires
                        p2(8 * t0) == d * p2(sz),
                        m == b as int * p2(sz),
                ;
                let a = tail_stream(self.buffer@, t0) as int;
                vstd::arithmetic::div_mod::lemma_fundamental_div_mod(a, d);
                vstd::arithmetic::div_mod::lemma_mod_bound(a, d);
                assert(a + d * m == d * (a / d + m) + a % d) by (nonlinear_arith)
                    requires
                        a == d * (a / d) + a % d,
                ;
                vstd::arithmetic::div_mod::lemma_div_multiples_vanish_fancy(a / d + m, a % d, d);
                assert(bb + m < p2(sz + 8)) by (nonlinear_arith)
                    requires
                        bb < p2(sz),
                        b < 256,
                        m == b as int * p2(sz),
                        p2(sz + 8) == p2(sz) * 256,
                ;
            }
            let add = b as u32 * pow2_u32(self.bits_buffer_size as u32);
            self.bits_buffer = self.bits_buffer + add;
            self.bits_buffer_size = self.bits_buffer_size + 8;
            proof {
                j = j + 1;
            }
        }
        let ghost bb = self.bits_buffer as nat;
        let ghost sz = self.bits_buffer_size as nat;
        let ghost ts = tail_stream(self.buffer@, self.tail as nat);
        assert(self.tail == old(self).tail_after(bits as nat));
        let p = pow2_u32(bits);
        proof {
            lemma_p2_pos(bits as nat);
        }
        let ret = self.bits_buffer % p;
        self.bits_buffer = self.bits_buffer / p;
        self.bits_buffer_size = self.bits_buffer_size - bits as usize;
        if self.nbits_total <= NBITS_CAP - bits as usize {
            self.nbits_total = self.nbits_total + bits as usize;
        } else {
            self.nbits_total = NBITS_CAP;
        }
        proof {
            lemma_p2_pos(raw);
            lemma_p2_pos(bits as nat);
            lemma_p2_adds(raw, bits as nat);
            lemma_p2_adds(bits as nat, (sz - bits) as nat);
            vstd::arithmetic::div_mod::lemma_div_denominator(ts as int, p2(raw) as int, p2(bits as nat) as int);
            vstd::arithmetic::div_mod::lemma_multiply_divide_lt(bb as int, p2(bits as nat) as int, p2((sz - bits) as nat) as int);
            vstd::arithmetic::div_mod::lemma_mod_bound(bb as int, p2(bits as nat) as int);
        }
        ret
    }

    /// Decodes an integer uniformly distributed in `[0, ft)`: up to eight bits are range
    /// coded, and the low bits of larger values are read raw.
    pub fn decode_uint(&mut self, ft: u32) -> (r: u32)
        requires
            old(self).wf(),
            ft >= 1,
            Self::uint_bits(ft) > 8 ==> old(self).raw_room() >= Self::uint_bits(ft) - 8,
        ensures
            r == Self::uint_value(*old(self), ft),
            r < ft,
            *final(self) == Self::uint_next(*old(self), ft),
            final(self).wf(),
            final(self).nbits_total >= old(self).nbits_total,
            final(self).nbits_total <= old(self).nbits_total + 48,
            final(self).buffer == old(self).buffer,
            final(self).raw_room() == old(self).raw_room() - (if Self::uint_bits(ft) > 8 {
                Self::uint_bits(ft) - 8
            } else {
                0
            }),
    {
        proof {
            lemma_p2_values();
            lemma_ilog_le((ft - 1) as nat, 32);
            lemma_ilog_bounds((ft - 1) as nat);
        }
        let ftb = ec_ilog(ft - 1);
        if ftb <= 8 {
            proof {
                lemma_p2_mono(ftb as nat, 8);
            }
            let t = self.decode(ft);
            self.update(t, t + 1, ft);
            t
        } else {
            let sh = ftb - 8;
            let p = pow2_u32(sh);
            proof {
                lemma_p2_pos(sh as nat);
                lemma_p2_adds(sh as nat, 8);
                vstd::arithmetic::div_mod::lemma_multiply_divide_lt((ft - 1) as int, p as int, 256);
            }
            let rft = (ft - 1) / p + 1;
            let t = self.decode(rft);
            self.update(t, t + 1, rft);
            proof {
                Self::lemma_norm_iter_keeps(Self::step_pre(*old(self), t, (t + 1) as u32, rft), 3);
            }
            let low = self.decode_bits(sh);
            proof {
                let f: int = ft - 1;
                let pi: int = p as int;
                let ti: int = t as int;
                let e: int = p2((32 - sh) as nat) as int;
                lemma_p2_adds(sh as nat, (32 - sh) as nat);
                vstd::arithmetic::div_mod::lemma_fundamental_div_mod(f, pi);
                vstd::arithmetic::div_mod::lemma_mod_bound(f, pi);
                assert(ti * pi <= f) by (nonlinear_arith)
                    requires
                        ti <= f / pi,
                        f == pi * (f / pi) + f % pi,
                        f % pi >= 0,
                        pi > 0,
                ;
                assert(ti < e) by (nonlinear_arith)
                    requires
                        ti * pi <= f,
                        f < 0x1_0000_0000,
                        pi * e == 0x1_0000_0000,
                        pi > 0,
                ;
                assert(ti * pi + pi <= 0x1_0000_0000) by (nonlinear_arith)
                    requires
                        ti + 1 <= e,
                        pi * e == 0x1_0000_0000,
                        pi > 0,
                ;
            }
            let mut v = t * p + low;
            if v >= ft {
                v = ft - 1;
            }
            v
        }
    }
}

} // verus!
