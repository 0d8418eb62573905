//! A reader of big-endian bit fields from a byte buffer.
use vstd::prelude::*;
use vstd::arithmetic::power2::{pow2, lemma_pow2_unfold, lemma_pow2_pos, lemma_pow2_adds};
use vstd::arithmetic::div_mod::lemma_mod_multiples_basic;
use vstd::bits::{lemma_u32_shl_is_mul, lemma_u32_pow2_no_overflow};

verus! {

// ---------------------------------------------------------------------------
// The bit model of a byte buffer: bit 0 is the most significant bit of byte 0.
// ---------------------------------------------------------------------------

/// Bit `i` of the stream `data` (0 or 1), counting from the most significant bit of `data[0]`.
pub open spec fn bit_at(data: Seq<u8>, i: int) -> nat {
    (((data[i / 8] as u32) >> ((7 - i % 8) as u32)) & 1u32) as nat
}

/// The unsigned number whose binary digits, most significant first, are
/// the `n` bits of `data` that start at bit `pos`.
pub open spec fn bits_value(data: Seq<u8>, pos: int, n: nat) -> nat
    decreases n,
{
    if n == 0 {
        0
    } else {
        2 * bits_value(data, pos, (n - 1) as nat) + bit_at(data, pos + n - 1)
    }
}

/// The mask of the `k` lowest bits of a 32-bit word.
pub open spec fn mask32(k: u32) -> u32 {
    ((1u32 << k) - 1u32) as u32
}

/// What a reader with the given `limit` yields for `n` bits at `pos`: the field
/// when it ends within the limit, 0 otherwise.
pub open spec fn rd(data: Seq<u8>, limit: u32, pos: int, n: nat) -> u32 {
    if pos + n <= limit {
        bits_value(data, pos, n) as u32
    } else {
        0
    }
}

/// A field of at most 32 bits is less than 2 to its width, also when read past the limit.
pub proof fn lemma_rd_bound(data: Seq<u8>, limit: u32, pos: int, n: nat)
    requires
        n <= 32,
    ensures
        (rd(data, limit, pos, n) as nat) < pow2(n),
        pos + n <= limit ==> rd(data, limit, pos, n) as nat == bits_value(data, pos, n),
{
    lemma_bits_value_bound(data, pos, n);
    lemma_pow2_le_32(n);
    lemma_pow2_pos(n);
}

/// The `k` bits of byte `b` that start at bit `t` counted from the least significant end.
pub open spec fn byte_bits(b: u8, t: u32, k: u32) -> nat {
    (((b as u32) >> t) & mask32(k)) as nat
}

/// An `n`-bit field is less than 2 to the `n`.
pub proof fn lemma_bits_value_bound(data: Seq<u8>, pos: int, n: nat)
    ensures
        bits_value(data, pos, n) < pow2(n),
    decreases n,
{
    if n > 0 {
        lemma_bits_value_bound(data, pos, (n - 1) as nat);
        lemma_pow2_unfold(n);
        assert(bit_at(data, pos + n - 1) <= 1) by {
            let x = data[(pos + n - 1) / 8] as u32;
            let t = (7 - (pos + n - 1) % 8) as u32;
            assert((x >> t) & 1u32 <= 1u32) by (bit_vector);
        }
    } else {
        vstd::arithmetic::power2::lemma2_to64();
    }
}

/// Reading `x` bits and then the `y` bits after them gives the digits of
/// reading `x + y` bits at once.
pub proof fn lemma_bits_value_concat(data: Seq<u8>, pos: int, x: nat, y: nat)
    ensures
        bits_value(data, pos, x + y) == bits_value(data, pos, x) * pow2(y) + bits_value(
            data,
            pos + x,
            y,
        ),
    decreases y,
{
    if y == 0 {
        assert(pow2(0) == 1) by {
            vstd::arithmetic::power2::lemma2_to64();
        }
    } else {
        lemma_bits_value_concat(data, pos, x, (y - 1) as nat);
        lemma_pow2_unfold(y);
        let a = bits_value(data, pos, x);
        let b = bits_value(data, pos + x, (y - 1) as nat);
        let p = pow2((y - 1) as nat);
        assert(bits_value(data, pos, (x + y) as nat) == 2 * bits_value(data, pos, (x + y - 1) as nat)
            + bit_at(data, pos + x + y - 1));
        assert(2 * (a * p + b) == a * (2 * p) + 2 * b) by (nonlinear_arith);
    }
}

/// Within the limit, reading `x` bits and then the `y` bits after them gives
/// the digits of one read of `x + y` bits.
pub proof fn lemma_rd_concat(data: Seq<u8>, limit: u32, pos: int, x: nat, y: nat)
    requires
        x + y <= 32,
        pos + x + y <= limit,
    ensures
        rd(data, limit, pos, x + y) == rd(data, limit, pos, x) * pow2(y) + rd(data, limit, pos + x, y),
{
    lemma_bits_value_concat(data, pos, x, y);
    lemma_bits_value_bound(data, pos, x);
    lemma_bits_value_bound(data, pos + x, y);
    lemma_bits_value_bound(data, pos, x + y);
    lemma_pow2_le_32(x);
    lemma_pow2_le_32(y);
    lemma_pow2_le_32(x + y);
}

/// Eight bits read at a byte boundary within the limit are that byte, and a
/// single bit is the byte's bit counted from its most significant end.
pub proof fn lemma_rd_byte(data: Seq<u8>, limit: u32, j: int, t: int)
    requires
        0 <= j < data.len(),
        0 <= t < 8,
        8 * j + 8 <= limit,
    ensures
        rd(data, limit, 8 * j, 8) == data[j],
        rd(data, limit, 8 * j + t, 1) == (data[j] >> ((7 - t) as u8)) & 1,
{
    lemma_bits_in_byte(data, j, 0, 8);
    lemma_bits_in_byte(data, j, t, 1);
    let b = data[j];
    let tt = (7 - t) as u32;
    assert((((b as u32) >> 0u32) & mask32(8u32)) == b as u32) by (bit_vector);
    assert(tt < 8 ==> (((b as u32) >> tt) & mask32(1u32)) == ((b >> (tt as u8)) & 1u8) as u32) by (bit_vector);
}

/// The bits of a stream that lie in one byte are a field of that byte.
pub proof fn lemma_bits_in_byte(data: Seq<u8>, j: int, s: int, k: int)
    requires
        0 <= j < data.len(),
        0 <= s,
        0 <= k,
        s + k <= 8,
    ensures
        bits_value(data, 8 * j + s, k as nat) == byte_bits(data[j], (8 - s - k) as u32, k as u32),
    decreases k,
{
    let x = data[j] as u32;
    if k == 0 {
        let t = (8 - s) as u32;
        assert((x >> t) & mask32(0u32) == 0u32) by (bit_vector);
    } else {
        lemma_bits_in_byte(data, j, s, k - 1);
        let i = 8 * j + s + k - 1;
        assert(i / 8 == j && i % 8 == s + k - 1);
        let t = (8 - s - k) as u32;
        let kk = (k - 1) as u32;
        assert(x < 256 && t + kk + 1 <= 8 ==> ((x >> t) & mask32((kk + 1) as u32)) == 2 * ((x >> (
        (t + 1) as u32)) & mask32(kk)) + ((x >> t) & 1u32)) by (bit_vector);
    }
}

/// A cursor over the bits of a byte buffer: `pos` is the next bit to read,
/// `limit` the number of bits that may be read.
#[allow(non_camel_case_types)]
#[derive(Clone, Copy)]
pub struct Bs_t<'a> {
    buf: &'a [u8],
    pos: u32,
    limit: u32,
}

impl<'a> Bs_t<'a> {
    /// The bytes read from.
    pub closed spec fn data(&self) -> Seq<u8> {
        self.buf@
    }

    /// The position of the next bit to read.
    pub closed spec fn spec_pos(&self) -> u32 {
        self.pos
    }

    /// The number of bits that may be read.
    pub closed spec fn spec_limit(&self) -> u32 {
        self.limit
    }

    /// A reader at the start of `data` that may read its first `bytes` bytes.
    pub fn new(data: &'a [u8], bytes: u32) -> (bs: Self)
        requires
            bytes * 8 <= u32::MAX,
        ensures
            bs.data() == data@,
            bs.spec_pos() == 0,
            bs.spec_limit() == bytes * 8,
    {
        Bs_t { buf: data, pos: 0, limit: bytes * 8 }
    }

    /// The position of the next bit to read.
    pub fn pos(&self) -> (r: u32)
        ensures
            r == self.spec_pos(),
    {
        self.pos
    }

    /// The number of bits that may be read.
    pub fn limit(&self) -> (r: u32)
        ensures
            r == self.spec_limit(),
    {
        self.limit
    }

    /// The number of bytes in the buffer read from.
    pub fn buf_len(&self) -> (r: usize)
        ensures
            r == self.data().len(),
    {
        self.buf.len()
    }

    /// Reads the next `n` bits as a big-endian number and moves past them.
    /// Past the limit it still moves, and returns 0.
    pub fn get_bits(&mut self, n: u32) -> (r: u32)
        requires
            n <= 32 || old(self).spec_pos() + n > old(self).spec_limit(),
            old(self).spec_pos() + n <= u32::MAX,
            old(self).spec_pos() + n <= old(self).spec_limit() ==> old(self).spec_pos() + n <= 8
                * old(self).data().len(),
        ensures
            final(self).data() == old(self).data(),
            final(self).spec_limit() == old(self).spec_limit(),
            final(self).spec_pos() == old(self).spec_pos() + n,
            r == (if old(self).spec_pos() + n <= old(self).spec_limit() {
                bits_value(old(self).data(), old(self).spec_pos() as int, n as nat)
            } else {
                0
            }),
            (r as nat) < pow2(n as nat),
            r == rd(old(self).data(), old(self).spec_limit(), old(self).spec_pos() as int, n as nat),
    {
        let p0 = self.pos;
        let ghost data = self.buf@;
        proof {
            lemma_pow2_pos(n as nat);
            if n <= 32 {
                lemma_rd_bound(data, self.limit, p0 as int, n as nat);
            }
        }
        self.pos += n;
        if self.pos > self.limit {
            return 0;
        }
        if n == 0 {
            return 0;
        }
        let s: u32 = p0 & 7;
        let start: usize = (p0 >> 3) as usize;
        proof {
            assert(p0 & 7u32 == p0 % 8 && p0 >> 3u32 == p0 / 8) by (bit_vector);
        }
        let b0 = self.buf[start];
        let mut next: u32 = (b0 & (255u8 >> s)) as u32;
        proof {
            assert(s < 8 ==> (b0 & (255u8 >> s)) as u32 == ((b0 as u32) >> 0u32) & mask32((8 - s) as u32))
                by (bit_vector);
            lemma_bits_in_byte(data, start as int, s as int, 8 - s);
        }
        let mut shl: i32 = (n + s) as i32 - 8;
        let mut cache: u32 = 0;
        let mut i: usize = start + 1;
        let ghost mut w: int = 8 - s;
        proof {
            vstd::arithmetic::power2::lemma2_to64();
            assert((8 * (i - start) - s - w) as nat == 0);
            assert(bits_value(data, p0 as int, 0) == 0);
            assert(0 * pow2((shl + w) as nat) == 0);
        }
        while shl > 0
            invariant
                data == self.buf@,
                p0 as int == 8 * start + s,
                s < 8,
                1 <= n <= 32,
                p0 + n <= 8 * data.len(),
                start + 1 <= i,
                1 <= w <= 8,
                i == start + 1 ==> w == 8 - s,
                i > start + 1 ==> w == 8,
                shl == n - (8 * (i - start) - s),
                shl > -w,
                next as nat == bits_value(data, p0 + 8 * (i - start) - s - w, w as nat),
                cache as nat == bits_value(data, p0 as int, (8 * (i - start) - s - w) as nat) * pow2(
                    (shl + w) as nat,
                ),
            decreases shl + 8,
        {
            let ghost bcnt: int = 8 * (i - start) - s;
            proof {
                lemma_bits_value_bound(data, p0 + bcnt - w, w as nat);
                lemma_pow2_adds(w as nat, shl as nat);
                lemma_pow2_pos(shl as nat);
                assert(next * pow2(shl as nat) < pow2(w as nat) * pow2(shl as nat)) by (nonlinear_arith)
                    requires
                        next < pow2(w as nat),
                        pow2(shl as nat) > 0,
                ;
                assert(shl + w <= n);
                lemma_pow2_le_32((shl + w) as nat);
                lemma_u32_shl_is_mul(next, shl as u32);
            }
            let y: u32 = next << (shl as u32);
            proof {
                let m = (shl + w) as nat;
                let a = bits_value(data, p0 as int, (bcnt - w) as nat);
                lemma_or_is_add(cache, y, m, a);
                lemma_bits_value_concat(data, p0 as int, (bcnt - w) as nat, w as nat);
                lemma_pow2_adds(w as nat, shl as nat);
                assert(a * pow2(m) + next * pow2(shl as nat) == (a * pow2(w as nat) + next) * pow2(
                    shl as nat,
                )) by (nonlinear_arith)
                    requires
                        pow2(m) == pow2(w as nat) * pow2(shl as nat),
                ;
                assert(i < data.len());
                lemma_bits_in_byte(data, i as int, 0, 8);
                let xb = data[i as int] as u32;
                assert((xb >> 0u32) & mask32(8u32) == xb) by (bit_vector)
                    requires
                        xb < 256,
                ;
            }
            cache = cache | y;
            next = self.buf[i] as u32;
            shl -= 8;
            i += 1;
            proof {
                w = 8;
            }
        }
        let d: u32 = (-shl) as u32;
        let ghost bcnt: int = 8 * (i - start) - s;
        proof {
            let j = i - 1;
            let b = data[j as int];
            let xb = b as u32;
            let sj = 8 - w;
            assert(p0 + bcnt - w == 8 * j + sj);
            lemma_bits_in_byte(data, j as int, sj, w);
            let ww = w as u32;
            assert(d < ww && ww <= 8 && xb < 256 ==> ((xb >> 0u32) & mask32(ww)) >> d == (xb >> d)
                & mask32((ww - d) as u32)) by (bit_vector);
            lemma_bits_in_byte(data, j as int, sj, w - d);
            lemma_u32_shr_is_div_bound(next, d);
        }
        let z: u32 = next >> d;
        proof {
            let m = (w - d) as nat;
            let a = bits_value(data, p0 as int, (bcnt - w) as nat);
            lemma_bits_value_bound(data, p0 + bcnt - w, m);
            lemma_pow2_le_32(m);
            lemma_or_is_add(cache, z, m, a);
            lemma_bits_value_concat(data, p0 as int, (bcnt - w) as nat, m);
            lemma_bits_value_bound(data, p0 as int, n as nat);
        }
        cache | z
    }
}

/// 2 to the `m` is at most 2 to the 32 for `m` up to 32.
proof fn lemma_pow2_le_32(m: nat)
    requires
        m <= 32,
    ensures
        pow2(m) <= pow2(32),
        pow2(32) == 0x1_0000_0000,
{
    vstd::arithmetic::power2::lemma2_to64();
    if m < 32 {
        vstd::arithmetic::power2::lemma_pow2_strictly_increases(m, 32);
    }
}

/// Shifting right never grows a number.
proof fn lemma_u32_shr_is_div_bound(x: u32, d: u32)
    ensures
        x >> d <= x,
{
    assert(x >> d <= x) by (bit_vector);
}

/// OR of a multiple of 2 to the `m` with a number below 2 to the `m` is their sum.
proof fn lemma_or_is_add(c: u32, y: u32, m: nat, a: nat)
    requires
        m <= 32,
        c as nat == a * pow2(m),
        (y as nat) < pow2(m),
    ensures
        (c | y) as nat == c + y,
{
    lemma_pow2_le_32(m);
    if m == 32 {
        assert(a == 0) by (nonlinear_arith)
            requires
                a * pow2(m) <= 0xffff_ffff,
                pow2(m) == 0x1_0000_0000,
        ;
        assert(c == 0);
        assert(0u32 | y == y) by (bit_vector);
    } else {
        let mm = m as u32;
        lemma_u32_pow2_no_overflow(m);
        lemma_u32_shl_is_mul(1u32, mm);
        lemma_mod_multiples_basic(a as int, pow2(m) as int);
        assert((c as nat) % pow2(m) == 0);
        assert(mm < 32 && c % (1u32 << mm) == 0 && y < (1u32 << mm) ==> c | y == c + y) by (bit_vector);
    }
}

} // verus!
