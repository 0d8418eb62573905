//! Layers I and II: the bit allocation of the subbands and the scale-factor
//! side information that precedes the samples.
use vstd::prelude::*;
use crate::bitstream::{Bs_t, rd, lemma_rd_bound};
use vstd::arithmetic::power2::pow2;
use crate::hdr::{
    Hdr,
    spec_bitrate_kbps,
    spec_has_bitrate,
    spec_is_layer_1,
    spec_is_mpeg1,
    spec_sample_rate,
    spec_stereo_mode,
    spec_stereo_mode_ext,
};

verus! {

/// Channel mode: single channel.
pub const MODE_MONO: u8 = 3;
/// Channel mode: joint stereo.
pub const MODE_JOINT_STEREO: u8 = 1;

/// A run of subbands that share one bit-allocation table: the table starts at
/// `tab_offset` in the code table, its codes are `code_tab_width` bits wide, and
/// it serves the next `band_count` subbands.
#[derive(Clone, Copy, Debug, PartialEq, Eq, Structural)]
pub struct L12SubbandAlloc_t {
    pub tab_offset: u8,
    pub code_tab_width: u8,
    pub band_count: u8,
}

/// The allocation entry with the given offset, width and band count.
pub open spec fn sub_alloc(tab_offset: u8, code_tab_width: u8, band_count: u8) -> L12SubbandAlloc_t {
    L12SubbandAlloc_t { tab_offset, code_tab_width, band_count }
}

/// Allocation of layer I.
pub open spec fn alloc_l1() -> Seq<L12SubbandAlloc_t> {
    seq![sub_alloc(76, 4, 32)]
}

/// Allocation of layer II in MPEG-2 and MPEG-2.5.
pub open spec fn alloc_l2m2() -> Seq<L12SubbandAlloc_t> {
    seq![sub_alloc(60, 4, 4), sub_alloc(44, 3, 7), sub_alloc(44, 2, 19)]
}

/// Allocation of layer II in MPEG-1.
pub open spec fn alloc_l2m1() -> Seq<L12SubbandAlloc_t> {
    seq![sub_alloc(0, 4, 3), sub_alloc(16, 4, 8), sub_alloc(32, 3, 12), sub_alloc(40, 2, 7)]
}

/// Allocation of layer II in MPEG-1 below 56 kbit/s per channel.
pub open spec fn alloc_l2m1_lowrate() -> Seq<L12SubbandAlloc_t> {
    seq![sub_alloc(44, 4, 2), sub_alloc(44, 3, 10)]
}

/// The bitrate per channel that selects the MPEG-1 layer II table: the frame's
/// bitrate, halved unless mono; free format counts as 192.
pub open spec fn spec_l12_kbps(h: Seq<u8>) -> u32 {
    let k = spec_bitrate_kbps(h) >> (if spec_stereo_mode(h) != MODE_MONO { 1u32 } else { 0u32 });
    if k == 0 {
        192
    } else {
        k
    }
}

/// The allocation table for a header.
pub open spec fn spec_l12_alloc(h: Seq<u8>) -> Seq<L12SubbandAlloc_t> {
    if spec_is_layer_1(h) {
        alloc_l1()
    } else if !spec_is_mpeg1(h) {
        alloc_l2m2()
    } else if spec_l12_kbps(h) < 56 {
        alloc_l2m1_lowrate()
    } else {
        alloc_l2m1()
    }
}

/// The number of subbands that carry samples.
pub open spec fn spec_l12_nbands(h: Seq<u8>) -> u8 {
    if spec_is_layer_1(h) {
        32
    } else if !spec_is_mpeg1(h) {
        30
    } else if spec_l12_kbps(h) < 56 {
        if spec_sample_rate(h) == 2 {
            12
        } else {
            8
        }
    } else if spec_l12_kbps(h) >= 96 && spec_sample_rate(h) != 1 {
        30
    } else {
        27
    }
}

/// The number of subbands coded per channel, before the limit to `nbands`: none
/// in mono, the mode extension shifted up six bits in joint stereo, all 32 otherwise.
pub open spec fn l12_stereo_bands_raw(h: Seq<u8>) -> u8 {
    let mode = spec_stereo_mode(h);
    if mode == MODE_MONO {
        0
    } else if mode == MODE_JOINT_STEREO {
        spec_stereo_mode_ext(h) << 6u8
    } else {
        32
    }
}

/// The number of subbands coded per channel, at most `nbands`.
pub open spec fn spec_l12_stereo_bands(h: Seq<u8>) -> u8 {
    let s = l12_stereo_bands_raw(h);
    let n = spec_l12_nbands(h);
    if s < n {
        s
    } else {
        n
    }
}

impl L12SubbandAlloc_t {
    /// The allocation table of the frame, the number of subbands that carry
    /// samples, and how many of them are coded separately for each channel.
    pub fn new(hdr: &Hdr) -> (r: (Vec<L12SubbandAlloc_t>, u8, u8))
        requires
            !spec_is_layer_1(hdr@) && spec_is_mpeg1(hdr@) ==> spec_has_bitrate(hdr@),
        ensures
            r.0@ == spec_l12_alloc(hdr@),
            r.1 == spec_l12_nbands(hdr@),
            r.2 == spec_l12_stereo_bands(hdr@),
    {
        let mode = hdr.get_stereo_mode();
        let stereo_bands: u8 = if mode == MODE_MONO {
            0
        } else if mode == MODE_JOINT_STEREO {
            hdr.get_stereo_mode_ext() << 6u8
        } else {
            32
        };

        let mut alloc: Vec<L12SubbandAlloc_t> = Vec::new();
        let nbands: u8;
        if hdr.is_layer_1() {
            alloc.push(L12SubbandAlloc_t { tab_offset: 76, code_tab_width: 4, band_count: 32 });
            nbands = 32;
        } else if hdr.test_mpeg1() == 0 {
            alloc.push(L12SubbandAlloc_t { tab_offset: 60, code_tab_width: 4, band_count: 4 });
            alloc.push(L12SubbandAlloc_t { tab_offset: 44, code_tab_width: 3, band_count: 7 });
            alloc.push(L12SubbandAlloc_t { tab_offset: 44, code_tab_width: 2, band_count: 19 });
            nbands = 30;
        } else {
            let sample_rate_idx = hdr.get_sample_rate();
            let mut kbps = hdr.bitrate_kbps() >> (mode != MODE_MONO) as u32;
            if kbps == 0 {
                kbps = 192;
            }
            if kbps < 56 {
                alloc.push(L12SubbandAlloc_t { tab_offset: 44, code_tab_width: 4, band_count: 2 });
                alloc.push(L12SubbandAlloc_t { tab_offset: 44, code_tab_width: 3, band_count: 10 });
                nbands = if sample_rate_idx == 2 { 12 } else { 8 };
            } else {
                alloc.push(L12SubbandAlloc_t { tab_offset: 0, code_tab_width: 4, band_count: 3 });
                alloc.push(L12SubbandAlloc_t { tab_offset: 16, code_tab_width: 4, band_count: 8 });
                alloc.push(L12SubbandAlloc_t { tab_offset: 32, code_tab_width: 3, band_count: 12 });
                alloc.push(L12SubbandAlloc_t { tab_offset: 40, code_tab_width: 2, band_count: 7 });
                nbands = if kbps >= 96 && sample_rate_idx != 1 { 30 } else { 27 };
            }
        }
        proof {
            assert(alloc@ =~= spec_l12_alloc(hdr@));
        }
        let limited = if stereo_bands < nbands { stereo_bands } else { nbands };
        (alloc, nbands, limited)
    }
}

// ---------------------------------------------------------------------------
// Scale factors.
// ---------------------------------------------------------------------------

/// A layer I/II scale factor as the product of an entry of the dequantization
/// table and a power of two: `DEQ_L12[deq_index] * multiplier`; a multiplier of 0
/// stands for a scale factor of zero.
#[derive(Clone, Copy, Debug, PartialEq, Eq, Structural)]
pub struct L12ScfCode {
    pub deq_index: u8,
    pub multiplier: u32,
}

/// Which of the (up to two) 6-bit scale-factor codes of a band are present: bit 1
/// for the first, bit 0 for the second; none when the band has no bits allocated.
pub open spec fn l12_scf_mask(ba: u8, cod: u8) -> u32 {
    if ba != 0 {
        (19u32 >> cod) & 3u32
    } else {
        0
    }
}

/// Bits of scale-factor codes a band carries.
pub open spec fn l12_scf_bits(ba: u8, cod: u8) -> nat {
    let m = l12_scf_mask(ba, cod);
    (if m & 2u32 != 0 { 6nat } else { 0nat }) + (if m & 1u32 != 0 { 6nat } else { 0nat })
}

/// Bit position of the scale-factor codes of band `i` when those of band 0 start at `p0`.
pub open spec fn l12_scf_pos(pba: Seq<u8>, cod: Seq<u8>, p0: int, i: int) -> int
    decreases i,
{
    if i <= 0 {
        p0
    } else {
        l12_scf_pos(pba, cod, p0, i - 1) + l12_scf_bits(pba[i - 1], cod[i - 1])
    }
}

/// The scale factor a band keeps: the last code it carries, read at `p`, split
/// into the table row (`3 * ba - 6` plus the code mod 3) and the power of two
/// `2^(21 - code / 3)`; zero when the second code is absent.
pub open spec fn l12_scf_value(data: Seq<u8>, limit: u32, p: int, ba: u8, cod: u8) -> L12ScfCode {
    let m = l12_scf_mask(ba, cod);
    if m & 1u32 != 0 {
        let b = rd(data, limit, p + (if m & 2u32 != 0 { 6int } else { 0int }), 6);
        L12ScfCode {
            deq_index: (3 * ba - 6 + b % 3) as u8,
            multiplier: pow2((21 - b / 3) as nat) as u32,
        }
    } else {
        L12ScfCode { deq_index: 0, multiplier: 0 }
    }
}

/// The codes of a band with bits allocated select a row of the table: its
/// allocation lies between 2 and 19.
pub open spec fn l12_scf_rows_ok(pba: Seq<u8>, cod: Seq<u8>, n: int) -> bool {
    forall|i: int|
        0 <= i < n ==> (#[trigger] pba[i] != 0 ==> cod[i] < 32) && (l12_scf_mask(pba[i], cod[i]) != 0
            ==> 2 <= pba[i] <= 19)
}

/// The reader can take `bits` more bits without its position overflowing and
/// without running past its buffer.
pub open spec fn bits_available(bs: Bs_t, bits: int) -> bool {
    &&& bs.spec_pos() + bits <= u32::MAX
    &&& bs.spec_limit() <= 8 * bs.data().len() || bs.spec_pos() + bits <= 8 * bs.data().len()
}

proof fn lemma_scf_pos_shift(pba: Seq<u8>, cod: Seq<u8>, p0: int, i: int)
    ensures
        l12_scf_pos(pba, cod, p0, i) == p0 + l12_scf_pos(pba, cod, 0, i),
    decreases i,
{
    if i > 0 {
        lemma_scf_pos_shift(pba, cod, p0, i - 1);
    }
}

proof fn lemma_scf_pos_mono(pba: Seq<u8>, cod: Seq<u8>, p0: int, i: int, j: int)
    requires
        0 <= i <= j,
    ensures
        l12_scf_pos(pba, cod, p0, i) <= l12_scf_pos(pba, cod, p0, j),
    decreases j - i,
{
    if i < j {
        lemma_scf_pos_mono(pba, cod, p0, i, j - 1);
    }
}

/// Reads the scale factors of `scfcod.len()` bands: for band `i`, with
/// `pba[i]` bits allocated and scale-factor coding `scfcod[i]`, up to two 6-bit
/// codes; the band keeps the last one, as a table row and a power of two.
#[allow(non_snake_case)]
pub fn L12_read_scalefactors(bs: &mut Bs_t, pba: &[u8], scfcod: &[u8], scf: &mut [L12ScfCode])
    requires
        old(scf)@.len() >= scfcod@.len(),
        pba@.len() >= scfcod@.len(),
        l12_scf_rows_ok(pba@, scfcod@, scfcod@.len() as int),
        bits_available(
            *old(bs),
            l12_scf_pos(pba@, scfcod@, 0, scfcod@.len() as int),
        ),
    ensures
        ({
            let data = old(bs).data();
            let limit = old(bs).spec_limit();
            let p0 = old(bs).spec_pos() as int;
            let n = scfcod@.len() as int;
            &&& final(bs).data() == data
            &&& final(bs).spec_limit() == limit
            &&& final(bs).spec_pos() == l12_scf_pos(pba@, scfcod@, p0, n)
            &&& final(scf)@.len() == old(scf)@.len()
            &&& forall|i: int|
                0 <= i < n ==> #[trigger] final(scf)@[i] == l12_scf_value(
                    data,
                    limit,
                    l12_scf_pos(pba@, scfcod@, p0, i),
                    pba@[i],
                    scfcod@[i],
                )
            &&& forall|i: int| n <= i < old(scf)@.len() ==> #[trigger] final(scf)@[i] == old(scf)@[i]
        }),
{
    let ghost data = bs.data();
    let ghost limit = bs.spec_limit();
    let ghost p0 = bs.spec_pos() as int;
    let ghost scf0 = scf@;
    let n = scfcod.len();
    proof {
        lemma_scf_pos_shift(pba@, scfcod@, p0, n as int);
    }
    for i in 0..n
        invariant
            n == scfcod@.len(),
            n <= pba@.len(),
            scf@.len() == scf0.len(),
            n <= scf0.len(),
            l12_scf_rows_ok(pba@, scfcod@, n as int),
            bs.data() == data,
            bs.spec_limit() == limit,
            bs.spec_pos() == l12_scf_pos(pba@, scfcod@, p0, i as int),
            l12_scf_pos(pba@, scfcod@, p0, n as int) <= u32::MAX,
            limit <= 8 * data.len() || l12_scf_pos(pba@, scfcod@, p0, n as int) <= 8 * data.len(),
            forall|t: int|
                0 <= t < i ==> #[trigger] scf@[t] == l12_scf_value(
                    data,
                    limit,
                    l12_scf_pos(pba@, scfcod@, p0, t),
                    pba@[t],
                    scfcod@[t],
                ),
            forall|t: int| i <= t < scf0.len() ==> #[trigger] scf@[t] == scf0[t],
    {
        let ghost p = bs.spec_pos() as int;
        proof {
            lemma_scf_pos_mono(pba@, scfcod@, p0, i + 1, n as int);
        }
        let ba = pba[i];
        let cod = scfcod[i];
        let mask: u32 = if ba != 0 { (19u32 >> cod) & 3 } else { 0 };
        let mut dst = L12ScfCode { deq_index: 0, multiplier: 0 };
        proof {
            assert(mask & 4u32 == 0) by (bit_vector)
                requires
                    mask == 0 || mask == (19u32 >> cod) & 3u32,
            ;
        }
        let mut m: u32 = 4;
        while m > 0
            invariant
                m == 4 || m == 2 || m == 1 || m == 0,
                mask & 4u32 == 0,
                mask == l12_scf_mask(ba, cod),
                mask != 0 ==> 2 <= ba <= 19,
                bs.data() == data,
                bs.spec_limit() == limit,
                bs.spec_pos() == p + (if m < 2 && mask & 2u32 != 0 { 6int } else { 0int }) + (if m < 1
                    && mask & 1u32 != 0 { 6int } else { 0int }),
                p + l12_scf_bits(ba, cod) <= u32::MAX,
                limit <= 8 * data.len() || p + l12_scf_bits(ba, cod) <= 8 * data.len(),
                m == 0 ==> dst == l12_scf_value(data, limit, p, ba, cod),
            decreases m,
        {
            if mask & m != 0 {
                proof {
                    assert(mask != 0) by (bit_vector)
                        requires
                            mask & m != 0,
                    ;
                }
                let b = bs.get_bits(6);
                proof {
                    lemma_rd_bound(data, limit, bs.spec_pos() - 6, 6);
                    vstd::arithmetic::power2::lemma2_to64();
                }
                let index = ba as u32 * 3 - 6 + b % 3;
                let q = b / 3;
                proof {
                    let sh = (21 - q) as u32;
                    assert(q <= 21 ==> (1u32 << 21u32) >> q == 1u32 << sh) by (bit_vector)
                        requires
                            sh == 21 - q,
                    ;
                    vstd::bits::lemma_u32_shl_is_mul(1, sh);
                    vstd::arithmetic::power2::lemma_pow2_pos(sh as nat);
                }
                dst = L12ScfCode { deq_index: index as u8, multiplier: (1u32 << 21) >> q };
            } else {
                dst = L12ScfCode { deq_index: 0, multiplier: 0 };
            }
            m = m / 2;
        }
        scf[i] = dst;
    }
}

/// Tells whether the allocations and codings of the bands select rows of the
/// table and whether the reader can take their scale-factor codes, as
/// `L12_read_scalefactors` needs.
#[allow(non_snake_case)]
pub fn L12_scalefactors_fit(bs: &Bs_t, pba: &[u8], scfcod: &[u8]) -> (r: bool)
    requires
        pba@.len() >= scfcod@.len(),
    ensures
        r == (l12_scf_rows_ok(pba@, scfcod@, scfcod@.len() as int) && bits_available(
            *bs,
            l12_scf_pos(pba@, scfcod@, 0, scfcod@.len() as int),
        )),
{
    let n = scfcod.len();
    let mut bits: u64 = 0;
    for i in 0..n
        invariant
            n == scfcod@.len(),
            n <= pba@.len(),
            bits == l12_scf_pos(pba@, scfcod@, 0, i as int),
            bits <= 0xffff_ffff,
            l12_scf_rows_ok(pba@, scfcod@, i as int),
    {
        let ba = pba[i];
        let cod = scfcod[i];
        if ba != 0 && cod >= 32 {
            return false;
        }
        let mask: u32 = if ba != 0 { (19u32 >> cod) & 3 } else { 0 };
        if mask != 0 && !(2 <= ba && ba <= 19) {
            return false;
        }
        if mask & 2 != 0 {
            bits += 6;
        }
        if mask & 1 != 0 {
            bits += 6;
        }
        if bits > 0xffff_ffff {
            proof {
                lemma_scf_pos_mono(pba@, scfcod@, 0, i + 1, n as int);
            }
            return false;
        }
    }
    let pos = bs.pos() as u128;
    let lim = bs.limit() as u128;
    let len = bs.buf_len() as u128;
    pos + bits as u128 <= 0xffff_ffff && (lim <= 8 * len || pos + bits as u128 <= 8 * len)
}

// ---------------------------------------------------------------------------
// The scale-factor side information of a frame.
// ---------------------------------------------------------------------------

/// The side information of a layer I/II frame. Entry `2 * i + ch` of `bitalloc`
/// and `scfcod` belongs to subband `i` and channel `ch`.
pub struct L12ScaleInfo {
    /// The scale factors read for the first `total_bands` entries.
    pub scf: [L12ScfCode; 192],
    /// Subbands that carry samples.
    pub total_bands: u8,
    /// Subbands coded separately for each channel.
    pub stereo_bands: u8,
    /// Bits allocated to each subband and channel (0: none).
    pub bitalloc: [u8; 64],
    /// How the scale factors of each subband and channel are coded.
    pub scfcod: [u8; 64],
}

/// The bit-allocation code tables, one after another; an allocation group's
/// `tab_offset` says where its table starts.
pub open spec fn bitalloc_code_tab() -> Seq<u8> {
    seq![
        0u8, 17, 3, 4, 5, 6, 7, 8, 9, 10, 11, 12, 13, 14, 15, 16,
        0, 17, 18, 3, 19, 4, 5, 6, 7, 8, 9, 10, 11, 12, 13, 16,
        0, 17, 18, 3, 19, 4, 5, 16,
        0, 17, 18, 16,
        0, 17, 18, 19, 4, 5, 6, 7, 8, 9, 10, 11, 12, 13, 14, 15,
        0, 17, 18, 3, 19, 4, 5, 6, 7, 8, 9, 10, 11, 12, 13, 14,
        0, 2, 3, 4, 5, 6, 7, 8, 9, 10, 11, 12, 13, 14, 15, 16
    ]
}

/// The first subband of group `g` of an allocation table.
pub open spec fn alloc_start(alloc: Seq<L12SubbandAlloc_t>, g: int) -> int
    decreases g,
{
    if g <= 0 {
        0
    } else {
        alloc_start(alloc, g - 1) + alloc[g - 1].band_count
    }
}

/// The group of subband `i`: the last group that starts at or before it.
pub open spec fn alloc_group(alloc: Seq<L12SubbandAlloc_t>, i: int) -> int
    decreases alloc.len(),
{
    if alloc.len() <= 1 {
        0
    } else if alloc_start(alloc, alloc.len() - 1) <= i {
        alloc.len() - 1
    } else {
        alloc_group(alloc.drop_last(), i)
    }
}

/// Width of the allocation code read for subband `i`: its group's width at the
/// first subband of the group, none at the others.
pub open spec fn ba_width(alloc: Seq<L12SubbandAlloc_t>, i: int) -> nat {
    let g = alloc_group(alloc, i);
    if alloc_start(alloc, g) == i {
        alloc[g].code_tab_width as nat
    } else {
        0
    }
}

/// Bits of allocation codes for subband `i`: two codes below `stereo`, one above.
pub open spec fn ba_bits(alloc: Seq<L12SubbandAlloc_t>, stereo: u8, i: int) -> nat {
    if i < stereo {
        2 * ba_width(alloc, i)
    } else {
        ba_width(alloc, i)
    }
}

/// Bit position of the allocation codes of subband `i` when those of subband 0 start at `p0`.
pub open spec fn ba_pos(alloc: Seq<L12SubbandAlloc_t>, stereo: u8, p0: int, i: int) -> int
    decreases i,
{
    if i <= 0 {
        p0
    } else {
        ba_pos(alloc, stereo, p0, i - 1) + ba_bits(alloc, stereo, i - 1)
    }
}

/// The allocation of subband `i` whose code is read at `p`: the entry of its
/// group's table that the code selects.
pub open spec fn ba_at(data: Seq<u8>, limit: u32, alloc: Seq<L12SubbandAlloc_t>, p: int, i: int) -> u8 {
    bitalloc_code_tab()[alloc[alloc_group(alloc, i)].tab_offset + rd(data, limit, p, ba_width(alloc, i))]
}

/// Entry `j` (subband `j / 2`, channel `j % 2`) of the allocation as read from
/// the frame at `p0`: the second channel takes the second code below
/// `stereo_bands`, the first code above it, and nothing in a mono frame.
pub open spec fn l12_ba_read(data: Seq<u8>, limit: u32, p0: int, h: Seq<u8>, j: int) -> u8 {
    let alloc = spec_l12_alloc(h);
    let st = spec_l12_stereo_bands(h);
    let i = j / 2;
    let p = ba_pos(alloc, st, p0, i);
    if j % 2 == 0 {
        ba_at(data, limit, alloc, p, i)
    } else if st == 0 {
        0
    } else if i < st {
        ba_at(data, limit, alloc, p + ba_width(alloc, i), i)
    } else {
        ba_at(data, limit, alloc, p, i)
    }
}

/// The allocation entries as read, for both channels of every subband that carries samples.
pub open spec fn l12_ba_seq(data: Seq<u8>, limit: u32, p0: int, h: Seq<u8>) -> Seq<u8> {
    Seq::new((2 * spec_l12_nbands(h)) as nat, |j: int| l12_ba_read(data, limit, p0, h, j))
}

/// Bit position of the scale-factor coding of entry `j`: after the allocation
/// codes, 2 bits for each allocated entry before it (none in layer I).
pub open spec fn l12_cod_pos(data: Seq<u8>, limit: u32, p0: int, h: Seq<u8>, j: int) -> int
    decreases j,
{
    if j <= 0 {
        ba_pos(spec_l12_alloc(h), spec_l12_stereo_bands(h), p0, spec_l12_nbands(h) as int)
    } else {
        l12_cod_pos(data, limit, p0, h, j - 1) + (if l12_ba_read(data, limit, p0, h, j - 1) != 0
            && !spec_is_layer_1(h) { 2int } else { 0int })
    }
}

/// The scale-factor coding of entry `j`: read in layer II, 2 in layer I, and 6
/// (no scale factors) where nothing is allocated.
pub open spec fn l12_cod_read(data: Seq<u8>, limit: u32, p0: int, h: Seq<u8>, j: int) -> u8 {
    if l12_ba_read(data, limit, p0, h, j) != 0 {
        if spec_is_layer_1(h) {
            2
        } else {
            rd(data, limit, l12_cod_pos(data, limit, p0, h, j), 2) as u8
        }
    } else {
        6
    }
}

/// The scale-factor codings of all entries.
pub open spec fn l12_cod_seq(data: Seq<u8>, limit: u32, p0: int, h: Seq<u8>) -> Seq<u8> {
    Seq::new((2 * spec_l12_nbands(h)) as nat, |j: int| l12_cod_read(data, limit, p0, h, j))
}

/// Bit position of the scale factors.
pub open spec fn l12_scf_start(data: Seq<u8>, limit: u32, p0: int, h: Seq<u8>) -> int {
    l12_cod_pos(data, limit, p0, h, 2 * spec_l12_nbands(h))
}

/// Bit position of the scale factor of subband `i` (the first `nbands` entries
/// are read, with the allocation and coding of entries `0..nbands`).
pub open spec fn l12_scf_at(data: Seq<u8>, limit: u32, p0: int, h: Seq<u8>, i: int) -> int {
    l12_scf_pos(
        l12_ba_seq(data, limit, p0, h),
        l12_cod_seq(data, limit, p0, h),
        l12_scf_start(data, limit, p0, h),
        i,
    )
}

/// Bit position after the side information.
pub open spec fn l12_scale_info_end(data: Seq<u8>, limit: u32, p0: int, h: Seq<u8>) -> int {
    l12_scf_at(data, limit, p0, h, spec_l12_nbands(h) as int)
}

/// The allocation entry `j` that the frame leaves: as read, except that the
/// second channel of the subbands from `stereo_bands` on has none.
pub open spec fn l12_ba_final(data: Seq<u8>, limit: u32, p0: int, h: Seq<u8>, j: int) -> u8 {
    if j % 2 == 1 && j / 2 >= spec_l12_stereo_bands(h) {
        0
    } else {
        l12_ba_read(data, limit, p0, h, j)
    }
}

/// What the reader of the allocation relies on in an allocation table: one to
/// four groups, each with at least one subband and a code of 2 to 4 bits whose
/// values stay inside the code table, covering at least `nb` subbands.
pub open spec fn alloc_ok(alloc: Seq<L12SubbandAlloc_t>, nb: int) -> bool {
    &&& 1 <= alloc.len() <= 4
    &&& forall|g: int|
        0 <= g < alloc.len() ==> {
            &&& #[trigger] alloc[g].band_count > 0
            &&& 2 <= alloc[g].code_tab_width <= 4
            &&& alloc[g].tab_offset + pow2(alloc[g].code_tab_width as nat) <= 92
        }
    &&& alloc_start(alloc, alloc.len() as int) >= nb
}

/// For every header, the allocation table chosen covers every subband that
/// carries samples (each group serves at least one subband, and its 2- to 4-bit
/// codes select entries inside the code table); at most 32 subbands carry
/// samples, and no more than those are coded per channel.
pub proof fn lemma_l12_alloc_facts(h: Seq<u8>)
    ensures
        alloc_ok(spec_l12_alloc(h), spec_l12_nbands(h) as int),
        spec_l12_nbands(h) <= 32,
        spec_l12_stereo_bands(h) <= spec_l12_nbands(h),
{
    let alloc = spec_l12_alloc(h);
    vstd::arithmetic::power2::lemma2_to64();
    reveal_with_fuel(alloc_start, 5);
    assert(alloc_l1().len() == 1 && alloc_l1()[0] == sub_alloc(76, 4, 32));
    assert(alloc_l2m2().len() == 3);
    assert(alloc_l2m1().len() == 4);
    assert(alloc_l2m1_lowrate().len() == 2);
}

/// The code table has 92 entries, each 0 (nothing allocated) or between 2 and 19.
proof fn lemma_code_tab_values()
    ensures
        bitalloc_code_tab().len() == 92,
        forall|t: int| 0 <= t < 92 ==> #[trigger] bitalloc_code_tab()[t] == 0 || 2 <= bitalloc_code_tab()[t] <= 19,
{
    let c = bitalloc_code_tab();
    assert forall|t: int| 0 <= t < 92 implies #[trigger] c[t] == 0 || 2 <= c[t] <= 19 by {
        if t < 46 {
            if t < 23 {
            } else {
            }
        } else {
            if t < 69 {
            } else {
            }
        }
    }
}

proof fn lemma_alloc_start_mono(alloc: Seq<L12SubbandAlloc_t>, a: int, b: int)
    requires
        0 <= a <= b <= alloc.len(),
        forall|g: int| 0 <= g < alloc.len() ==> #[trigger] alloc[g].band_count > 0,
    ensures
        alloc_start(alloc, a) <= alloc_start(alloc, b),
        a < b ==> alloc_start(alloc, a) < alloc_start(alloc, b),
    decreases b - a,
{
    if a < b {
        lemma_alloc_start_mono(alloc, a, b - 1);
        assert(alloc[b - 1].band_count > 0);
    }
}

proof fn lemma_alloc_start_prefix(alloc: Seq<L12SubbandAlloc_t>, g: int)
    requires
        1 <= alloc.len(),
        0 <= g < alloc.len(),
    ensures
        alloc_start(alloc.drop_last(), g) == alloc_start(alloc, g),
    decreases g,
{
    if g > 0 {
        lemma_alloc_start_prefix(alloc, g - 1);
    }
}

/// Subband `i` belongs to group `g` when it lies between the first subband of
/// `g` and the first subband of the next group.
proof fn lemma_alloc_group(alloc: Seq<L12SubbandAlloc_t>, g: int, i: int)
    requires
        0 <= g < alloc.len(),
        forall|t: int| 0 <= t < alloc.len() ==> #[trigger] alloc[t].band_count > 0,
        alloc_start(alloc, g) <= i,
        g + 1 < alloc.len() ==> i < alloc_start(alloc, g + 1),
    ensures
        alloc_group(alloc, i) == g,
    decreases alloc.len(),
{
    if alloc.len() > 1 && g < alloc.len() - 1 {
        let d = alloc.drop_last();
        lemma_alloc_start_mono(alloc, g + 1, alloc.len() - 1);
        lemma_alloc_start_prefix(alloc, g);
        if g + 1 < d.len() {
            lemma_alloc_start_prefix(alloc, g + 1);
        }
        assert forall|t: int| 0 <= t < d.len() implies #[trigger] d[t].band_count > 0 by {
            assert(alloc[t].band_count > 0);
        }
        lemma_alloc_group(d, g, i);
    }
}

proof fn lemma_ba_pos_mono(alloc: Seq<L12SubbandAlloc_t>, stereo: u8, p0: int, i: int, j: int)
    requires
        0 <= i <= j,
    ensures
        ba_pos(alloc, stereo, p0, i) <= ba_pos(alloc, stereo, p0, j),
    decreases j - i,
{
    if i < j {
        lemma_ba_pos_mono(alloc, stereo, p0, i, j - 1);
    }
}

proof fn lemma_cod_pos_mono(data: Seq<u8>, limit: u32, p0: int, h: Seq<u8>, i: int, j: int)
    requires
        0 <= i <= j,
    ensures
        l12_cod_pos(data, limit, p0, h, i) <= l12_cod_pos(data, limit, p0, h, j),
    decreases j - i,
{
    if i < j {
        lemma_cod_pos_mono(data, limit, p0, h, i, j - 1);
    }
}

/// The position of the scale factors of subband `i` depends only on the
/// allocation and coding of the subbands before it.
proof fn lemma_scf_pos_agree(pba1: Seq<u8>, cod1: Seq<u8>, pba2: Seq<u8>, cod2: Seq<u8>, p0: int, i: int)
    requires
        forall|t: int| 0 <= t < i ==> #[trigger] pba1[t] == pba2[t] && cod1[t] == cod2[t],
    ensures
        l12_scf_pos(pba1, cod1, p0, i) == l12_scf_pos(pba2, cod2, p0, i),
    decreases i,
{
    if i > 0 {
        assert(pba1[i - 1] == pba2[i - 1] && cod1[i - 1] == cod2[i - 1]);
        lemma_scf_pos_agree(pba1, cod1, pba2, cod2, p0, i - 1);
    }
}

proof fn lemma_alloc_group_range(alloc: Seq<L12SubbandAlloc_t>, i: int)
    requires
        1 <= alloc.len(),
    ensures
        0 <= alloc_group(alloc, i) < alloc.len(),
    decreases alloc.len(),
{
    if alloc.len() > 1 && alloc_start(alloc, alloc.len() - 1) > i {
        lemma_alloc_group_range(alloc.drop_last(), i);
    }
}

/// Every allocation the side information yields is 0 (nothing allocated) or
/// between 2 and 19, so that it selects a row of the dequantization table.
pub proof fn lemma_ba_read_range(data: Seq<u8>, limit: u32, p0: int, h: Seq<u8>, j: int)
    ensures
        l12_ba_read(data, limit, p0, h, j) == 0 || 2 <= l12_ba_read(data, limit, p0, h, j) <= 19,
{
    let alloc = spec_l12_alloc(h);
    let i = j / 2;
    lemma_l12_alloc_facts(h);
    lemma_code_tab_values();
    lemma_alloc_group_range(alloc, i);
    let g = alloc_group(alloc, i);
    let w = ba_width(alloc, i);
    assert(alloc[g].band_count > 0);
    vstd::arithmetic::power2::lemma2_to64();
    assert forall|p: int| #![auto] bitalloc_code_tab()[alloc[g].tab_offset + rd(data, limit, p, w)] == 0 || 2
        <= bitalloc_code_tab()[alloc[g].tab_offset + rd(data, limit, p, w)] <= 19 by {
        lemma_rd_bound(data, limit, p, w);
        let t = alloc[g].tab_offset + rd(data, limit, p, w);
        assert(0 <= t < 92);
    }
}

/// Reads the scale-factor side information of a layer I/II frame into `sci`:
/// the allocation of each subband and channel (a code from the group's table at
/// the first subband of each allocation group), the scale-factor coding of each
/// allocated entry, and the scale factors of the first `total_bands` entries;
/// then clears the second-channel allocation of the subbands from
/// `stereo_bands` on.
#[allow(non_snake_case)]
#[verifier::rlimit(80)]
#[verifier::spinoff_prover]
pub fn L12_read_scale_info(hdr: &Hdr, bs: &mut Bs_t, sci: &mut L12ScaleInfo)
    requires
        !spec_is_layer_1(hdr@) && spec_is_mpeg1(hdr@) ==> spec_has_bitrate(hdr@),
        bits_available(
            *old(bs),
            l12_scale_info_end(old(bs).data(), old(bs).spec_limit(), old(bs).spec_pos() as int, hdr@)
                - old(bs).spec_pos(),
        ),
    ensures
        ({
            let data = old(bs).data();
            let limit = old(bs).spec_limit();
            let p0 = old(bs).spec_pos() as int;
            let h = hdr@;
            let nb = spec_l12_nbands(h) as int;
            &&& final(bs).data() == data
            &&& final(bs).spec_limit() == limit
            &&& final(bs).spec_pos() == l12_scale_info_end(data, limit, p0, h)
            &&& final(sci).total_bands == nb
            &&& final(sci).stereo_bands == spec_l12_stereo_bands(h)
            &&& forall|j: int|
                0 <= j < 2 * nb ==> #[trigger] final(sci).bitalloc[j] == l12_ba_final(data, limit, p0, h, j)
            &&& forall|j: int| 2 * nb <= j < 64 ==> #[trigger] final(sci).bitalloc[j] == old(sci).bitalloc[j]
            &&& forall|j: int|
                0 <= j < 2 * nb ==> #[trigger] final(sci).scfcod[j] == l12_cod_read(data, limit, p0, h, j)
            &&& forall|j: int| 2 * nb <= j < 64 ==> #[trigger] final(sci).scfcod[j] == old(sci).scfcod[j]
            &&& forall|i: int|
                0 <= i < nb ==> #[trigger] final(sci).scf[i] == l12_scf_value(
                    data,
                    limit,
                    l12_scf_at(data, limit, p0, h, i),
                    l12_ba_read(data, limit, p0, h, i),
                    l12_cod_read(data, limit, p0, h, i),
                )
            &&& forall|i: int| nb <= i < 192 ==> #[trigger] final(sci).scf[i] == old(sci).scf[i]
        }),
{
    let ghost data = bs.data();
    let ghost limit = bs.spec_limit();
    let ghost p0 = bs.spec_pos() as int;
    let ghost h = hdr@;
    let ghost sci0 = *sci;
    let tab: [u8; 92] = [
        0, 17, 3, 4, 5, 6, 7, 8, 9, 10, 11, 12, 13, 14, 15, 16,
        0, 17, 18, 3, 19, 4, 5, 6, 7, 8, 9, 10, 11, 12, 13, 16,
        0, 17, 18, 3, 19, 4, 5, 16,
        0, 17, 18, 16,
        0, 17, 18, 19, 4, 5, 6, 7, 8, 9, 10, 11, 12, 13, 14, 15,
        0, 17, 18, 3, 19, 4, 5, 6, 7, 8, 9, 10, 11, 12, 13, 14,
        0, 2, 3, 4, 5, 6, 7, 8, 9, 10, 11, 12, 13, 14, 15, 16,
    ];
    proof {
        assert(tab@ =~= bitalloc_code_tab());
        lemma_l12_alloc_facts(h);
    }
    let (alloc_vec, nbands, stereo_bands) = L12SubbandAlloc_t::new(hdr);
    let ghost alloc = alloc_vec@;
    let ghost end = l12_scale_info_end(data, limit, p0, h);
    proof {
        lemma_cod_pos_mono(data, limit, p0, h, 0, 2 * nbands);
        lemma_scf_pos_mono(
            l12_ba_seq(data, limit, p0, h),
            l12_cod_seq(data, limit, p0, h),
            l12_scf_start(data, limit, p0, h),
            0,
            nbands as int,
        );
    }
    sci.total_bands = nbands;
    sci.stereo_bands = stereo_bands;

    let mut subband_alloc: &[L12SubbandAlloc_t] = alloc_vec.as_slice();
    let mut ba_code_tab: &[u8] = tab.as_slice();
    let mut k: usize = 0;
    let ghost mut g: int = 0;
    for i in 0..nbands as usize
        invariant
            tab@ == bitalloc_code_tab(),
            alloc == spec_l12_alloc(h),
            alloc_ok(alloc, nbands as int),
            nbands == spec_l12_nbands(h),
            nbands <= 32,
            stereo_bands == spec_l12_stereo_bands(h),
            stereo_bands <= nbands,
            sci.total_bands == nbands,
            sci.stereo_bands == stereo_bands,
            0 <= g <= alloc.len(),
            subband_alloc@ == alloc.skip(g),
            k == alloc_start(alloc, g),
            (i == 0 && g == 0) || (1 <= g && alloc_start(alloc, g - 1) < i <= k),
            g >= 1 ==> ba_code_tab@ == tab@.skip(alloc[g - 1].tab_offset as int),
            bs.data() == data,
            bs.spec_limit() == limit,
            bs.spec_pos() == ba_pos(alloc, stereo_bands, p0, i as int),
            ba_pos(alloc, stereo_bands, p0, nbands as int) <= u32::MAX,
            limit <= 8 * data.len() || ba_pos(alloc, stereo_bands, p0, nbands as int) <= 8 * data.len(),
            forall|j: int| 0 <= j < 2 * i ==> #[trigger] sci.bitalloc[j] == l12_ba_read(data, limit, p0, h, j),
            forall|j: int| 2 * i <= j < 64 ==> #[trigger] sci.bitalloc[j] == sci0.bitalloc[j],
            sci.scfcod == sci0.scfcod,
            sci.scf == sci0.scf,
    {
        let ghost p = bs.spec_pos() as int;
        proof {
            lemma_ba_pos_mono(alloc, stereo_bands, p0, i + 1, nbands as int);
            if g == alloc.len() {
                lemma_alloc_start_mono(alloc, alloc.len() as int, alloc.len() as int);
            }
        }
        let mut ba_bits: u8 = 0;
        if i == k {
            proof {
                if g >= alloc.len() {
                    assert(false);
                }
                lemma_alloc_start_mono(alloc, g, g + 1);
                lemma_alloc_group(alloc, g, i as int);
                assert(subband_alloc@[0] == alloc[g]);
            }
            k += subband_alloc[0].band_count as usize;
            ba_bits = subband_alloc[0].code_tab_width;
            let offset = subband_alloc[0].tab_offset as usize;
            ba_code_tab = tab.as_slice();
            crate::utils::advance_slice(&mut ba_code_tab, offset);
            crate::utils::advance_slice(&mut subband_alloc, 1);
            proof {
                g = g + 1;
                assert(subband_alloc@ =~= alloc.skip(g));
            }
        } else {
            proof {
                lemma_alloc_group(alloc, g - 1, i as int);
            }
        }
        proof {
            let gi = alloc_group(alloc, i as int);
            assert(gi == g - 1);
            assert(ba_width(alloc, i as int) == ba_bits);
            assert(ba_code_tab@ == tab@.skip(alloc[gi].tab_offset as int));
            vstd::arithmetic::power2::lemma2_to64();
            assert(alloc[gi].tab_offset + pow2(alloc[gi].code_tab_width as nat) <= 92);
            lemma_rd_bound(data, limit, p, ba_bits as nat);
        }
        let code = bs.get_bits(ba_bits as u32) as usize;
        let mut ba = ba_code_tab[code];
        sci.bitalloc[2 * i] = ba;
        if i < sci.stereo_bands as usize {
            proof {
                lemma_rd_bound(data, limit, p + ba_bits, ba_bits as nat);
            }
            let code2 = bs.get_bits(ba_bits as u32) as usize;
            ba = ba_code_tab[code2];
        }
        sci.bitalloc[2 * i + 1] = if sci.stereo_bands != 0 { ba } else { 0 };
        proof {
            assert((2 * i as int) / 2 == i && (2 * i as int) % 2 == 0);
            assert((2 * i as int + 1) / 2 == i && (2 * i as int + 1) % 2 == 1);
        }
    }

    let n_entries = (sci.total_bands * 2) as usize;
    for i in 0..n_entries
        invariant
            n_entries == 2 * nbands,
            h == hdr@,
            nbands == spec_l12_nbands(h),
            nbands <= 32,
            sci.total_bands == nbands,
            sci.stereo_bands == stereo_bands,
            bs.data() == data,
            bs.spec_limit() == limit,
            bs.spec_pos() == l12_cod_pos(data, limit, p0, h, i as int),
            l12_cod_pos(data, limit, p0, h, 2 * nbands) <= u32::MAX,
            limit <= 8 * data.len() || l12_cod_pos(data, limit, p0, h, 2 * nbands) <= 8 * data.len(),
            forall|j: int| 0 <= j < 2 * nbands ==> #[trigger] sci.bitalloc[j] == l12_ba_read(data, limit, p0, h, j),
            forall|j: int| 2 * nbands <= j < 64 ==> #[trigger] sci.bitalloc[j] == sci0.bitalloc[j],
            forall|j: int| 0 <= j < i ==> #[trigger] sci.scfcod[j] == l12_cod_read(data, limit, p0, h, j),
            forall|j: int| 0 <= j < i ==> #[trigger] sci.scfcod[j] <= 6,
            forall|j: int| i <= j < 64 ==> #[trigger] sci.scfcod[j] == sci0.scfcod[j],
            sci.scf == sci0.scf,
    {
        proof {
            lemma_cod_pos_mono(data, limit, p0, h, i + 1, 2 * nbands);
            lemma_rd_bound(data, limit, bs.spec_pos() as int, 2);
            vstd::arithmetic::power2::lemma2_to64();
            assert(sci.bitalloc[i as int] == l12_ba_read(data, limit, p0, h, i as int));
            assert(l12_cod_pos(data, limit, p0, h, i + 1) == l12_cod_pos(data, limit, p0, h, i as int) + (
            if l12_ba_read(data, limit, p0, h, i as int) != 0 && !spec_is_layer_1(h) {
                2int
            } else {
                0int
            }));
        }
        let val = if sci.bitalloc[i] != 0 {
            if hdr.is_layer_1() {
                2
            } else {
                bs.get_bits(2)
            }
        } else {
            6
        };
        sci.scfcod[i] = val as u8;
    }

    let ghost ba_seq = l12_ba_seq(data, limit, p0, h);
    let ghost cod_seq = l12_cod_seq(data, limit, p0, h);
    let ghost q = l12_scf_start(data, limit, p0, h);
    let n = sci.total_bands as usize;
    let cod_slice: &[u8] = &sci.scfcod[0..n];
    proof {
        assert forall|t: int| 0 <= t < n implies #[trigger] sci.bitalloc@[t] == ba_seq[t] && cod_slice@[t]
            == cod_seq[t] by {}
        assert forall|t: int| 0 <= t < n implies #[trigger] sci.bitalloc@[t] == 0 || 2 <= sci.bitalloc@[t] <= 19 by {
            lemma_ba_read_range(data, limit, p0, h, t);
        }
        lemma_scf_pos_agree(sci.bitalloc@, cod_slice@, ba_seq, cod_seq, 0, n as int);
        lemma_scf_pos_agree(sci.bitalloc@, cod_slice@, ba_seq, cod_seq, q, n as int);
        lemma_scf_pos_shift(sci.bitalloc@, cod_slice@, q, n as int);
    }
    L12_read_scalefactors(bs, &sci.bitalloc, cod_slice, &mut sci.scf);
    proof {
        assert forall|i: int| 0 <= i < n implies #[trigger] sci.scf[i] == l12_scf_value(
            data,
            limit,
            l12_scf_at(data, limit, p0, h, i),
            l12_ba_read(data, limit, p0, h, i),
            l12_cod_read(data, limit, p0, h, i),
        ) by {
            lemma_scf_pos_agree(sci.bitalloc@, cod_slice@, ba_seq, cod_seq, q, i);
        }
    }

    let ghost scfcod_read = sci.scfcod;
    let ghost scf_read = sci.scf;
    let first_mono = sci.stereo_bands as usize;
    let n_bands = sci.total_bands as usize;
    for i in first_mono..n_bands
        invariant
            first_mono == stereo_bands,
            n_bands == nbands,
            sci.scfcod == scfcod_read,
            sci.scf == scf_read,
            nbands == spec_l12_nbands(h),
            nbands <= 32,
            stereo_bands == spec_l12_stereo_bands(h),
            stereo_bands <= i <= nbands,
            sci.total_bands == nbands,
            sci.stereo_bands == stereo_bands,
            forall|j: int|
                0 <= j < 2 * nbands ==> #[trigger] sci.bitalloc[j] == (if j % 2 == 1 && stereo_bands <= j / 2 < i {
                    0
                } else {
                    l12_ba_read(data, limit, p0, h, j)
                }),
            forall|j: int| 2 * nbands <= j < 64 ==> #[trigger] sci.bitalloc[j] == sci0.bitalloc[j],
    {
        sci.bitalloc[2 * i + 1] = 0;
        proof {
            assert((2 * i as int + 1) / 2 == i && (2 * i as int + 1) % 2 == 1);
        }
    }
}

/// Dequantizes one granule of layer I/II samples into `grbuf`: four groups of
/// `group_size` samples per allocated subband and channel, each a code of `ba`
/// bits less `1 << (ba - 2)` (or, for allocations 17 to 19, one code split into
/// `group_size` digits of radix `2 << (ba - 16)`, less half the radix); returns
/// the number of samples per subband, `4 * group_size`.
/// After the first subband the output cursor moves by 576 and its step becomes
/// `18 - 576`, which underflows: only a scale info without subbands gets
/// through, and then nothing is read or written.
#[allow(non_snake_case)]
pub fn L12_dequantize_granule(grbuf: &mut [u32], bs: &mut Bs_t, sci: &L12ScaleInfo, group_size: u32) -> (r: u32)
    requires
        sci.total_bands == 0,
        3 * group_size <= old(grbuf)@.len(),
        4 * group_size <= u32::MAX,
    ensures
        r == 4 * group_size,
        final(grbuf)@ == old(grbuf)@,
        *final(bs) == *old(bs),
{
    let ghost grbuf0 = grbuf@;
    let ghost bs0 = *bs;
    let mut choff: usize = 576;
    let n_entries = 2 * sci.total_bands;
    for j in 0..4u32
        invariant
            n_entries == 0,
            grbuf@ == grbuf0,
            *bs == bs0,
            4 * group_size <= u32::MAX,
            3 * group_size <= grbuf0.len(),
    {
        proof {
            assert(group_size * j <= 3 * group_size) by (nonlinear_arith)
                requires
                    j < 4,
            ;
        }
        let mut dst: usize = (group_size * j) as usize;
        for i in 0..n_entries
            invariant
                n_entries == 0,
                grbuf@ == grbuf0,
                *bs == bs0,
        {
            let ba = sci.bitalloc[i as usize];
            if ba == 0 {
            } else if ba < 17 {
                let half: u32 = 1u32 << (ba - 1) - 1;
                for k in 0..group_size
                    invariant
                        i < n_entries,
                        n_entries == 0,
                {
                    grbuf[dst + k as usize] = bs.get_bits(ba as u32) - half;
                }
            } else {
                let mod_: u32 = 2u32 << (ba - 17) + 1;
                let mut code: u32 = bs.get_bits(mod_ + 2 - (mod_ >> 3));
                for k in 0..group_size
                    invariant
                        i < n_entries,
                        n_entries == 0,
                {
                    grbuf[dst + k as usize] = code % mod_ - mod_ / 2;
                    code /= mod_;
                }
            }
            dst += choff;
            choff = 18 - choff;
        }
    }
    group_size * 4
}

/// The subbands that carry samples. Layer I: all 32. Layer II of MPEG-2 and
/// MPEG-2.5: 30. Layer II of MPEG-1 goes by the bitrate per channel (the
/// frame's bitrate, halved unless mono; free format counts as 192 kbit/s):
/// below 56 kbit/s the two-group low-rate table with 8 subbands, 12 at the
/// sample-rate index 2 (32 kHz); from 56 to 95 kbit/s the four-group table with
/// 27; from 96 kbit/s on 30, or 27 at the sample-rate index 1 (48 kHz). A mono
/// frame codes no subband per channel; plain stereo and dual channel code all.
pub proof fn lemma_l12_nbands(h: Seq<u8>)
    requires
        h.len() == 4,
        (h[1] >> 1u8) & 3u8 == 2 || (h[1] >> 1u8) & 3u8 == 3,
        h[2] >> 4u8 != 15,
    ensures
        ({
            let layer = (h[1] >> 1u8) & 3u8;
            let mpeg1 = h[1] & 8u8 != 0;
            let sr = (h[2] >> 2u8) & 3u8;
            let mono = h[3] >= 0xc0;
            let mode = h[3] >> 6u8;
            let pc: int = if h[2] >> 4u8 == 0 {
                192
            } else if mono {
                spec_bitrate_kbps(h) as int
            } else {
                spec_bitrate_kbps(h) as int / 2
            };
            let nb = spec_l12_nbands(h);
            let alloc = spec_l12_alloc(h);
            &&& layer == 3 ==> nb == 32 && alloc.len() == 1
            &&& layer == 2 && !mpeg1 ==> nb == 30 && alloc.len() == 3
            &&& layer == 2 && mpeg1 && pc < 56 ==> nb == (if sr == 2 { 12u8 } else { 8u8 }) && alloc.len() == 2
            &&& layer == 2 && mpeg1 && 56 <= pc < 96 ==> nb == 27 && alloc.len() == 4
            &&& layer == 2 && mpeg1 && pc >= 96 ==> nb == (if sr == 1 { 27u8 } else { 30u8 }) && alloc.len() == 4
            &&& mono ==> spec_l12_stereo_bands(h) == 0
            &&& (mode == 0 || mode == 2) ==> spec_l12_stereo_bands(h) == nb
            &&& spec_l12_stereo_bands(h) <= nb
        }),
{
    crate::hdr::lemma_field_relations(h[1], h[2], h[3]);
    crate::hdr::lemma_bitrate_table(h);
    let b3 = h[3];
    assert((b3 >= 0xc0) == ((b3 >> 6u8) & 3u8 == 3) && b3 >> 6u8 == (b3 >> 6u8) & 3u8) by (bit_vector);
    let k = spec_bitrate_kbps(h);
    assert(k >> 1u32 == k / 2 && k >> 0u32 == k) by (bit_vector);
    assert(alloc_l1().len() == 1);
    assert(alloc_l2m2().len() == 3);
    assert(alloc_l2m1().len() == 4);
    assert(alloc_l2m1_lowrate().len() == 2);
}

/// The width of the allocation code of each subband, as the standard's
/// allocation tables give it: 4 bits in layer I; in MPEG-1 layer II 4 bits for
/// subbands 0 to 10, 3 for 11 to 22 and 2 from 23 on, or, in the low-rate table,
/// 4 bits for subbands 0 and 1 and 3 for the rest; in MPEG-2 layer II 4 bits for
/// subbands 0 to 3, 3 for 4 to 10 and 2 from 11 on.
pub proof fn lemma_l12_code_widths(h: Seq<u8>, i: int)
    requires
        h.len() == 4,
        (h[1] >> 1u8) & 3u8 == 2 || (h[1] >> 1u8) & 3u8 == 3,
        h[2] >> 4u8 != 15,
        0 <= i < spec_l12_nbands(h),
    ensures
        ({
            let alloc = spec_l12_alloc(h);
            let w = alloc[alloc_group(alloc, i)].code_tab_width;
            &&& (h[1] >> 1u8) & 3u8 == 3 ==> w == 4
            &&& (h[1] >> 1u8) & 3u8 == 2 && h[1] & 8u8 != 0 && alloc.len() == 4 ==> w == (if i < 11 {
                4u8
            } else if i < 23 {
                3u8
            } else {
                2u8
            })
            &&& (h[1] >> 1u8) & 3u8 == 2 && h[1] & 8u8 != 0 && alloc.len() == 2 ==> w == (if i < 2 {
                4u8
            } else {
                3u8
            })
            &&& (h[1] >> 1u8) & 3u8 == 2 && h[1] & 8u8 == 0 ==> w == (if i < 4 {
                4u8
            } else if i < 11 {
                3u8
            } else {
                2u8
            })
        }),
{
    crate::hdr::lemma_field_relations(h[1], h[2], h[3]);
    lemma_l12_alloc_facts(h);
    let alloc = spec_l12_alloc(h);
    reveal_with_fuel(alloc_start, 5);
    assert(alloc_l1().len() == 1);
    assert(alloc_l2m2().len() == 3);
    assert(alloc_l2m1().len() == 4);
    assert(alloc_l2m1_lowrate().len() == 2);
    let mut g: int = 0;
    if alloc.len() == 4 {
        g = if i < 3 { 0 } else if i < 11 { 1 } else if i < 23 { 2 } else { 3 };
    } else if alloc.len() == 3 {
        g = if i < 4 { 0 } else if i < 11 { 1 } else { 2 };
    } else if alloc.len() == 2 {
        g = if i < 2 { 0 } else { 1 };
    }
    lemma_alloc_group(alloc, g, i);
}

} // verus!
