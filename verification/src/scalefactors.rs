//! Layer III scale factors: their bit widths, reading them, and the exponents
//! that the dequantizer derives from them.
use vstd::prelude::*;
use crate::bitstream::Bs_t;
use crate::hdr::{Hdr, spec_is_mpeg1};
use crate::layer3::{
    L3GrInfo_t,
    L3_read_scalefactors,
    n_groups,
    n_groups_from,
    grp_off,
    bits_off,
    grp_bits,
    grp_copies,
    read_width_ok,
    scfsi_at,
    exp_scf,
    exp_ist,
};

verus! {

// ---------------------------------------------------------------------------
// Tables.
// ---------------------------------------------------------------------------

/// Scale-factor counts per group, for long blocks (row 0), mixed blocks (row 1)
/// and short blocks (row 2).
pub open spec fn partition_row(r: int) -> Seq<u8> {
    if r == 0 {
        seq![6u8, 5, 5, 5, 6, 5, 5, 5, 6, 5, 7, 3, 11, 10, 0, 0, 7, 7, 7, 0, 6, 6, 6, 3, 8, 8, 5, 0]
    } else if r == 1 {
        seq![8u8, 9, 6, 12, 6, 9, 9, 9, 6, 9, 12, 6, 15, 18, 0, 0, 6, 15, 12, 0, 6, 12, 9, 6, 6, 18, 9, 0]
    } else {
        seq![9u8, 9, 6, 12, 9, 9, 9, 9, 9, 9, 12, 6, 18, 18, 0, 0, 12, 12, 12, 0, 12, 9, 9, 6, 15, 12, 9, 0]
    }
}

/// The row of the partition table for a granule: 1 per short band present plus 1
/// when there is no long band (long 0, mixed 1, short 2).
pub open spec fn partition_index(gr: L3GrInfo_t) -> int {
    (if gr.n_short_sfb != 0 { 1int } else { 0int }) + (if gr.n_long_sfb == 0 { 1int } else { 0int })
}

/// MPEG-1 scalefac_compress to the two scale-factor widths, packed as `(w1 << 2) | w2`.
pub open spec fn scfc_decode() -> Seq<u8> {
    seq![0u8, 1, 2, 3, 12, 5, 6, 7, 9, 10, 11, 13, 14, 15, 18, 19]
}

/// The radices of the MPEG-2 scalefac_compress encoding: six rows of four.
pub open spec fn mod_table() -> Seq<u8> {
    seq![5u8, 5, 4, 4, 5, 5, 4, 1, 4, 3, 1, 1, 5, 6, 6, 1, 4, 4, 4, 1, 4, 3, 1, 1]
}

/// Pre-emphasis added to long bands 11 to 20 when preflag is set.
pub open spec fn preamp() -> Seq<u8> {
    seq![1u8, 1, 1, 1, 2, 2, 3, 3, 3, 2]
}

/// Product of the radices at positions `i..4` of the row starting at `k`.
pub open spec fn radix_prod(k: int, i: int) -> int
    decreases 4 - i,
{
    if i >= 4 {
        1
    } else {
        radix_prod(k, i + 1) * mod_table()[k + i]
    }
}

/// Digit `i` of `v` in the mixed radix of the row starting at `k` (digit 3 least significant).
pub open spec fn radix_digit(v: int, k: int, i: int) -> u8 {
    ((v / radix_prod(k, i + 1)) % (mod_table()[k + i] as int)) as u8
}

/// The four digits of `v` in the mixed radix of the row starting at `k`.
pub open spec fn radix_digits(v: int, k: int) -> Seq<u8> {
    seq![radix_digit(v, k, 0), radix_digit(v, k, 1), radix_digit(v, k, 2), radix_digit(v, k, 3)]
}

/// MPEG-2 scale-factor widths: `v` is taken as an offset into the rows starting
/// at `k`; each row covers as many values as the product of its radices.
pub open spec fn lsf_sizes_from(v: int, k: int) -> Seq<u8>
    decreases 24 - k,
{
    if k + 4 >= 24 || v < radix_prod(k, 0) {
        radix_digits(v, k)
    } else {
        lsf_sizes_from(v - radix_prod(k, 0), k + 4)
    }
}

/// The granule uses intensity stereo for this channel (MPEG-2 only).
pub open spec fn lsf_intensity(h: Seq<u8>, ch: bool) -> bool {
    h[3] & 0x10u8 != 0 && ch
}

/// Widths of the scale factors of the four groups.
pub open spec fn spec_scf_sizes(h: Seq<u8>, gr: L3GrInfo_t, ch: bool) -> Seq<u8> {
    if spec_is_mpeg1(h) {
        let part = scfc_decode()[gr.scalefac_compress as int];
        seq![part >> 2u8, part >> 2u8, part & 3u8, part & 3u8]
    } else {
        let ist = lsf_intensity(h, ch);
        let v: int = if ist { gr.scalefac_compress as int / 2 } else { gr.scalefac_compress as int };
        lsf_sizes_from(v, if ist { 12 } else { 0 })
    }
}

/// The scfsi word handed to the scale-factor reader: the granule's scfsi bits in
/// MPEG-1, -16 (no group copied, markers on) in MPEG-2.
pub open spec fn spec_scfsi_word(h: Seq<u8>, gr: L3GrInfo_t) -> i32 {
    if spec_is_mpeg1(h) {
        gr.scfsi as i32
    } else {
        -16i32
    }
}

/// Values of `v` that the rows from `k` to the last one can still take.
pub open spec fn radix_capacity(k: int) -> int {
    if k == 0 {
        768
    } else if k == 4 {
        368
    } else if k == 8 {
        268
    } else if k == 12 {
        256
    } else if k == 16 {
        76
    } else {
        12
    }
}

/// The facts about radix row `k` that the width computation needs.
pub open spec fn radix_row_facts(k: int) -> bool {
    &&& radix_prod(k, 0) == radix_capacity(k) - (if k == 20 { 0int } else { radix_capacity(k + 4) })
    &&& forall|i: int| 0 <= i < 4 ==> 1 <= #[trigger] mod_table()[k + i] <= 6
    &&& forall|i: int| 0 <= i <= 4 ==> 1 <= #[trigger] radix_prod(k, i) <= 400
}

proof fn lemma_radix_step(k: int, i: int, p: int, m: int)
    requires
        0 <= i < 4,
        radix_prod(k, i + 1) == p,
        mod_table()[k + i] == m,
    ensures
        radix_prod(k, i) == p * m,
{
}

proof fn lemma_radix_row(k: int)
    requires
        k == 0 || k == 4 || k == 8 || k == 12 || k == 16 || k == 20,
    ensures
        radix_row_facts(k),
{
    let m = mod_table();
    assert(m[0] == 5 && m[1] == 5 && m[2] == 4 && m[3] == 4);
    assert(m[4] == 5 && m[5] == 5 && m[6] == 4 && m[7] == 1);
    assert(m[8] == 4 && m[9] == 3 && m[10] == 1 && m[11] == 1);
    assert(m[12] == 5 && m[13] == 6 && m[14] == 6 && m[15] == 1);
    assert(m[16] == 4 && m[17] == 4 && m[18] == 4 && m[19] == 1);
    assert(m[20] == 4 && m[21] == 3 && m[22] == 1 && m[23] == 1);
    if k == 0 {
        lemma_radix_step(0, 3, 1, 4);
        lemma_radix_step(0, 2, 4, 4);
        lemma_radix_step(0, 1, 16, 5);
        lemma_radix_step(0, 0, 80, 5);
    } else if k == 4 {
        lemma_radix_step(4, 3, 1, 1);
        lemma_radix_step(4, 2, 1, 4);
        lemma_radix_step(4, 1, 4, 5);
        lemma_radix_step(4, 0, 20, 5);
    } else if k == 8 {
        lemma_radix_step(8, 3, 1, 1);
        lemma_radix_step(8, 2, 1, 1);
        lemma_radix_step(8, 1, 1, 3);
        lemma_radix_step(8, 0, 3, 4);
    } else if k == 12 {
        lemma_radix_step(12, 3, 1, 1);
        lemma_radix_step(12, 2, 1, 6);
        lemma_radix_step(12, 1, 6, 6);
        lemma_radix_step(12, 0, 36, 5);
    } else if k == 16 {
        lemma_radix_step(16, 3, 1, 1);
        lemma_radix_step(16, 2, 1, 4);
        lemma_radix_step(16, 1, 4, 4);
        lemma_radix_step(16, 0, 16, 4);
    } else {
        lemma_radix_step(20, 3, 1, 1);
        lemma_radix_step(20, 2, 1, 1);
        lemma_radix_step(20, 1, 1, 3);
        lemma_radix_step(20, 0, 3, 4);
    }
    assert(radix_prod(k, 4) == 1);
    assert forall|i: int| 0 <= i <= 4 implies 1 <= #[trigger] radix_prod(k, i) <= 400 by {
        if i == 0 {
        } else if i == 1 {
        } else if i == 2 {
        } else if i == 3 {
        } else {
        }
    }
}

/// Computes the MPEG-2 scale-factor widths from scalefac_compress, as the
/// digits of the offset of `sfc` into the radix row it falls in.
fn lsf_scf_sizes(scalefac_compress: u16, ist: bool) -> (r: [u8; 4])
    requires
        if ist { scalefac_compress < 512 } else { scalefac_compress < 768 },
    ensures
        r@ == lsf_sizes_from(
            if ist { scalefac_compress as int / 2 } else { scalefac_compress as int },
            if ist { 12 } else { 0 },
        ),
{
    let md: [u8; 24] = [5, 5, 4, 4, 5, 5, 4, 1, 4, 3, 1, 1, 5, 6, 6, 1, 4, 4, 4, 1, 4, 3, 1, 1];
    proof {
        assert(md@ =~= mod_table());
    }
    let mut scf_size: [u8; 4] = [0; 4];
    let mut sfc: i32 = scalefac_compress as i32 >> ist as u32;
    proof {
        let x = scalefac_compress as i32;
        assert(0 <= x < 768 ==> x >> 1u32 == x / 2 && x >> 0u32 == x) by (bit_vector);
    }
    let mut k: usize = ist as usize * 3 * 4;
    let ghost v0: int = sfc as int;
    let ghost base: int = k as int;
    while sfc >= 0
        invariant
            md@ == mod_table(),
            k % 4 == 0,
            base <= k <= 24,
            sfc >= 0 ==> k <= 20,
            base == 0 || base == 12,
            sfc >= 0 ==> sfc < radix_capacity(k as int),
            sfc >= 0 ==> lsf_sizes_from(v0, base) == lsf_sizes_from(sfc as int, k as int),
            sfc < 0 ==> scf_size@ == lsf_sizes_from(v0, base),
        decreases 24 - k,
    {
        proof {
            lemma_radix_row(k as int);
        }
        let mut modprod: u32 = 1;
        let mut i: usize = 4;
        while i > 0
            invariant
                md@ == mod_table(),
                0 <= sfc,
                0 <= i <= 4,
                k == 0 || k == 4 || k == 8 || k == 12 || k == 16 || k == 20,
                modprod as int == radix_prod(k as int, i as int),
                1 <= modprod <= 400,
                forall|j: int| 0 <= j < 4 ==> 1 <= #[trigger] mod_table()[k + j] <= 6,
                forall|j: int| 0 <= j <= 4 ==> 1 <= #[trigger] radix_prod(k as int, j) <= 400,
                forall|j: int| i <= j < 4 ==> #[trigger] scf_size@[j] == radix_digit(sfc as int, k as int, j),
            decreases i,
        {
            i -= 1;
            let val = (sfc as u32 / modprod) % md[k + i] as u32;
            scf_size[i] = val as u8;
            proof {
                assert(radix_prod(k as int, i as int) == radix_prod(k as int, i + 1) * mod_table()[k + i]);
                assert(1 <= radix_prod(k as int, i as int) <= 400);
            }
            modprod *= md[k + i] as u32;
        }
        proof {
            assert(scf_size@ =~= radix_digits(sfc as int, k as int));
            if k < 20 {
                assert(k + 4 < 24);
            }
        }
        sfc -= modprod as i32;
        k += 4;
    }
    scf_size
}


// ---------------------------------------------------------------------------
// Decoding the scale factors of a granule.
// ---------------------------------------------------------------------------

/// Gain offset of the dequantizer output, in quarter steps of 2^(1/4) per unit.
pub const BITS_DEQUANTIZER_OUT: isize = -1;
/// Largest scale-factor exponent.
pub const MAX_SCF: isize = 255 + BITS_DEQUANTIZER_OUT * 4 - 210;
/// `MAX_SCF` rounded up to a multiple of 4.
pub const MAX_SCFI: isize = (MAX_SCF + 3) & !3;

/// The integer results of decoding the scale factors of one granule and channel:
/// the exponents (in quarter powers of two) that scale the granule gain and each band.
pub struct L3ScfExponents {
    /// Exponent of the granule gain: `MAX_SCFI` minus the gain exponent.
    pub gain_q2: i32,
    /// Exponent of each scale-factor band; bands from `n_bands` on are 0.
    pub band_q2: [i32; 40],
    /// Number of bands: the long bands plus the short ones.
    pub n_bands: usize,
}

/// Scale factor `idx` as the reader leaves it in a zeroed array, looking from group `j` on.
pub open spec fn scf_from(ist: Seq<u8>, data: Seq<u8>, limit: u32, p0: int, c: Seq<u8>, sz: Seq<u8>, s: i32, j: nat, idx: int) -> u8
    decreases 4 - j,
{
    if j >= 4 || j >= n_groups(c) {
        0
    } else if idx < grp_off(c, j + 1) {
        exp_scf(ist, data, limit, p0, c, sz, s, j, idx - grp_off(c, j))
    } else {
        scf_from(ist, data, limit, p0, c, sz, s, j + 1, idx)
    }
}

/// Number of band slots that the subblock-gain loop touches: the short bands rounded up to threes.
pub open spec fn short_span(n_short: u8) -> int {
    3 * ((n_short as int + 2) / 3)
}

/// What is added to scale factor `idx`: the subblock gain of its window, scaled,
/// in a granule with short bands; the pre-emphasis with preflag set otherwise.
pub open spec fn scf_gain_add(gr: L3GrInfo_t, idx: int) -> int {
    if gr.n_short_sfb != 0 {
        let sh = (3 - (gr.scalefac_scale + 1)) as u8;
        let r = idx - gr.n_long_sfb;
        if 0 <= r < short_span(gr.n_short_sfb) {
            (gr.subblock_gain[r % 3] << sh) as int
        } else {
            0
        }
    } else if gr.preflag != 0 && 11 <= idx < 21 {
        preamp()[idx - 11] as int
    } else {
        0
    }
}

/// Scale factor `idx` of the granule at the reader: read, plus the gain that applies to it.
pub open spec fn spec_iscf(ist: Seq<u8>, data: Seq<u8>, limit: u32, p0: int, h: Seq<u8>, gr: L3GrInfo_t, ch: bool, idx: int) -> int {
    scf_from(
        ist,
        data,
        limit,
        p0,
        partition_row(partition_index(gr)),
        spec_scf_sizes(h, gr, ch),
        spec_scfsi_word(h, gr),
        0,
        idx,
    ) + scf_gain_add(gr, idx)
}

/// The gain exponent of the granule, before it is taken from `MAX_SCFI`.
pub open spec fn spec_gain_exp(h: Seq<u8>, gr: L3GrInfo_t) -> int {
    gr.global_gain - 4 - 210 - (if h[3] & 0xE0u8 == 0x60u8 { 2int } else { 0int })
}

proof fn lemma_scf_from(ist: Seq<u8>, data: Seq<u8>, limit: u32, p0: int, c: Seq<u8>, sz: Seq<u8>, s: i32, new: Seq<u8>, j: nat, idx: int)
    requires
        n_groups(c) <= 4,
        j <= n_groups(c),
        grp_off(c, j) <= idx < new.len(),
        forall|jj: nat, k: int|
            jj < n_groups(c) && 0 <= k < c[jj as int] ==> new[grp_off(c, jj) + k] == #[trigger] exp_scf(
                ist, data, limit, p0, c, sz, s, jj, k),
        forall|t: int| grp_off(c, n_groups(c)) <= t < new.len() ==> #[trigger] new[t] == 0,
    ensures
        new[idx] == scf_from(ist, data, limit, p0, c, sz, s, j, idx),
    decreases n_groups(c) - j,
{
    if j < n_groups(c) {
        if idx < grp_off(c, j + 1) {
            let k = idx - grp_off(c, j);
            assert(new[grp_off(c, j) + k] == exp_scf(ist, data, limit, p0, c, sz, s, j, k));
        } else {
            lemma_scf_from(ist, data, limit, p0, c, sz, s, new, j + 1, idx);
        }
    }
}

/// Every row of the partition table has four groups, of at most 36 scale factors in all.
proof fn lemma_partition_rows(gr: L3GrInfo_t)
    ensures
        n_groups(partition_row(partition_index(gr))) == 4,
        grp_off(partition_row(partition_index(gr)), 4) <= 36,
        partition_row(partition_index(gr)).len() == 28,
{
    let c = partition_row(partition_index(gr));
    reveal_with_fuel(n_groups_from, 5);
    reveal_with_fuel(grp_off, 5);
    assert(n_groups(c) == 4);
    assert(grp_off(c, 4) <= 36);
}

/// The layout of the scale factors of a granule: the row of the partition table
/// (scale factors per group), the width of each group, and the scfsi word.
fn scf_layout(hdr: &Hdr, gr: &L3GrInfo_t, ch: bool) -> (r: ([u8; 28], [u8; 4], i32))
    requires
        spec_is_mpeg1(hdr@) ==> gr.scalefac_compress < 16,
        !spec_is_mpeg1(hdr@) ==> (if lsf_intensity(hdr@, ch) {
            gr.scalefac_compress < 512
        } else {
            gr.scalefac_compress < 768
        }),
    ensures
        r.0@ == partition_row(partition_index(*gr)),
        r.1@ == spec_scf_sizes(hdr@, *gr, ch),
        r.2 == spec_scfsi_word(hdr@, *gr),
        forall|j: int| 0 <= j < 4 ==> #[trigger] r.1@[j] <= 5,
{
    let ghost h = hdr@;
    proof {
        crate::hdr::lemma_hdr_len(hdr);
    }
    let partitions: [[u8; 28]; 3] = [
        [6, 5, 5, 5, 6, 5, 5, 5, 6, 5, 7, 3, 11, 10, 0, 0, 7, 7, 7, 0, 6, 6, 6, 3, 8, 8, 5, 0],
        [8, 9, 6, 12, 6, 9, 9, 9, 6, 9, 12, 6, 15, 18, 0, 0, 6, 15, 12, 0, 6, 12, 9, 6, 6, 18, 9, 0],
        [9, 9, 6, 12, 9, 9, 9, 9, 9, 9, 12, 6, 18, 18, 0, 0, 12, 12, 12, 0, 12, 9, 9, 6, 15, 12, 9, 0],
    ];
    let pidx = (gr.n_short_sfb != 0) as usize + (gr.n_long_sfb == 0) as usize;
    proof {
        assert(partitions[0]@ =~= partition_row(0));
        assert(partitions[1]@ =~= partition_row(1));
        assert(partitions[2]@ =~= partition_row(2));
    }
    let partition = partitions[pidx];

    let mut scf_size: [u8; 4] = [0; 4];
    let mut scfsi: i32 = gr.scfsi as i32;
    if hdr.test_mpeg1() != 0 {
        let scfc: [u8; 16] = [0, 1, 2, 3, 12, 5, 6, 7, 9, 10, 11, 13, 14, 15, 18, 19];
        proof {
            assert(scfc@ =~= scfc_decode());
        }
        let part = scfc[gr.scalefac_compress as usize];
        scf_size[0] = part >> 2;
        scf_size[1] = part >> 2;
        scf_size[2] = part & 3;
        scf_size[3] = part & 3;
        proof {
            assert(part <= 19);
            assert(part <= 19 ==> part >> 2u8 <= 4u8 && part & 3u8 <= 3u8) by (bit_vector);
        }
    } else {
        let ist = hdr.test_i_stereo() != 0 && ch;
        scf_size = lsf_scf_sizes(gr.scalefac_compress, ist);
        scfsi = -16;
        proof {
            let v: int = if ist { gr.scalefac_compress as int / 2 } else { gr.scalefac_compress as int };
            lemma_lsf_sizes_small(v, if ist { 12 } else { 0 });
        }
    }
    proof {
        assert(scf_size@ =~= spec_scf_sizes(h, *gr, ch));
    }
    (partition, scf_size, scfsi)
}

/// The intensity positions and the reader suit a decode of the scale factors of
/// the granule: the groups fit in `ist`, the bits they take fit the reader's
/// position and buffer, and no scale factor plus its gain exceeds 255.
pub open spec fn scf_decode_fits(h: Seq<u8>, ist: Seq<u8>, bs: Bs_t, gr: L3GrInfo_t, ch: bool) -> bool {
    let c = partition_row(partition_index(gr));
    let bits = bits_off(c, spec_scf_sizes(h, gr, ch), spec_scfsi_word(h, gr), 4);
    &&& grp_off(c, 4) <= ist.len()
    &&& bs.spec_pos() + bits <= u32::MAX
    &&& bs.spec_limit() <= 8 * bs.data().len() || bs.spec_pos() + bits <= 8 * bs.data().len()
    &&& forall|idx: int|
        0 <= idx < 40 ==> #[trigger] spec_iscf(ist, bs.data(), bs.spec_limit(), bs.spec_pos() as int, h, gr, ch, idx)
            <= 255
}

/// The gain added to scale factor `idx`.
fn scf_gain_add_at(gr: &L3GrInfo_t, idx: usize) -> (r: u32)
    requires
        idx < 40,
        gr.scalefac_scale < 255,
        gr.n_short_sfb != 0 ==> gr.scalefac_scale + 1 <= 3,
    ensures
        r == scf_gain_add(*gr, idx as int),
{
    if gr.n_short_sfb != 0 {
        let sh: u8 = 3 - (gr.scalefac_scale + 1);
        let n_long = gr.n_long_sfb as usize;
        let span = 3 * ((gr.n_short_sfb as usize + 2) / 3);
        if n_long <= idx && idx - n_long < span {
            (gr.subblock_gain[(idx - n_long) % 3] << sh) as u32
        } else {
            0
        }
    } else if gr.preflag != 0 && 11 <= idx && idx < 21 {
        let pre: [u8; 10] = [1, 1, 1, 1, 2, 2, 3, 3, 3, 2];
        proof {
            assert(pre@ =~= preamp());
        }
        pre[idx - 11] as u32
    } else {
        0
    }
}

/// Tells whether `ist_pos` and the reader suit a decode of the scale factors of
/// the granule (see `L3_decode_scalefactors`), without moving the reader or
/// changing `ist_pos`: it reads the scale factors on copies of both.
#[allow(non_snake_case)]
pub fn L3_scalefactors_fit(hdr: &Hdr, ist_pos: &[u8], bs: &Bs_t, gr: &L3GrInfo_t, ch: bool) -> (r: bool)
    requires
        gr.scalefac_scale < 255,
        spec_is_mpeg1(hdr@) ==> gr.scalefac_compress < 16,
        !spec_is_mpeg1(hdr@) ==> (if lsf_intensity(hdr@, ch) {
            gr.scalefac_compress < 512
        } else {
            gr.scalefac_compress < 768
        }),
        gr.n_short_sfb != 0 ==> gr.scalefac_scale + 1 <= 3,
    ensures
        r == scf_decode_fits(hdr@, ist_pos@, *bs, *gr, ch),
{
    let ghost h = hdr@;
    let ghost data = bs.data();
    let ghost limit = bs.spec_limit();
    let ghost p0 = bs.spec_pos() as int;
    let ghost ist0 = ist_pos@;
    let (partition, scf_size, scfsi) = scf_layout(hdr, gr, ch);
    let ghost c = partition@;
    let ghost sz = scf_size@;
    proof {
        lemma_partition_rows(*gr);
    }
    let mut total: usize = 0;
    let mut bits: u64 = 0;
    let mut sfsi: i32 = scfsi;
    for j in 0..4usize
        invariant
            c == partition@,
            sz == scf_size@,
            c.len() == 28,
            sz.len() == 4,
            total == grp_off(c, j as nat),
            total <= 255 * j,
            bits == bits_off(c, sz, scfsi, j as nat),
            bits <= 65025 * j,
            sfsi == scfsi_at(scfsi, j as nat),
    {
        proof {
            assert(partition[j as int] * scf_size[j as int] <= 65025) by (nonlinear_arith)
                requires
                    partition[j as int] <= 255,
                    scf_size[j as int] <= 255,
            ;
        }
        total += partition[j] as usize;
        if sfsi & 8 == 0 && scf_size[j] != 0 {
            bits += partition[j] as u64 * scf_size[j] as u64;
        }
        proof {
            assert(grp_copies(scfsi, j as nat) == (sfsi & 8 != 0));
            assert(grp_bits(c, sz, scfsi, j as nat) == (if sfsi & 8 != 0 || sz[j as int] == 0 {
                0
            } else {
                (c[j as int] * sz[j as int]) as nat
            }));
        }
        sfsi = sfsi.wrapping_mul(2);
    }
    if total > ist_pos.len() {
        return false;
    }
    let pos = bs.pos() as u128;
    let lim = bs.limit() as u128;
    let len = bs.buf_len() as u128;
    if pos + bits as u128 > 0xffff_ffff {
        return false;
    }
    if !(lim <= 8 * len || pos + bits as u128 <= 8 * len) {
        return false;
    }

    let mut reader: Bs_t = *bs;
    let mut ist_copy: Vec<u8> = vstd::slice::slice_to_vec(ist_pos);
    let mut iscf: [u8; 40] = [0; 40];
    proof {
        assert forall|j: int|
            0 <= j < n_groups(c) && !#[trigger] grp_copies(scfsi, j as nat) implies j < sz.len() by {}
        assert forall|j: int|
            0 <= j < n_groups(c) && !grp_copies(scfsi, j as nat) implies #[trigger] read_width_ok(
            c, sz, scfsi, j, p0, limit) by {
            assert(sz[j] <= 5);
        }
    }
    L3_read_scalefactors(&mut iscf, ist_copy.as_mut_slice(), &scf_size, partition.as_slice(), &mut reader, scfsi);
    proof {
        assert forall|idx: int| 0 <= idx < 40 implies #[trigger] iscf@[idx] == scf_from(
            ist0, data, limit, p0, c, sz, scfsi, 0, idx) by {
            lemma_scf_from(ist0, data, limit, p0, c, sz, scfsi, iscf@, 0, idx);
        }
    }
    let mut idx: usize = 0;
    while idx < 40
        invariant
            idx <= 40,
            h == hdr@,
            ist0 == ist_pos@,
            data == bs.data(),
            limit == bs.spec_limit(),
            p0 == bs.spec_pos() as int,
            gr.scalefac_scale < 255,
            gr.n_short_sfb != 0 ==> gr.scalefac_scale + 1 <= 3,
            forall|t: int| 0 <= t < 40 ==> #[trigger] iscf@[t] == scf_from(ist0, data, limit, p0, c, sz, scfsi, 0, t),
            c == partition_row(partition_index(*gr)),
            sz == spec_scf_sizes(h, *gr, ch),
            scfsi == spec_scfsi_word(h, *gr),
            forall|t: int| 0 <= t < idx ==> #[trigger] spec_iscf(ist0, data, limit, p0, h, *gr, ch, t) <= 255,
        decreases 40 - idx,
    {
        let add = scf_gain_add_at(gr, idx);
        proof {
            assert(scf_gain_add(*gr, idx as int) <= 255 * 128);
        }
        if iscf[idx] as u32 + add > 255 {
            proof {
                assert(spec_iscf(ist_pos@, bs.data(), bs.spec_limit(), bs.spec_pos() as int, hdr@, *gr, ch, idx as int)
                    > 255);
                assert(!scf_decode_fits(hdr@, ist_pos@, *bs, *gr, ch));
            }
            return false;
        }
        idx += 1;
    }
    true
}

/// Decodes the integer part of the scale factors of one granule and channel:
/// reads them (widths from scalefac_compress, groups from the partition table,
/// intensity positions into `ist_pos`), adds subblock gains or pre-emphasis,
/// and returns the exponents of the granule gain and of each band.
#[allow(non_snake_case)]
pub fn L3_decode_scalefactors(hdr: &Hdr, ist_pos: &mut [u8], bs: &mut Bs_t, gr: &L3GrInfo_t, ch: bool) -> (r: L3ScfExponents)
    requires
        gr.scalefac_scale < 255,
        spec_is_mpeg1(hdr@) ==> gr.scalefac_compress < 16,
        !spec_is_mpeg1(hdr@) ==> (if lsf_intensity(hdr@, ch) {
            gr.scalefac_compress < 512
        } else {
            gr.scalefac_compress < 768
        }),
        gr.n_short_sfb != 0 ==> gr.scalefac_scale + 1 <= 3 && gr.n_long_sfb + short_span(gr.n_short_sfb) <= 40,
        gr.n_long_sfb + gr.n_short_sfb <= 40,
        gr.n_long_sfb + gr.n_short_sfb > 0 ==> gr.scalefac_scale + 1 < 8,
        grp_off(partition_row(partition_index(*gr)), 4) <= old(ist_pos)@.len(),
        old(bs).spec_pos() + bits_off(
            partition_row(partition_index(*gr)),
            spec_scf_sizes(hdr@, *gr, ch),
            spec_scfsi_word(hdr@, *gr),
            4,
        ) <= u32::MAX,
        old(bs).spec_limit() <= 8 * old(bs).data().len() || old(bs).spec_pos() + bits_off(
            partition_row(partition_index(*gr)),
            spec_scf_sizes(hdr@, *gr, ch),
            spec_scfsi_word(hdr@, *gr),
            4,
        ) <= 8 * old(bs).data().len(),
        forall|idx: int|
            0 <= idx < 40 ==> #[trigger] spec_iscf(
                old(ist_pos)@,
                old(bs).data(),
                old(bs).spec_limit(),
                old(bs).spec_pos() as int,
                hdr@,
                *gr,
                ch,
                idx,
            ) <= 255,
    ensures
        ({
            let c = partition_row(partition_index(*gr));
            let sz = spec_scf_sizes(hdr@, *gr, ch);
            let s = spec_scfsi_word(hdr@, *gr);
            let data = old(bs).data();
            let limit = old(bs).spec_limit();
            let p0 = old(bs).spec_pos() as int;
            let ist0 = old(ist_pos)@;
            let nb = gr.n_long_sfb + gr.n_short_sfb;
            &&& final(bs).data() == data
            &&& final(bs).spec_limit() == limit
            &&& final(bs).spec_pos() == p0 + bits_off(c, sz, s, 4)
            &&& final(ist_pos)@.len() == ist0.len()
            &&& forall|j: nat, k: int|
                j < 4 && 0 <= k < c[j as int] ==> final(ist_pos)@[grp_off(c, j) + k] == #[trigger] exp_ist(
                    ist0, data, limit, p0, c, sz, s, j, k)
            &&& forall|t: int| grp_off(c, 4) <= t < ist0.len() ==> #[trigger] final(ist_pos)@[t] == ist0[t]
            &&& r.n_bands == nb
            &&& r.gain_q2 == MAX_SCFI - spec_gain_exp(hdr@, *gr)
            &&& forall|i: int|
                0 <= i < nb ==> #[trigger] r.band_q2[i] == (((spec_iscf(ist0, data, limit, p0, hdr@, *gr, ch, i)
                    as u8) << ((gr.scalefac_scale + 1) as u8)) as i32)
            &&& forall|i: int| nb <= i < 40 ==> #[trigger] r.band_q2[i] == 0
        }),
{
    let ghost data = bs.data();
    let ghost limit = bs.spec_limit();
    let ghost p0 = bs.spec_pos() as int;
    let ghost ist0 = ist_pos@;
    let ghost h = hdr@;
    proof {
        crate::hdr::lemma_hdr_len(hdr);
    }
    let (partition, scf_size, scfsi) = scf_layout(hdr, gr, ch);
    let scf_partition: &[u8] = partition.as_slice();
    let ghost c = partition_row(partition_index(*gr));
    let mut iscf: [u8; 40] = [0; 40];
    let scf_shift: u8 = gr.scalefac_scale + 1;
    let ghost sz = scf_size@;
    proof {
        lemma_partition_rows(*gr);
    }

    L3_read_scalefactors(&mut iscf, ist_pos, &scf_size, scf_partition, bs, scfsi);
    proof {
        assert forall|idx: int| 0 <= idx < 40 implies #[trigger] iscf@[idx] == scf_from(
            ist0, data, limit, p0, c, sz, scfsi, 0, idx) by {
            lemma_scf_from(ist0, data, limit, p0, c, sz, scfsi, iscf@, 0, idx);
        }
    }
    let ghost iscf_read = iscf@;
    proof {
        assert forall|idx: int| 0 <= idx < 40 implies #[trigger] iscf_read[idx] + scf_gain_add(*gr, idx) <= 255 by {
            assert(spec_iscf(ist0, data, limit, p0, h, *gr, ch, idx) <= 255);
            assert(iscf_read[idx] == scf_from(ist0, data, limit, p0, c, sz, scfsi, 0, idx));
        }
    }

    if gr.n_short_sfb != 0 {
        let sh: u8 = 3 - scf_shift;
        let mut i: usize = 0;
        let n_long = gr.n_long_sfb as usize;
        while i < gr.n_short_sfb as usize
            invariant
                i % 3 == 0,
                i <= short_span(gr.n_short_sfb),
                n_long == gr.n_long_sfb,
                gr.n_short_sfb != 0,
                scf_shift == gr.scalefac_scale + 1,
                scf_shift <= 3,
                sh == 3 - scf_shift,
                n_long + short_span(gr.n_short_sfb) <= 40,
                forall|idx: int| 0 <= idx < 40 ==> #[trigger] iscf_read[idx] + scf_gain_add(*gr, idx) <= 255,
                forall|idx: int|
                    0 <= idx < 40 ==> #[trigger] iscf@[idx] == (if n_long <= idx < n_long + i {
                        iscf_read[idx] + scf_gain_add(*gr, idx)
                    } else {
                        iscf_read[idx] as int
                    }),
            decreases short_span(gr.n_short_sfb) - i,
        {
            proof {
                assert(i + 3 <= short_span(gr.n_short_sfb)) by (nonlinear_arith)
                    requires
                        i % 3 == 0,
                        i < gr.n_short_sfb,
                        short_span(gr.n_short_sfb) == 3 * ((gr.n_short_sfb as int + 2) / 3),
                ;
                assert((n_long + i - n_long) % 3 == 0 && (n_long + i + 1 - n_long) % 3 == 1 && (n_long + i + 2
                    - n_long) % 3 == 2);
                assert(iscf_read[n_long + i] + scf_gain_add(*gr, n_long + i) <= 255);
                assert(iscf_read[n_long + i + 1] + scf_gain_add(*gr, n_long + i + 1) <= 255);
                assert(iscf_read[n_long + i + 2] + scf_gain_add(*gr, n_long + i + 2) <= 255);
            }
            iscf[n_long + i] += gr.subblock_gain[0] << sh;
            iscf[n_long + i + 1] += gr.subblock_gain[1] << sh;
            iscf[n_long + i + 2] += gr.subblock_gain[2] << sh;
            i += 3;
        }
        proof {
            assert(i == short_span(gr.n_short_sfb)) by (nonlinear_arith)
                requires
                    i % 3 == 0,
                    i >= gr.n_short_sfb,
                    i <= short_span(gr.n_short_sfb),
                    short_span(gr.n_short_sfb) == 3 * ((gr.n_short_sfb as int + 2) / 3),
            ;
        }
    } else if gr.preflag != 0 {
        let pre: [u8; 10] = [1, 1, 1, 1, 2, 2, 3, 3, 3, 2];
        proof {
            assert(pre@ =~= preamp());
        }
        for i in 0..10
            invariant
                pre@ == preamp(),
                gr.n_short_sfb == 0,
                gr.preflag != 0,
                forall|idx: int| 0 <= idx < 40 ==> #[trigger] iscf_read[idx] + scf_gain_add(*gr, idx) <= 255,
                forall|idx: int|
                    0 <= idx < 40 ==> #[trigger] iscf@[idx] == (if 11 <= idx < 11 + i {
                        iscf_read[idx] + scf_gain_add(*gr, idx)
                    } else {
                        iscf_read[idx] as int
                    }),
        {
            proof {
                assert(iscf_read[11 + i] + scf_gain_add(*gr, 11 + i) <= 255);
            }
            iscf[11 + i] += pre[i];
        }
    }
    proof {
        assert forall|idx: int| 0 <= idx < 40 implies #[trigger] iscf@[idx] == spec_iscf(
            ist0, data, limit, p0, h, *gr, ch, idx) by {
            assert(iscf_read[idx] == scf_from(ist0, data, limit, p0, c, sz, scfsi, 0, idx));
        }
    }

    let ms: isize = if hdr.is_ms_stereo() { 2 } else { 0 };
    let gain_exp: isize = gr.global_gain as isize + BITS_DEQUANTIZER_OUT * 4 - 210 - ms;
    proof {
        assert(MAX_SCF == 41);
        assert(MAX_SCFI == 44) by (bit_vector);
    }
    let gain_q2: i32 = (MAX_SCFI - gain_exp) as i32;

    let n_bands = gr.n_long_sfb as usize + gr.n_short_sfb as usize;
    let mut band_q2: [i32; 40] = [0; 40];
    for i in 0..n_bands
        invariant
            n_bands == gr.n_long_sfb + gr.n_short_sfb,
            n_bands <= 40,
            n_bands > 0 ==> scf_shift < 8,
            scf_shift == gr.scalefac_scale + 1,
            forall|t: int| 0 <= t < 40 ==> #[trigger] iscf@[t] == spec_iscf(ist0, data, limit, p0, h, *gr, ch, t),
            forall|t: int| 0 <= t < i ==> #[trigger] band_q2@[t] == (((iscf@[t]) << scf_shift) as i32),
            forall|t: int| i <= t < 40 ==> #[trigger] band_q2@[t] == 0,
    {
        band_q2[i] = (iscf[i] << scf_shift) as i32;
    }
    L3ScfExponents { gain_q2, band_q2, n_bands }
}

/// The MPEG-2 widths are digits of radices at most 6.
proof fn lemma_lsf_sizes_small(v: int, k: int)
    requires
        k == 0 || k == 4 || k == 8 || k == 12 || k == 16 || k == 20,
    ensures
        forall|j: int| 0 <= j < 4 ==> #[trigger] lsf_sizes_from(v, k)[j] <= 5,
        lsf_sizes_from(v, k).len() == 4,
    decreases 24 - k,
{
    lemma_radix_row(k);
    if k + 4 >= 24 || v < radix_prod(k, 0) {
        assert forall|j: int| 0 <= j < 4 implies #[trigger] radix_digits(v, k)[j] <= 5 by {
            let m = mod_table()[k + j] as int;
            assert(1 <= m <= 6);
            assert(0 <= (v / radix_prod(k, j + 1)) % m < m);
        }
    } else {
        lemma_lsf_sizes_small(v - radix_prod(k, 0), k + 4);
    }
}

/// MPEG-1 scale-factor widths follow the slen1/slen2 table of the standard:
/// groups 0 and 1 are slen1 bits wide and groups 2 and 3 slen2 bits, with
/// slen1 = 0, 0, 0, 0, 3, 1, 1, 1, 2, 2, 2, 3, 3, 3, 4, 4 and
/// slen2 = 0, 1, 2, 3, 0, 1, 2, 3, 1, 2, 3, 1, 2, 3, 2, 3 by scalefac_compress.
pub proof fn lemma_mpeg1_scf_sizes(h: Seq<u8>, gr: L3GrInfo_t, ch: bool)
    requires
        h.len() == 4,
        h[1] & 8u8 != 0,
        gr.scalefac_compress < 16,
    ensures
        ({
            let i = gr.scalefac_compress as int;
            let s1 = seq![0u8, 0, 0, 0, 3, 1, 1, 1, 2, 2, 2, 3, 3, 3, 4, 4][i];
            let s2 = seq![0u8, 1, 2, 3, 0, 1, 2, 3, 1, 2, 3, 1, 2, 3, 2, 3][i];
            spec_scf_sizes(h, gr, ch) == seq![s1, s1, s2, s2]
        }),
{
    let i = gr.scalefac_compress as int;
    let x = scfc_decode()[i];
    assert(x == 0 || x == 1 || x == 2 || x == 3 || x == 12 || x == 5 || x == 6 || x == 7 || x == 9 || x == 10
        || x == 11 || x == 13 || x == 14 || x == 15 || x == 18 || x == 19);
    assert({
        &&& x == 0 ==> x >> 2u8 == 0 && x & 3u8 == 0
        &&& x == 1 ==> x >> 2u8 == 0 && x & 3u8 == 1
        &&& x == 2 ==> x >> 2u8 == 0 && x & 3u8 == 2
        &&& x == 3 ==> x >> 2u8 == 0 && x & 3u8 == 3
        &&& x == 12 ==> x >> 2u8 == 3 && x & 3u8 == 0
        &&& x == 5 ==> x >> 2u8 == 1 && x & 3u8 == 1
        &&& x == 6 ==> x >> 2u8 == 1 && x & 3u8 == 2
        &&& x == 7 ==> x >> 2u8 == 1 && x & 3u8 == 3
        &&& x == 9 ==> x >> 2u8 == 2 && x & 3u8 == 1
        &&& x == 10 ==> x >> 2u8 == 2 && x & 3u8 == 2
        &&& x == 11 ==> x >> 2u8 == 2 && x & 3u8 == 3
        &&& x == 13 ==> x >> 2u8 == 3 && x & 3u8 == 1
        &&& x == 14 ==> x >> 2u8 == 3 && x & 3u8 == 2
        &&& x == 15 ==> x >> 2u8 == 3 && x & 3u8 == 3
        &&& x == 18 ==> x >> 2u8 == 4 && x & 3u8 == 2
        &&& x == 19 ==> x >> 2u8 == 4 && x & 3u8 == 3
    }) by (bit_vector);
    let r = spec_scf_sizes(h, gr, ch);
    let s1 = seq![0u8, 0, 0, 0, 3, 1, 1, 1, 2, 2, 2, 3, 3, 3, 4, 4][i];
    let s2 = seq![0u8, 1, 2, 3, 0, 1, 2, 3, 1, 2, 3, 1, 2, 3, 2, 3][i];
    assert(x >> 2u8 == s1 && x & 3u8 == s2) by {
        if i == 0 {} else if i == 1 {} else if i == 2 {} else if i == 3 {} else if i == 4 {} else if i == 5 {}
        else if i == 6 {} else if i == 7 {} else if i == 8 {} else if i == 9 {} else if i == 10 {}
        else if i == 11 {} else if i == 12 {} else if i == 13 {} else if i == 14 {} else {}
    }
    assert(r =~= seq![s1, s1, s2, s2]);
}

/// The radix products of every row, from each position to the end.
proof fn lemma_radix_products()
    ensures
        radix_prod(0, 0) == 400 && radix_prod(0, 1) == 80 && radix_prod(0, 2) == 16 && radix_prod(0, 3) == 4,
        radix_prod(4, 0) == 100 && radix_prod(4, 1) == 20 && radix_prod(4, 2) == 4 && radix_prod(4, 3) == 1,
        radix_prod(8, 0) == 12 && radix_prod(8, 1) == 3 && radix_prod(8, 2) == 1 && radix_prod(8, 3) == 1,
        radix_prod(12, 0) == 180 && radix_prod(12, 1) == 36 && radix_prod(12, 2) == 6 && radix_prod(12, 3) == 1,
        radix_prod(16, 0) == 64 && radix_prod(16, 1) == 16 && radix_prod(16, 2) == 4 && radix_prod(16, 3) == 1,
        radix_prod(20, 0) == 12 && radix_prod(20, 1) == 3 && radix_prod(20, 2) == 1 && radix_prod(20, 3) == 1,
        forall|k: int| #![trigger radix_prod(k, 4)] radix_prod(k, 4) == 1,
{
    lemma_radix_row(0);
    lemma_radix_row(4);
    lemma_radix_row(8);
    lemma_radix_row(12);
    lemma_radix_row(16);
    lemma_radix_row(20);
    let m = mod_table();
    assert(m[0] == 5 && m[1] == 5 && m[2] == 4 && m[3] == 4);
    assert(m[4] == 5 && m[5] == 5 && m[6] == 4 && m[7] == 1);
    assert(m[8] == 4 && m[9] == 3 && m[10] == 1 && m[11] == 1);
    assert(m[12] == 5 && m[13] == 6 && m[14] == 6 && m[15] == 1);
    assert(m[16] == 4 && m[17] == 4 && m[18] == 4 && m[19] == 1);
    assert(m[20] == 4 && m[21] == 3 && m[22] == 1 && m[23] == 1);
    lemma_radix_step(0, 3, 1, 4);
    lemma_radix_step(0, 2, 4, 4);
    lemma_radix_step(0, 1, 16, 5);
    lemma_radix_step(4, 3, 1, 1);
    lemma_radix_step(4, 2, 1, 4);
    lemma_radix_step(4, 1, 4, 5);
    lemma_radix_step(8, 3, 1, 1);
    lemma_radix_step(8, 2, 1, 1);
    lemma_radix_step(8, 1, 1, 3);
    lemma_radix_step(12, 3, 1, 1);
    lemma_radix_step(12, 2, 1, 6);
    lemma_radix_step(12, 1, 6, 6);
    lemma_radix_step(16, 3, 1, 1);
    lemma_radix_step(16, 2, 1, 4);
    lemma_radix_step(16, 1, 4, 4);
    lemma_radix_step(20, 3, 1, 1);
    lemma_radix_step(20, 2, 1, 1);
    lemma_radix_step(20, 1, 1, 3);
}

/// MPEG-2 and MPEG-2.5 scale-factor widths follow the formulas of the
/// standard. Without intensity stereo, for scalefac_compress `c`: below 400,
/// `(c / 16) / 5`, `(c / 16) % 5`, `(c % 16) / 4`, `c % 4`; from 400 to 499, with
/// `x = c - 400`, `(x / 4) / 5`, `(x / 4) % 5`, `x % 4`, 0; from 500 to 511, with
/// `x = c - 500`, `x / 3`, `x % 3`, 0, 0. With intensity stereo, for `v = c / 2`:
/// below 180, `v / 36`, `(v % 36) / 6`, `v % 6`, 0; from 180 to 243, with
/// `x = v - 180`, `x / 16`, `(x % 16) / 4`, `x % 4`, 0; from 244 to 255, with
/// `x = v - 244`, `x / 3`, `x % 3`, 0, 0.
pub proof fn lemma_lsf_scf_sizes(h: Seq<u8>, gr: L3GrInfo_t, ch: bool)
    requires
        h.len() == 4,
        h[1] & 8u8 == 0,
        gr.scalefac_compress < 512,
    ensures
        ({
            let c = gr.scalefac_compress as int;
            let v = c / 2;
            let r = spec_scf_sizes(h, gr, ch);
            &&& r.len() == 4
            &&& !lsf_intensity(h, ch) && c < 400 ==> r[0] == (c / 16) / 5 && r[1] == (c / 16) % 5 && r[2] == (c
                % 16) / 4 && r[3] == c % 4
            &&& !lsf_intensity(h, ch) && 400 <= c < 500 ==> r[0] == ((c - 400) / 4) / 5 && r[1] == ((c - 400)
                / 4) % 5 && r[2] == (c - 400) % 4 && r[3] == 0
            &&& !lsf_intensity(h, ch) && 500 <= c ==> r[0] == (c - 500) / 3 && r[1] == (c - 500) % 3 && r[2]
                == 0 && r[3] == 0
            &&& lsf_intensity(h, ch) && v < 180 ==> r[0] == v / 36 && r[1] == (v % 36) / 6 && r[2] == v % 6
                && r[3] == 0
            &&& lsf_intensity(h, ch) && 180 <= v < 244 ==> r[0] == (v - 180) / 16 && r[1] == ((v - 180) % 16)
                / 4 && r[2] == (v - 180) % 4 && r[3] == 0
            &&& lsf_intensity(h, ch) && 244 <= v ==> r[0] == (v - 244) / 3 && r[1] == (v - 244) % 3 && r[2]
                == 0 && r[3] == 0
        }),
{
    lemma_radix_products();
    let m = mod_table();
    assert(m[0] == 5 && m[1] == 5 && m[2] == 4 && m[3] == 4);
    assert(m[4] == 5 && m[5] == 5 && m[6] == 4 && m[7] == 1);
    assert(m[8] == 4 && m[9] == 3 && m[10] == 1 && m[11] == 1);
    assert(m[12] == 5 && m[13] == 6 && m[14] == 6 && m[15] == 1);
    assert(m[16] == 4 && m[17] == 4 && m[18] == 4 && m[19] == 1);
    assert(m[20] == 4 && m[21] == 3 && m[22] == 1 && m[23] == 1);
    assert(h[1] & 8u8 == 0 ==> !spec_is_mpeg1(h));
    let c = gr.scalefac_compress as int;
    let v = c / 2;
    reveal_with_fuel(lsf_sizes_from, 4);
    if !lsf_intensity(h, ch) {
        if c < 400 {
            assert((c / 80) % 5 == (c / 16) / 5 && (c / 4) % 4 == (c % 16) / 4) by (nonlinear_arith)
                requires
                    0 <= c < 400,
            ;
        } else if c < 500 {
            let x = c - 400;
            assert((x / 20) % 5 == (x / 4) / 5 && x % 1 == 0) by (nonlinear_arith)
                requires
                    0 <= x < 100,
            ;
        } else {
            let x = c - 500;
            assert((x / 3) % 4 == x / 3 && x % 1 == 0) by (nonlinear_arith)
                requires
                    0 <= x < 12,
            ;
        }
    } else {
        if v < 180 {
            assert((v / 36) % 5 == v / 36 && (v / 6) % 6 == (v % 36) / 6 && v % 1 == 0) by (nonlinear_arith)
                requires
                    0 <= v < 180,
            ;
        } else if v < 244 {
            let x = v - 180;
            assert((x / 16) % 4 == x / 16 && (x / 4) % 4 == (x % 16) / 4 && x % 1 == 0) by (nonlinear_arith)
                requires
                    0 <= x < 64,
            ;
        } else {
            let x = v - 244;
            assert((x / 3) % 4 == x / 3 && x % 1 == 0) by (nonlinear_arith)
                requires
                    0 <= x < 12,
            ;
        }
    }
}

} // verus!
