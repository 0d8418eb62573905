//! Layer III side information: the per-granule, per-channel parameters that
//! precede the main data of a frame.
use vstd::prelude::*;
use crate::bitstream::{Bs_t, rd, lemma_rd_bound};
use crate::hdr::{Hdr, spec_is_mpeg1, spec_my_sample_rate, spec_stereo_mode};
use crate::sfb::{SfbKind, SfbTable};

verus! {

/// Block type of the short blocks.
pub const SHORT_BLOCK_TYPE: u8 = 2;
/// Block type of the stop block that ends a run of short blocks.
pub const STOP_BLOCK_TYPE: usize = 3;

/// Side information of one granule of one channel.
#[allow(non_camel_case_types)]
#[derive(Clone, Copy)]
pub struct L3GrInfo_t {
    pub sfbtab: SfbTable,
    pub part_23_length: u16,
    pub big_values: u16,
    pub scalefac_compress: u16,
    pub global_gain: u8,
    pub block_type: u8,
    pub mixed_block_flag: u8,
    pub n_long_sfb: u8,
    pub n_short_sfb: u8,
    pub table_select: [u8; 3],
    pub region_count: [u8; 3],
    pub subblock_gain: [u8; 3],
    pub preflag: u8,
    pub scalefac_scale: u8,
    pub count1_table: u8,
    pub scfsi: u8,
}

// ---------------------------------------------------------------------------
// The layout of the side information.
// ---------------------------------------------------------------------------

/// Number of granule records: one per channel, two granules per frame in MPEG-1.
pub open spec fn spec_gr_count(h: Seq<u8>) -> nat {
    (if spec_stereo_mode(h) == 3 { 1nat } else { 2nat }) * (if spec_is_mpeg1(h) { 2nat } else { 1nat })
}

/// Number of channels, each with one granule record per granule: one in mono, two otherwise.
pub open spec fn spec_channel_count(h: Seq<u8>) -> nat {
    if spec_stereo_mode(h) == 3 {
        1
    } else {
        2
    }
}

/// Number of records parsed into `len` slots: all of them, or as many as there are slots.
pub open spec fn spec_parsed_count(h: Seq<u8>, len: nat) -> nat {
    if len < spec_gr_count(h) {
        len
    } else {
        spec_gr_count(h)
    }
}

/// Bits before the first granule record: main_data_begin, private bits and, in MPEG-1, scfsi.
pub open spec fn side_hdr_bits(h: Seq<u8>) -> nat {
    if spec_is_mpeg1(h) {
        9 + spec_gr_count(h) + 7
    } else {
        spec_gr_count(h) + 8
    }
}

/// Width of scalefac_compress.
pub open spec fn sfc_bits(h: Seq<u8>) -> nat {
    if spec_is_mpeg1(h) {
        4
    } else {
        9
    }
}

/// Bits of one granule record.
pub open spec fn granule_bits(h: Seq<u8>) -> nat {
    if spec_is_mpeg1(h) {
        59
    } else {
        63
    }
}

/// Bit position of granule record `g` when the side information starts at `pos0`.
pub open spec fn granule_pos(pos0: int, h: Seq<u8>, g: int) -> int {
    pos0 + side_hdr_bits(h) + g * granule_bits(h)
}

/// Bit position after the last granule record.
pub open spec fn side_info_end(pos0: int, h: Seq<u8>) -> int {
    granule_pos(pos0, h, spec_gr_count(h) as int)
}

/// The main_data_begin field.
pub open spec fn spec_main_data_begin(data: Seq<u8>, limit: u32, pos0: int, h: Seq<u8>) -> u32 {
    if spec_is_mpeg1(h) {
        rd(data, limit, pos0, 9)
    } else {
        rd(data, limit, pos0, spec_gr_count(h) + 8) >> (spec_gr_count(h) as u32)
    }
}

/// Row of the band tables for this header's sample rate.
pub open spec fn sfb_row(h: Seq<u8>) -> u8 {
    if spec_my_sample_rate(h) != 0 {
        (spec_my_sample_rate(h) - 1) as u8
    } else {
        0
    }
}

/// The window_switching_flag of the record at `o`.
pub open spec fn window_switching(data: Seq<u8>, limit: u32, o: int, h: Seq<u8>) -> bool {
    rd(data, limit, o + 29 + sfc_bits(h), 1) != 0
}

/// The block_type of a window-switched record at `o`.
pub open spec fn switched_block_type(data: Seq<u8>, limit: u32, o: int, h: Seq<u8>) -> u32 {
    rd(data, limit, o + 30 + sfc_bits(h), 2)
}

/// The record at `o` is acceptable: big_values is at most 288, and a window-switched
/// record does not have block type 0.
pub open spec fn granule_ok(data: Seq<u8>, limit: u32, o: int, h: Seq<u8>) -> bool {
    &&& rd(data, limit, o + 12, 9) <= 288
    &&& !(window_switching(data, limit, o, h) && switched_block_type(data, limit, o, h) == 0)
}

/// Record `g` of the side information starting at `pos0` is acceptable.
pub open spec fn granule_ok_at(data: Seq<u8>, limit: u32, pos0: int, h: Seq<u8>, g: int) -> bool {
    granule_ok(data, limit, granule_pos(pos0, h, g), h)
}

/// All records before `g` are acceptable, so the parse reaches record `g`.
pub open spec fn reached(data: Seq<u8>, limit: u32, pos0: int, h: Seq<u8>, g: int) -> bool {
    forall|k: int| 0 <= k < g ==> #[trigger] granule_ok_at(data, limit, pos0, h, k)
}

/// Bits the parse takes from the record at `o`: all of them when the record is
/// acceptable, otherwise those up to the field that rejects it (big_values, or
/// the block type of a window-switched record).
pub open spec fn granule_read_bits(data: Seq<u8>, limit: u32, o: int, h: Seq<u8>) -> nat {
    if granule_ok(data, limit, o, h) {
        granule_bits(h)
    } else if rd(data, limit, o + 12, 9) > 288 {
        21
    } else {
        32 + sfc_bits(h)
    }
}

/// Bit position where a parse of `n` records stops reading, looking from record
/// `g` on: after the first rejected record's rejecting field, or after record `n - 1`.
pub open spec fn side_info_read_end_from(data: Seq<u8>, limit: u32, pos0: int, h: Seq<u8>, n: nat, g: nat) -> int
    decreases n - g,
{
    if g >= n {
        granule_pos(pos0, h, n as int)
    } else if !granule_ok_at(data, limit, pos0, h, g as int) {
        granule_pos(pos0, h, g as int) + granule_read_bits(data, limit, granule_pos(pos0, h, g as int), h)
    } else {
        side_info_read_end_from(data, limit, pos0, h, n, g + 1)
    }
}

/// Bit position where a parse of `n` records of the side information at `pos0` stops reading.
pub open spec fn side_info_read_end(data: Seq<u8>, limit: u32, pos0: int, h: Seq<u8>, n: nat) -> int {
    side_info_read_end_from(data, limit, pos0, h, n, 0)
}

/// One record's effect on the scfsi shift register `inp`: 4 bits up first in a
/// mono stream, then, for a record of short blocks, only bits 0..3 and 8..11 kept.
pub open spec fn scfsi_masked(data: Seq<u8>, limit: u32, o: int, h: Seq<u8>, inp: u32) -> u32 {
    let pre: u32 = if spec_stereo_mode(h) == 3 {
        inp << 4u32
    } else {
        inp
    };
    if window_switching(data, limit, o, h) && switched_block_type(data, limit, o, h) == 2 {
        pre & 0x0F0Fu32
    } else {
        pre
    }
}

/// The scfsi shift register while record `g` is read: it starts from the
/// scfsi bits of the side-information header (0 in MPEG-2) and moves up 4 bits
/// after each record.
pub open spec fn scfsi_mid(data: Seq<u8>, limit: u32, pos0: int, h: Seq<u8>, g: nat) -> u32
    decreases g,
{
    let inp: u32 = if g == 0 {
        if spec_is_mpeg1(h) {
            rd(data, limit, pos0 + 9, spec_gr_count(h) + 7)
        } else {
            0
        }
    } else {
        scfsi_mid(data, limit, pos0, h, (g - 1) as nat) << 4u32
    };
    scfsi_masked(data, limit, granule_pos(pos0, h, g as int), h, inp)
}

/// The scfsi shift register on entry to record `g`.
pub open spec fn scfsi_in(data: Seq<u8>, limit: u32, pos0: int, h: Seq<u8>, g: nat) -> u32 {
    if g == 0 {
        if spec_is_mpeg1(h) {
            rd(data, limit, pos0 + 9, spec_gr_count(h) + 7)
        } else {
            0
        }
    } else {
        scfsi_mid(data, limit, pos0, h, (g - 1) as nat) << 4u32
    }
}

/// Sum of part2_3_length over the first `k` records.
pub open spec fn part23_sum(data: Seq<u8>, limit: u32, pos0: int, h: Seq<u8>, k: nat) -> int
    decreases k,
{
    if k == 0 {
        0
    } else {
        part23_sum(data, limit, pos0, h, (k - 1) as nat) + rd(
            data,
            limit,
            granule_pos(pos0, h, k - 1),
            12,
        )
    }
}

/// The record at `o` as the parse leaves it when big_values is too large.
pub open spec fn partial_after_big_values(data: Seq<u8>, limit: u32, o: int, old: L3GrInfo_t) -> L3GrInfo_t {
    L3GrInfo_t {
        part_23_length: rd(data, limit, o, 12) as u16,
        big_values: rd(data, limit, o + 12, 9) as u16,
        ..old
    }
}

/// The record at `o` as the parse leaves it when a window-switched block has type 0.
pub open spec fn partial_after_block_type(data: Seq<u8>, limit: u32, o: int, h: Seq<u8>, old: L3GrInfo_t) -> L3GrInfo_t {
    L3GrInfo_t {
        part_23_length: rd(data, limit, o, 12) as u16,
        big_values: rd(data, limit, o + 12, 9) as u16,
        global_gain: rd(data, limit, o + 21, 8) as u8,
        scalefac_compress: rd(data, limit, o + 29, sfc_bits(h)) as u16,
        sfbtab: SfbTable { kind: SfbKind::Long, sr_idx: sfb_row(h) },
        n_long_sfb: 22,
        n_short_sfb: 0,
        block_type: 0,
        ..old
    }
}

/// What the parse leaves in the slot of the record at `o` when that record is rejected.
#[verifier::opaque]
pub open spec fn rejected_at(data: Seq<u8>, limit: u32, o: int, h: Seq<u8>, old: L3GrInfo_t) -> L3GrInfo_t {
    if rd(data, limit, o + 12, 9) > 288 {
        partial_after_big_values(data, limit, o, old)
    } else {
        partial_after_block_type(data, limit, o, h, old)
    }
}

/// The table selectors packed in 15 bits, 5 per region.
pub open spec fn unpack_tables(tables: u32) -> [u8; 3] {
    [(tables >> 10u32) as u8, ((tables >> 5u32) & 31u32) as u8, (tables & 31u32) as u8]
}

/// What the parse leaves in the slot of record `g` when that record is rejected.
pub open spec fn spec_rejected(data: Seq<u8>, limit: u32, pos0: int, h: Seq<u8>, g: int, old: L3GrInfo_t) -> L3GrInfo_t {
    rejected_at(data, limit, granule_pos(pos0, h, g), h, old)
}

/// Record `g` of the side information starting at `pos0`, decoded; fields that the
/// record does not carry keep their values from `old`.
pub open spec fn spec_granule(data: Seq<u8>, limit: u32, pos0: int, h: Seq<u8>, g: int, old: L3GrInfo_t) -> L3GrInfo_t {
    granule_at(data, limit, granule_pos(pos0, h, g), h, scfsi_mid(data, limit, pos0, h, g as nat), old)
}

/// The record at `o`, decoded with `mid` in the scfsi shift register; fields that
/// the record does not carry keep their values from `old`.
#[verifier::opaque]
pub open spec fn granule_at(data: Seq<u8>, limit: u32, o: int, h: Seq<u8>, mid: u32, old: L3GrInfo_t) -> L3GrInfo_t {
    let sfcw = sfc_bits(h);
    let w = o + 29 + sfcw;
    let mpeg1 = spec_is_mpeg1(h);
    let scalefac_compress = rd(data, limit, o + 29, sfcw) as u16;
    let p: int = if mpeg1 { 1 } else { 0 };
    let common = L3GrInfo_t {
        part_23_length: rd(data, limit, o, 12) as u16,
        big_values: rd(data, limit, o + 12, 9) as u16,
        global_gain: rd(data, limit, o + 21, 8) as u8,
        scalefac_compress,
        preflag: if mpeg1 {
            rd(data, limit, w + 23, 1) as u8
        } else if scalefac_compress >= 500 {
            1u8
        } else {
            0u8
        },
        scalefac_scale: rd(data, limit, w + 23 + p, 1) as u8,
        count1_table: rd(data, limit, w + 24 + p, 1) as u8,
        scfsi: ((mid >> 12u32) & 15u32) as u8,
        ..old
    };
    if window_switching(data, limit, o, h) {
        let bt = rd(data, limit, w + 1, 2) as u8;
        let mixed = rd(data, limit, w + 3, 1) as u8;
        let short = bt == SHORT_BLOCK_TYPE;
        L3GrInfo_t {
            block_type: bt,
            mixed_block_flag: mixed,
            region_count: [
                if short && mixed == 0 { 8u8 } else { 7u8 },
                255u8,
                old.region_count[2],
            ],
            sfbtab: SfbTable {
                kind: if !short { SfbKind::Long } else if mixed == 0 { SfbKind::Short } else { SfbKind::Mixed },
                sr_idx: sfb_row(h),
            },
            n_long_sfb: if !short { 22u8 } else if mixed == 0 { 0u8 } else if mpeg1 { 8u8 } else { 6u8 },
            n_short_sfb: if !short { 0u8 } else if mixed == 0 { 39u8 } else { 30u8 },
            table_select: unpack_tables((rd(data, limit, w + 4, 10) << 5u32) as u32),
            subblock_gain: [
                rd(data, limit, w + 14, 3) as u8,
                rd(data, limit, w + 17, 3) as u8,
                rd(data, limit, w + 20, 3) as u8,
            ],
            ..common
        }
    } else {
        L3GrInfo_t {
            block_type: 0,
            mixed_block_flag: 0,
            region_count: [rd(data, limit, w + 16, 4) as u8, rd(data, limit, w + 20, 3) as u8, 255u8],
            sfbtab: SfbTable { kind: SfbKind::Long, sr_idx: sfb_row(h) },
            n_long_sfb: 22,
            n_short_sfb: 0,
            table_select: unpack_tables(rd(data, limit, w + 1, 15)),
            ..common
        }
    }
}


/// The sum of part2_3_length grows by at most 4095 per record.
proof fn lemma_part23_sum_bound(data: Seq<u8>, limit: u32, pos0: int, h: Seq<u8>, k: nat)
    ensures
        0 <= part23_sum(data, limit, pos0, h, k) <= 4095 * k,
    decreases k,
{
    if k > 0 {
        lemma_part23_sum_bound(data, limit, pos0, h, (k - 1) as nat);
        lemma_rd_bound(data, limit, granule_pos(pos0, h, k - 1), 12);
        vstd::arithmetic::power2::lemma2_to64();
    }
}

/// The slots of `new` after a parse of the side information at `pos0` into `old`:
/// each record the parse reaches (among the first `min(records, slots)`) is decoded
/// into its slot, a rejected one only up to the field that rejects it; every other
/// slot keeps its value.
pub open spec fn side_info_slots(data: Seq<u8>, limit: u32, pos0: int, h: Seq<u8>, old: Seq<L3GrInfo_t>, new: Seq<L3GrInfo_t>) -> bool {
    let gc = spec_parsed_count(h, old.len()) as int;
    &&& forall|k: int|
        0 <= k < gc && reached(data, limit, pos0, h, k) && granule_ok_at(data, limit, pos0, h, k)
            ==> #[trigger] new[k] == spec_granule(data, limit, pos0, h, k, old[k])
    &&& forall|k: int|
        0 <= k < gc && reached(data, limit, pos0, h, k) && !granule_ok_at(data, limit, pos0, h, k)
            ==> #[trigger] new[k] == spec_rejected(data, limit, pos0, h, k, old[k])
    &&& forall|k: int|
        0 <= k < old.len() && !(0 <= k < gc && reached(data, limit, pos0, h, k))
            ==> #[trigger] new[k] == old[k]
}

/// The result of parsing `n` records of the side information at `pos0`:
/// main_data_begin when each of them is acceptable and the main data they
/// announce (part2_3_length bits each, starting main_data_begin bytes back) ends
/// within the limit.
pub open spec fn spec_side_info_result(data: Seq<u8>, limit: u32, pos0: int, h: Seq<u8>, n: nat) -> Option<u32> {
    let gc = n as int;
    let mdb = spec_main_data_begin(data, limit, pos0, h);
    if reached(data, limit, pos0, h, gc) && part23_sum(data, limit, pos0, h, n) + granule_pos(pos0, h, gc)
        <= limit + 8 * mdb {
        Some(mdb)
    } else {
        None
    }
}

/// The parse reaches every record up to one it reaches, and none past a rejected one.
proof fn lemma_reached_prefix(data: Seq<u8>, limit: u32, pos0: int, h: Seq<u8>, g: int)
    requires
        0 <= g,
        reached(data, limit, pos0, h, g),
    ensures
        forall|k: int| 0 <= k <= g ==> #[trigger] reached(data, limit, pos0, h, k),
        !granule_ok_at(data, limit, pos0, h, g) ==> forall|k: int|
            g < k ==> !#[trigger] reached(data, limit, pos0, h, k),
{
    assert forall|k: int| 0 <= k <= g implies #[trigger] reached(data, limit, pos0, h, k) by {
        assert forall|j: int| 0 <= j < k implies #[trigger] granule_ok_at(data, limit, pos0, h, j) by {
            assert(granule_ok_at(data, limit, pos0, h, j));
        }
    }
    if !granule_ok_at(data, limit, pos0, h, g) {
        assert forall|k: int| g < k implies !#[trigger] reached(data, limit, pos0, h, k) by {
            if reached(data, limit, pos0, h, k) {
                assert(granule_ok_at(data, limit, pos0, h, g));
            }
        }
    }
}

/// The parse reads past the start of every record from `g` on, and, when it
/// reaches record `g`, stops where it would stop looking from `g` on.
proof fn lemma_read_end(data: Seq<u8>, limit: u32, pos0: int, h: Seq<u8>, n: nat, g: nat)
    requires
        g <= n,
        reached(data, limit, pos0, h, g as int),
    ensures
        side_info_read_end(data, limit, pos0, h, n) == side_info_read_end_from(data, limit, pos0, h, n, g),
        granule_pos(pos0, h, g as int) <= side_info_read_end_from(data, limit, pos0, h, n, g),
        g < n ==> granule_pos(pos0, h, g as int) + granule_read_bits(
            data,
            limit,
            granule_pos(pos0, h, g as int),
            h,
        ) <= side_info_read_end_from(data, limit, pos0, h, n, g),
    decreases g,
{
    lemma_read_end_below(data, limit, pos0, h, n, g);
    if g > 0 {
        lemma_reached_prefix(data, limit, pos0, h, g as int);
        assert(granule_ok_at(data, limit, pos0, h, g - 1));
        lemma_read_end(data, limit, pos0, h, n, (g - 1) as nat);
    }
}

proof fn lemma_read_end_below(data: Seq<u8>, limit: u32, pos0: int, h: Seq<u8>, n: nat, g: nat)
    requires
        g <= n,
    ensures
        granule_pos(pos0, h, g as int) <= side_info_read_end_from(data, limit, pos0, h, n, g),
        g < n ==> granule_pos(pos0, h, g as int) + granule_read_bits(
            data,
            limit,
            granule_pos(pos0, h, g as int),
            h,
        ) <= side_info_read_end_from(data, limit, pos0, h, n, g),
    decreases n - g,
{
    if g < n {
        lemma_read_end_below(data, limit, pos0, h, n, g + 1);
        assert(granule_pos(pos0, h, (g + 1) as int) == granule_pos(pos0, h, g as int) + granule_bits(h)) by (nonlinear_arith)
            requires
                granule_pos(pos0, h, (g + 1) as int) == pos0 + side_hdr_bits(h) + (g + 1) * granule_bits(h),
                granule_pos(pos0, h, g as int) == pos0 + side_hdr_bits(h) + g * granule_bits(h),
        ;
    }
}

/// Reads the granule record at the reader's position into `cur`, given the
/// scfsi shift register and the running sum of part2_3_length; returns whether
/// the record is acceptable, stopping right after the field that rejects it.
fn read_granule(
    bs: &mut Bs_t,
    cur: &mut L3GrInfo_t,
    scfsi: &mut u32,
    part_23_sum: &mut u16,
    hdr: &Hdr,
    mono: bool,
    mpeg1: bool,
    sr_idx: usize,
) -> (ok: bool)
    requires
        hdr@.len() == 4,
        mono == (spec_stereo_mode(hdr@) == 3),
        mpeg1 == spec_is_mpeg1(hdr@),
        sr_idx == sfb_row(hdr@),
        sr_idx <= 8,
        old(bs).spec_pos() + granule_read_bits(old(bs).data(), old(bs).spec_limit(), old(bs).spec_pos() as int, hdr@)
            <= u32::MAX,
        old(bs).spec_limit() <= 8 * old(bs).data().len() || old(bs).spec_pos() + granule_read_bits(
            old(bs).data(),
            old(bs).spec_limit(),
            old(bs).spec_pos() as int,
            hdr@,
        ) <= 8 * old(bs).data().len(),
        *old(part_23_sum) + 4095 <= u16::MAX,
    ensures
        ({
            let data = old(bs).data();
            let limit = old(bs).spec_limit();
            let o = old(bs).spec_pos() as int;
            let h = hdr@;
            let mid = scfsi_masked(data, limit, o, h, *old(scfsi));
            &&& final(bs).data() == data
            &&& final(bs).spec_limit() == limit
            &&& ok == granule_ok(data, limit, o, h)
            &&& *final(part_23_sum) == *old(part_23_sum) + rd(data, limit, o, 12)
            &&& ok ==> final(bs).spec_pos() == o + granule_bits(h)
            &&& !ok ==> final(bs).spec_pos() == o + granule_read_bits(data, limit, o, h)
            &&& ok ==> *final(cur) == granule_at(data, limit, o, h, mid, *old(cur))
            &&& ok ==> *final(scfsi) == mid << 4u32
            &&& !ok ==> *final(cur) == rejected_at(data, limit, o, h, *old(cur))
        }),
{
    let ghost data = bs.data();
    let ghost limit = bs.spec_limit();
    let ghost o = bs.spec_pos() as int;
    let ghost h = hdr@;
    let ghost oldc = *cur;
    let ghost s0 = *scfsi;
    proof {
        reveal(granule_at);
        reveal(rejected_at);
    }
    if mono {
        *scfsi = *scfsi << 4;
    }
    cur.part_23_length = bs.get_bits(12) as u16;
    proof {
        lemma_rd_bound(data, limit, o, 12);
        vstd::arithmetic::power2::lemma2_to64();
    }
    *part_23_sum = *part_23_sum + cur.part_23_length;
    cur.big_values = bs.get_bits(9) as u16;
    if cur.big_values > 288 {
        return false;
    }
    cur.global_gain = bs.get_bits(8) as u8;
    cur.scalefac_compress = bs.get_bits(if mpeg1 { 4 } else { 9 }) as u16;
    cur.sfbtab = SfbTable { kind: SfbKind::Long, sr_idx: sr_idx as u8 };
    cur.n_long_sfb = 22;
    cur.n_short_sfb = 0;

    let mut tables: u32;
    if bs.get_bits(1) != 0 {
        cur.block_type = bs.get_bits(2) as u8;
        if cur.block_type == 0 {
            return false;
        }
        cur.mixed_block_flag = bs.get_bits(1) as u8;
        cur.region_count[0] = 7;
        cur.region_count[1] = 255;
        if cur.block_type == SHORT_BLOCK_TYPE {
            *scfsi = *scfsi & 0x0F0F;
            if cur.mixed_block_flag == 0 {
                cur.region_count[0] = 8;
                cur.sfbtab = SfbTable { kind: SfbKind::Short, sr_idx: sr_idx as u8 };
                cur.n_long_sfb = 0;
                cur.n_short_sfb = 39;
            } else {
                cur.sfbtab = SfbTable { kind: SfbKind::Mixed, sr_idx: sr_idx as u8 };
                cur.n_long_sfb = if mpeg1 { 8 } else { 6 };
                cur.n_short_sfb = 30;
            }
        }
        tables = bs.get_bits(10);
        tables = tables << 5;
        cur.subblock_gain[0] = bs.get_bits(3) as u8;
        cur.subblock_gain[1] = bs.get_bits(3) as u8;
        cur.subblock_gain[2] = bs.get_bits(3) as u8;
    } else {
        cur.block_type = 0;
        cur.mixed_block_flag = 0;
        tables = bs.get_bits(15);
        cur.region_count[0] = bs.get_bits(4) as u8;
        cur.region_count[1] = bs.get_bits(3) as u8;
        cur.region_count[2] = 255;
    }

    cur.table_select[0] = (tables >> 10) as u8;
    cur.table_select[1] = ((tables >> 5) & 31) as u8;
    cur.table_select[2] = (tables & 31) as u8;

    cur.preflag = if mpeg1 {
        bs.get_bits(1) as u8
    } else if cur.scalefac_compress >= 500 {
        1
    } else {
        0
    };

    cur.scalefac_scale = bs.get_bits(1) as u8;
    cur.count1_table = bs.get_bits(1) as u8;
    cur.scfsi = ((*scfsi >> 12) & 15) as u8;
    *scfsi = *scfsi << 4;
    proof {
        let want = granule_at(data, limit, o, h, scfsi_masked(data, limit, o, h, s0), oldc);
        assert(cur.table_select =~= want.table_select);
        assert(cur.region_count =~= want.region_count);
        assert(cur.subblock_gain =~= want.subblock_gain);
    }
    true
}

/// Reads the side information of a layer III frame: main_data_begin, then one
/// record per granule and channel into the first slots of `gr` (as many records
/// as there are, or as there are slots, which must hold one granule's worth). Returns
/// main_data_begin, or `None` when a record is rejected (big_values above 288,
/// or a window-switched block of type 0) or the main data the records announce
/// cannot lie within the reader's limit.
#[allow(non_snake_case)]
pub fn L3_read_side_info(bs: &mut Bs_t, gr: &mut [L3GrInfo_t], hdr: &Hdr) -> (r: Option<u32>)
    requires
        old(gr)@.len() >= spec_channel_count(hdr@),
        spec_my_sample_rate(hdr@) <= 8 || rd(
            old(bs).data(),
            old(bs).spec_limit(),
            granule_pos(old(bs).spec_pos() as int, hdr@, 0) + 12,
            9,
        ) > 288,
        side_info_read_end(
            old(bs).data(),
            old(bs).spec_limit(),
            old(bs).spec_pos() as int,
            hdr@,
            spec_parsed_count(hdr@, old(gr)@.len()),
        ) <= u32::MAX,
        old(bs).spec_limit() <= 8 * old(bs).data().len() || side_info_read_end(
            old(bs).data(),
            old(bs).spec_limit(),
            old(bs).spec_pos() as int,
            hdr@,
            spec_parsed_count(hdr@, old(gr)@.len()),
        ) <= 8 * old(bs).data().len(),
        reached(
            old(bs).data(),
            old(bs).spec_limit(),
            old(bs).spec_pos() as int,
            hdr@,
            spec_parsed_count(hdr@, old(gr)@.len()) as int,
        ) ==> {
            &&& old(bs).spec_limit() + 8 * spec_main_data_begin(
                old(bs).data(),
                old(bs).spec_limit(),
                old(bs).spec_pos() as int,
                hdr@,
            ) <= u32::MAX
            &&& part23_sum(
                old(bs).data(),
                old(bs).spec_limit(),
                old(bs).spec_pos() as int,
                hdr@,
                spec_parsed_count(hdr@, old(gr)@.len()),
            ) + granule_pos(
                old(bs).spec_pos() as int,
                hdr@,
                spec_parsed_count(hdr@, old(gr)@.len()) as int,
            ) <= u32::MAX
        },
    ensures
        final(bs).data() == old(bs).data(),
        final(bs).spec_limit() == old(bs).spec_limit(),
        final(gr)@.len() == old(gr)@.len(),
        side_info_slots(
            old(bs).data(),
            old(bs).spec_limit(),
            old(bs).spec_pos() as int,
            hdr@,
            old(gr)@,
            final(gr)@,
        ),
        final(bs).spec_pos() == side_info_read_end(
            old(bs).data(),
            old(bs).spec_limit(),
            old(bs).spec_pos() as int,
            hdr@,
            spec_parsed_count(hdr@, old(gr)@.len()),
        ),
        r == spec_side_info_result(
            old(bs).data(),
            old(bs).spec_limit(),
            old(bs).spec_pos() as int,
            hdr@,
            spec_parsed_count(hdr@, old(gr)@.len()),
        ),
{
    let ghost data = bs.data();
    let ghost limit = bs.spec_limit();
    let ghost pos0 = bs.spec_pos() as int;
    let ghost h = hdr@;
    let ghost n = spec_parsed_count(h, gr@.len());
    proof {
        crate::hdr::lemma_hdr_len(hdr);
        assert(reached(data, limit, pos0, h, 0));
        lemma_read_end(data, limit, pos0, h, n, 0);
    }
    let mut sr_idx = hdr.get_my_sample_rate() as usize;
    let mono = hdr.is_mono();
    let mpeg1 = hdr.test_mpeg1() != 0;
    let mut gr_count: usize = if mono { 1 } else { 2 };
    let mut part_23_sum: u16 = 0;
    let mut scfsi: u32;
    let main_data_begin: u32;

    if sr_idx != 0 {
        sr_idx -= 1;
    }
    if mpeg1 {
        gr_count *= 2;
        main_data_begin = bs.get_bits(9);
        scfsi = bs.get_bits(gr_count as u32 + 7);
    } else {
        main_data_begin = bs.get_bits(gr_count as u32 + 8) >> (gr_count as u32);
        scfsi = 0;
    }

    let n_parsed: usize = if gr.len() < gr_count { gr.len() } else { gr_count };
    let mut g: usize = 0;
    proof {
        assert(reached(data, limit, pos0, h, 0));
    }
    while g < n_parsed
        invariant
            n_parsed == n,
            n == spec_parsed_count(h, old(gr)@.len()),
            data == bs.data(),
            limit == bs.spec_limit(),
            data == old(bs).data(),
            limit == old(bs).spec_limit(),
            pos0 == old(bs).spec_pos() as int,
            h == hdr@,
            h.len() == 4,
            gr_count == spec_gr_count(h),
            gr_count <= 4,
            g <= n_parsed,
            n_parsed <= gr_count,
            gr@.len() == old(gr)@.len(),
            old(gr)@.len() >= n_parsed,
            mono == (spec_stereo_mode(h) == 3),
            mpeg1 == spec_is_mpeg1(h),
            sr_idx == sfb_row(h),
            sr_idx <= 8,
            bs.spec_pos() == granule_pos(pos0, h, g as int),
            side_info_read_end(data, limit, pos0, h, n) <= u32::MAX,
            limit <= 8 * data.len() || side_info_read_end(data, limit, pos0, h, n) <= 8 * data.len(),
            scfsi == scfsi_in(data, limit, pos0, h, g as nat),
            part_23_sum == part23_sum(data, limit, pos0, h, g as nat),
            reached(data, limit, pos0, h, g as int),
            main_data_begin == spec_main_data_begin(data, limit, pos0, h),
            forall|k: int|
                0 <= k < g ==> #[trigger] gr@[k] == spec_granule(data, limit, pos0, h, k, old(gr)@[k]),
            forall|k: int| g <= k < gr@.len() ==> #[trigger] gr@[k] == old(gr)@[k],
        decreases n_parsed - g,
    {
        let ghost o = granule_pos(pos0, h, g as int);
        proof {
            lemma_read_end(data, limit, pos0, h, n, g as nat);
            lemma_part23_sum_bound(data, limit, pos0, h, g as nat);
        }
        let mut cur = gr[g];
        let ghost s_in = scfsi;
        let ok = read_granule(bs, &mut cur, &mut scfsi, &mut part_23_sum, hdr, mono, mpeg1, sr_idx);
        gr[g] = cur;
        proof {
            let mid = scfsi_masked(data, limit, o, h, s_in);
            assert(scfsi_mid(data, limit, pos0, h, g as nat) == mid);
            assert(ok == granule_ok_at(data, limit, pos0, h, g as int));
        }
        if !ok {
            proof {
                assert(gr@[g as int] == spec_rejected(data, limit, pos0, h, g as int, old(gr)@[g as int]));
                lemma_reached_prefix(data, limit, pos0, h, g as int);
                assert(side_info_slots(data, limit, pos0, h, old(gr)@, gr@));
                assert(!reached(data, limit, pos0, h, n as int));
                assert(bs.spec_pos() == side_info_read_end(data, limit, pos0, h, n));
            }
            return None;
        }
        proof {
            assert(gr@[g as int] == spec_granule(data, limit, pos0, h, g as int, old(gr)@[g as int]));
            assert(scfsi == scfsi_in(data, limit, pos0, h, (g + 1) as nat));
            assert(part_23_sum == part23_sum(data, limit, pos0, h, (g + 1) as nat));
            assert(reached(data, limit, pos0, h, (g + 1) as int));
            assert(bs.spec_pos() == granule_pos(pos0, h, (g + 1) as int)) by (nonlinear_arith)
                requires
                    bs.spec_pos() == o + granule_bits(h),
                    o == pos0 + side_hdr_bits(h) + g * granule_bits(h),
                    granule_pos(pos0, h, (g + 1) as int) == pos0 + side_hdr_bits(h) + (g + 1) * granule_bits(h),
            ;
        }
        g += 1;
    }
    proof {
        lemma_read_end(data, limit, pos0, h, n, n);
    }
    if part_23_sum as u32 + bs.pos() > bs.limit() + main_data_begin * 8 {
        return None;
    }
    Some(main_data_begin)
}


/// The side information takes 17 bytes in a mono MPEG-1 frame and 32 in a
/// two-channel one; 9 bytes in a mono MPEG-2 or MPEG-2.5 frame and 17 in a
/// two-channel one.
pub proof fn lemma_side_info_size(pos0: int, h: Seq<u8>)
    ensures
        side_info_end(pos0, h) - pos0 == 8 * (if h[1] & 8u8 != 0 {
            if h[3] >= 0xc0 { 17int } else { 32int }
        } else {
            if h[3] >= 0xc0 { 9int } else { 17int }
        }),
{
    let b3 = h[3];
    assert((b3 >= 0xc0) == ((b3 >> 6u8) & 3u8 == 3)) by (bit_vector);
}

/// The block shape of a decoded record: a record of short blocks alone has 39
/// short bands; every record has 22 long bands and no short ones, 39 short bands
/// and no long ones, or a mixed block (8 long bands in MPEG-1, 6 otherwise, and 30
/// short ones); its block type fits 2 bits and its table selectors 5 bits.
pub open spec fn granule_shape_ok(g: L3GrInfo_t, mpeg1: bool) -> bool {
    &&& (g.n_short_sfb == 39) == (g.block_type == 2 && g.mixed_block_flag == 0)
    &&& {
        ||| g.n_long_sfb == 22 && g.n_short_sfb == 0
        ||| g.n_long_sfb == 0 && g.n_short_sfb == 39
        ||| g.n_long_sfb == (if mpeg1 { 8u8 } else { 6u8 }) && g.n_short_sfb == 30
    }
    &&& g.block_type < 4
    &&& g.table_select[0] < 32 && g.table_select[1] < 32 && g.table_select[2] < 32
    &&& g.block_type != 0 ==> g.region_count[0] == (if g.block_type == 2 && g.mixed_block_flag == 0 {
        8u8
    } else {
        7u8
    }) && g.region_count[1] == 255
    &&& g.block_type == 0 ==> g.mixed_block_flag == 0 && g.region_count[2] == 255
}

/// Every record the parse accepts has one of the block shapes of the format: a
/// window-switched record (block type 1 to 3) has region counts 8 and 255 for
/// short blocks without long ones and 7 and 255 for start, stop and mixed blocks;
/// any other record has block type 0, no mixed flag and a third region count of 255.
pub proof fn lemma_accepted_record_shape(data: Seq<u8>, limit: u32, o: int, h: Seq<u8>, mid: u32, old: L3GrInfo_t)
    requires
        granule_ok(data, limit, o, h),
    ensures
        granule_shape_ok(granule_at(data, limit, o, h, mid, old), spec_is_mpeg1(h)),
{
    reveal(granule_at);
    let w = o + 29 + sfc_bits(h);
    lemma_rd_bound(data, limit, w + 1, 2);
    lemma_rd_bound(data, limit, w + 4, 10);
    lemma_rd_bound(data, limit, w + 1, 15);
    vstd::arithmetic::power2::lemma2_to64();
    let t10 = rd(data, limit, w + 4, 10);
    let t15 = rd(data, limit, w + 1, 15);
    assert(t10 < 1024 ==> {
        let t = (t10 << 5u32) as u32;
        &&& t >> 10u32 < 32
        &&& (t >> 5u32) & 31u32 < 32
        &&& t & 31u32 < 32
    }) by (bit_vector);
    assert(t15 < 32768 ==> t15 >> 10u32 < 32 && (t15 >> 5u32) & 31u32 < 32 && t15 & 31u32 < 32) by (bit_vector);
}

/// Every record a parse reads and accepts, also when a later record is
/// rejected, has one of the block shapes of the format.
pub proof fn lemma_parsed_record_shape(
    data: Seq<u8>,
    limit: u32,
    pos0: int,
    h: Seq<u8>,
    old: Seq<L3GrInfo_t>,
    new: Seq<L3GrInfo_t>,
    k: int,
)
    requires
        side_info_slots(data, limit, pos0, h, old, new),
        0 <= k < spec_parsed_count(h, old.len()),
        reached(data, limit, pos0, h, k),
        granule_ok_at(data, limit, pos0, h, k),
    ensures
        granule_shape_ok(new[k], spec_is_mpeg1(h)),
{
    let o = granule_pos(pos0, h, k);
    lemma_accepted_record_shape(data, limit, o, h, scfsi_mid(data, limit, pos0, h, k as nat), old[k]);
}

/// The fields of a decoded record that depend on the MPEG version: in MPEG-1,
/// scalefac_compress has 4 bits and preflag 1; otherwise scalefac_compress has 9
/// bits, preflag says whether it is at least 500, and no scfsi bits are set.
pub open spec fn granule_fields_ok(g: L3GrInfo_t, mpeg1: bool) -> bool {
    if mpeg1 {
        g.scalefac_compress < 16 && g.preflag < 2
    } else {
        &&& g.scalefac_compress < 512
        &&& g.preflag == (if g.scalefac_compress >= 500 { 1u8 } else { 0u8 })
        &&& g.scfsi == 0
    }
}

/// In MPEG-2 and MPEG-2.5 the scfsi shift register stays empty.
proof fn lemma_scfsi_mid_lsf(data: Seq<u8>, limit: u32, pos0: int, h: Seq<u8>, g: nat)
    requires
        !spec_is_mpeg1(h),
    ensures
        scfsi_mid(data, limit, pos0, h, g) == 0,
    decreases g,
{
    if g > 0 {
        lemma_scfsi_mid_lsf(data, limit, pos0, h, (g - 1) as nat);
    }
    let z = 0u32;
    assert(z << 4u32 == 0 && z & 0x0F0Fu32 == 0) by (bit_vector)
        requires
            z == 0,
    ;
}

/// When a parse of the side information succeeds, every record it decoded has
/// one of the block shapes of the format and the version-dependent fields in
/// range (for MPEG-2: preflag set exactly from scalefac_compress 500 on, no scfsi),
/// and every slot past the records keeps its value.
pub proof fn lemma_side_info_records(
    data: Seq<u8>,
    limit: u32,
    pos0: int,
    h: Seq<u8>,
    old: Seq<L3GrInfo_t>,
    new: Seq<L3GrInfo_t>,
)
    requires
        side_info_slots(data, limit, pos0, h, old, new),
        spec_side_info_result(data, limit, pos0, h, spec_parsed_count(h, old.len())) is Some,
    ensures
        forall|k: int|
            0 <= k < spec_parsed_count(h, old.len()) ==> granule_shape_ok(#[trigger] new[k], spec_is_mpeg1(h))
                && granule_fields_ok(new[k], spec_is_mpeg1(h)),
        forall|k: int| spec_parsed_count(h, old.len()) <= k < old.len() ==> #[trigger] new[k] == old[k],
{
    let n = spec_parsed_count(h, old.len());
    let mpeg1 = spec_is_mpeg1(h);
    assert forall|k: int| 0 <= k < n implies granule_shape_ok(#[trigger] new[k], mpeg1) && granule_fields_ok(
        new[k],
        mpeg1,
    ) by {
        assert(reached(data, limit, pos0, h, n as int));
        assert(granule_ok_at(data, limit, pos0, h, k));
        lemma_reached_prefix(data, limit, pos0, h, n as int);
        assert(reached(data, limit, pos0, h, k));
        let o = granule_pos(pos0, h, k);
        let mid = scfsi_mid(data, limit, pos0, h, k as nat);
        assert(new[k] == granule_at(data, limit, o, h, mid, old[k]));
        lemma_accepted_record_shape(data, limit, o, h, mid, old[k]);
        reveal(granule_at);
        lemma_rd_bound(data, limit, o + 29, sfc_bits(h));
        lemma_rd_bound(data, limit, o + 29 + sfc_bits(h) + 23, 1);
        vstd::arithmetic::power2::lemma2_to64();
        if !mpeg1 {
            lemma_scfsi_mid_lsf(data, limit, pos0, h, k as nat);
            assert(mid == 0);
            let z = mid;
            assert(z == 0 ==> (z >> 12u32) & 15u32 == 0) by (bit_vector);
        }
    }
}

// ---------------------------------------------------------------------------
// Scale factors of layer III.
// ---------------------------------------------------------------------------

/// Number of leading non-zero counts among the first four, from index `i` on.
pub open spec fn n_groups_from(c: Seq<u8>, i: nat) -> nat
    decreases 4 - i,
{
    if i >= 4 || i >= c.len() || c[i as int] == 0 {
        i
    } else {
        n_groups_from(c, i + 1)
    }
}

/// Number of scale-factor groups that `scf_count` describes: its leading
/// non-zero entries, at most four.
pub open spec fn n_groups(c: Seq<u8>) -> nat {
    n_groups_from(c, 0)
}

/// Index of the first scale factor of group `i`.
pub open spec fn grp_off(c: Seq<u8>, i: nat) -> nat
    decreases i,
{
    if i == 0 {
        0
    } else {
        grp_off(c, (i - 1) as nat) + c[i - 1] as nat
    }
}

/// The scfsi word while group `i` is handled: doubled (with wrap-around) per group.
pub open spec fn scfsi_at(s: i32, i: nat) -> i32
    decreases i,
{
    if i == 0 {
        s
    } else {
        scfsi_at(s, (i - 1) as nat).wrapping_mul(2i32)
    }
}

/// Group `i` is copied from the intensity positions instead of read.
pub open spec fn grp_copies(s: i32, i: nat) -> bool {
    scfsi_at(s, i) & 8i32 != 0
}

/// Bits that group `i` takes from the stream.
pub open spec fn grp_bits(c: Seq<u8>, sz: Seq<u8>, s: i32, i: nat) -> nat {
    if grp_copies(s, i) || sz[i as int] == 0 {
        0
    } else {
        (c[i as int] * sz[i as int]) as nat
    }
}

/// Bits that the groups before `i` take from the stream.
pub open spec fn bits_off(c: Seq<u8>, sz: Seq<u8>, s: i32, i: nat) -> nat
    decreases i,
{
    if i == 0 {
        0
    } else {
        bits_off(c, sz, s, (i - 1) as nat) + grp_bits(c, sz, s, (i - 1) as nat)
    }
}

/// A group of `w`-bit scale factors can be read: a width above 32 bits only
/// where its first field already lies past the limit (so nothing is taken from
/// the buffer), and never when a marker value is computed (negative scfsi word).
pub open spec fn read_width_ok(c: Seq<u8>, sz: Seq<u8>, s: i32, j: int, p0: int, limit: u32) -> bool {
    &&& scfsi_at(s, j as nat) < 0 ==> sz[j] <= 32
    &&& sz[j] <= 32 || p0 + bits_off(c, sz, s, j as nat) + sz[j] > limit
}

/// The value that marks an invalid intensity position in a group of `bits`-bit
/// scale factors (only when `s` is negative; -1, which no field equals, otherwise).
pub open spec fn max_scf(s: i32, bits: u8) -> i32 {
    if s < 0 {
        1i32 << ((bits - 1) as u8)
    } else {
        -1i32
    }
}

/// Scale factor `k` of group `j` as read from the stream.
pub open spec fn scf_field(data: Seq<u8>, limit: u32, p0: int, c: Seq<u8>, sz: Seq<u8>, s: i32, j: nat, k: int) -> i32 {
    rd(data, limit, p0 + bits_off(c, sz, s, j) + k * sz[j as int], sz[j as int] as nat) as i32
}

/// The scale factor stored for element `k` of group `j`.
pub open spec fn exp_scf(ist: Seq<u8>, data: Seq<u8>, limit: u32, p0: int, c: Seq<u8>, sz: Seq<u8>, s: i32, j: nat, k: int) -> u8 {
    if grp_copies(s, j) {
        ist[grp_off(c, j) + k]
    } else if sz[j as int] == 0 {
        0
    } else {
        scf_field(data, limit, p0, c, sz, s, j, k) as u8
    }
}

/// The intensity position stored for element `k` of group `j` (255 marks an invalid one).
pub open spec fn exp_ist(ist: Seq<u8>, data: Seq<u8>, limit: u32, p0: int, c: Seq<u8>, sz: Seq<u8>, s: i32, j: nat, k: int) -> u8 {
    if grp_copies(s, j) {
        ist[grp_off(c, j) + k]
    } else if sz[j as int] == 0 {
        0
    } else {
        let v = scf_field(data, limit, p0, c, sz, s, j, k);
        if v == max_scf(scfsi_at(s, j), sz[j as int]) {
            255
        } else {
            v as u8
        }
    }
}

proof fn lemma_n_groups_from(c: Seq<u8>, i: nat)
    requires
        i <= 4,
    ensures
        i <= n_groups_from(c, i) <= 4,
        n_groups_from(c, i) > i ==> n_groups_from(c, i) <= c.len(),
        forall|j: int| i <= j < n_groups_from(c, i) ==> #[trigger] c[j] != 0,
        n_groups_from(c, i) < 4 ==> n_groups_from(c, i) >= c.len() || c[n_groups_from(c, i) as int] == 0,
    decreases 4 - i,
{
    if !(i >= 4 || i >= c.len() || c[i as int] == 0) {
        lemma_n_groups_from(c, i + 1);
        assert(n_groups_from(c, i) == n_groups_from(c, i + 1));
        assert forall|j: int| i <= j < n_groups_from(c, i) implies #[trigger] c[j] != 0 by {
            if j > i {
                assert(i + 1 <= j < n_groups_from(c, i + 1));
            }
        }
    }
}

/// The groups are the leading non-zero counts, at most four.
pub proof fn lemma_n_groups(c: Seq<u8>)
    ensures
        n_groups(c) <= 4,
        n_groups(c) <= c.len(),
        forall|j: int| 0 <= j < n_groups(c) ==> #[trigger] c[j] != 0,
        n_groups(c) < 4 ==> n_groups(c) >= c.len() || c[n_groups(c) as int] == 0,
{
    lemma_n_groups_from(c, 0);
}

proof fn lemma_offsets_monotone(c: Seq<u8>, sz: Seq<u8>, s: i32, i: nat, j: nat)
    requires
        i <= j,
    ensures
        grp_off(c, i) <= grp_off(c, j),
        bits_off(c, sz, s, i) <= bits_off(c, sz, s, j),
    decreases j - i,
{
    if i < j {
        lemma_offsets_monotone(c, sz, s, i, (j - 1) as nat);
    }
}

/// Reads the scale factors of one channel, group by group (at most four groups,
/// `scf_count[i]` values each, while the count is not zero). A group whose scfsi
/// bit (bit 3 of `scfsi`, which doubles per group) is set copies the intensity
/// positions into `scf`; one of width 0 clears both; otherwise each value is read
/// with `scf_size[i]` bits into `scf`, and into `ist_pos` too, where a value equal
/// to the marker (for negative `scfsi` only) becomes 255. Three zeros follow the
/// last scale factor.
#[allow(non_snake_case)]
pub fn L3_read_scalefactors(
    scf: &mut [u8],
    ist_pos: &mut [u8],
    scf_size: &[u8],
    scf_count: &[u8],
    bitbuf: &mut Bs_t,
    scfsi: i32,
)
    requires
        n_groups(scf_count@) == 4 || n_groups(scf_count@) < scf_count@.len(),
        forall|j: int|
            0 <= j < n_groups(scf_count@) && !#[trigger] grp_copies(scfsi, j as nat) ==> j < scf_size@.len(),
        forall|j: int|
            0 <= j < n_groups(scf_count@) && !grp_copies(scfsi, j as nat) ==> #[trigger] read_width_ok(
                scf_count@,
                scf_size@,
                scfsi,
                j,
                old(bitbuf).spec_pos() as int,
                old(bitbuf).spec_limit(),
            ),
        grp_off(scf_count@, n_groups(scf_count@)) + 3 <= old(scf)@.len(),
        grp_off(scf_count@, n_groups(scf_count@)) <= old(ist_pos)@.len(),
        old(bitbuf).spec_pos() + bits_off(scf_count@, scf_size@, scfsi, n_groups(scf_count@)) <= u32::MAX,
        old(bitbuf).spec_limit() <= 8 * old(bitbuf).data().len() || old(bitbuf).spec_pos() + bits_off(
            scf_count@,
            scf_size@,
            scfsi,
            n_groups(scf_count@),
        ) <= 8 * old(bitbuf).data().len(),
    ensures
        ({
            let c = scf_count@;
            let sz = scf_size@;
            let ng = n_groups(c);
            let total = grp_off(c, ng);
            let data = old(bitbuf).data();
            let limit = old(bitbuf).spec_limit();
            let p0 = old(bitbuf).spec_pos() as int;
            let ist0 = old(ist_pos)@;
            &&& final(bitbuf).data() == data
            &&& final(bitbuf).spec_limit() == limit
            &&& final(bitbuf).spec_pos() == p0 + bits_off(c, sz, scfsi, ng)
            &&& final(scf)@.len() == old(scf)@.len()
            &&& final(ist_pos)@.len() == ist0.len()
            &&& forall|j: nat, k: int|
                j < ng && 0 <= k < c[j as int] ==> final(scf)@[grp_off(c, j) + k] == #[trigger] exp_scf(
                    ist0, data, limit, p0, c, sz, scfsi, j, k)
            &&& forall|j: nat, k: int|
                j < ng && 0 <= k < c[j as int] ==> final(ist_pos)@[grp_off(c, j) + k] == #[trigger] exp_ist(
                    ist0, data, limit, p0, c, sz, scfsi, j, k)
            &&& final(scf)@[total as int] == 0
            &&& final(scf)@[(total + 1) as int] == 0
            &&& final(scf)@[(total + 2) as int] == 0
            &&& forall|t: int| total + 3 <= t < old(scf)@.len() ==> #[trigger] final(scf)@[t] == old(scf)@[t]
            &&& forall|t: int| total <= t < ist0.len() ==> #[trigger] final(ist_pos)@[t] == ist0[t]
        }),
{
    let ghost c = scf_count@;
    let ghost sz = scf_size@;
    let ghost s0 = scfsi;
    let ghost data = bitbuf.data();
    let ghost limit = bitbuf.spec_limit();
    let ghost p0 = bitbuf.spec_pos() as int;
    let ghost ist0 = ist_pos@;
    let ghost scf0 = scf@;
    let ghost ng = n_groups(c);
    proof {
        lemma_n_groups(c);
        lemma_offsets_monotone(c, sz, s0, 0, ng);
    }
    let mut sfsi = scfsi;
    let mut i: usize = 0;
    let mut off: usize = 0;
    assert(scf@.len() == scf.len() && ist_pos@.len() == ist_pos.len());
    while i < 4 && scf_count[i] != 0
        invariant
            c == scf_count@,
            sz == scf_size@,
            ng == n_groups(c),
            ng <= 4,
            ng == 4 || ng < c.len(),
            ng <= c.len(),
            forall|j: int| 0 <= j < ng ==> #[trigger] c[j] != 0,
            ng < 4 ==> ng >= c.len() || c[ng as int] == 0,
            i <= ng,
            off == grp_off(c, i as nat),
            grp_off(c, ng) + 3 <= scf@.len(),
            grp_off(c, ng) <= ist_pos@.len(),
            scf@.len() == scf0.len(),
            ist_pos@.len() == ist0.len(),
            scf@.len() <= usize::MAX,
            sfsi == scfsi_at(s0, i as nat),
            data == bitbuf.data(),
            limit == bitbuf.spec_limit(),
            data == old(bitbuf).data(),
            limit == old(bitbuf).spec_limit(),
            p0 == old(bitbuf).spec_pos() as int,
            s0 == scfsi,
            scf0 == old(scf)@,
            ist0 == old(ist_pos)@,
            bitbuf.spec_pos() == p0 + bits_off(c, sz, s0, i as nat),
            p0 + bits_off(c, sz, s0, ng) <= u32::MAX,
            limit <= 8 * data.len() || p0 + bits_off(c, sz, s0, ng) <= 8 * data.len(),
            forall|j: int| 0 <= j < ng && !#[trigger] grp_copies(s0, j as nat) ==> j < sz.len(),
            forall|j: int|
                0 <= j < ng && !grp_copies(s0, j as nat) ==> #[trigger] read_width_ok(c, sz, s0, j, p0, limit),
            forall|j: nat, k: int|
                j < i && 0 <= k < c[j as int] ==> scf@[grp_off(c, j) + k] == #[trigger] exp_scf(
                    ist0, data, limit, p0, c, sz, s0, j, k),
            forall|j: nat, k: int|
                j < i && 0 <= k < c[j as int] ==> ist_pos@[grp_off(c, j) + k] == #[trigger] exp_ist(
                    ist0, data, limit, p0, c, sz, s0, j, k),
            forall|t: int| off <= t < scf0.len() ==> #[trigger] scf@[t] == scf0[t],
            forall|t: int| off <= t < ist0.len() ==> #[trigger] ist_pos@[t] == ist0[t],
        decreases 4 - i,
    {
        proof {
            lemma_offsets_monotone(c, sz, s0, (i + 1) as nat, ng);
        }
        let cnt = scf_count[i] as usize;
        let ghost scf_start = scf@;
        let ghost ist_start = ist_pos@;
        proof {
            assert(grp_off(c, (i + 1) as nat) == off + cnt);
            assert(forall|j: nat, k: int|
                j < i && 0 <= k < c[j as int] ==> scf_start[grp_off(c, j) + k] == #[trigger] exp_scf(
                    ist0, data, limit, p0, c, sz, s0, j, k));
            assert(forall|j: nat, k: int|
                j < i && 0 <= k < c[j as int] ==> ist_start[grp_off(c, j) + k] == #[trigger] exp_ist(
                    ist0, data, limit, p0, c, sz, s0, j, k));
        }
        if sfsi & 8 != 0 {
            let mut k: usize = 0;
            while k < cnt
                invariant
                    k <= cnt,
                    off + cnt + 3 <= scf@.len(),
                    off + cnt <= ist_pos@.len(),
                    scf@.len() == scf_start.len(),
                    ist_pos@ == ist_start,
                    forall|t: int| 0 <= t < off ==> #[trigger] scf@[t] == scf_start[t],
                    forall|t: int| off + k <= t < scf@.len() ==> #[trigger] scf@[t] == scf_start[t],
                    forall|t: int| off <= t < off + k ==> #[trigger] scf@[t] == ist_start[t],
                decreases cnt - k,
            {
                scf[off + k] = ist_pos[off + k];
                k += 1;
            }
        } else {
            proof {
                assert(!grp_copies(s0, i as nat));
            }
            let bits = scf_size[i];
            if bits == 0 {
                let mut k: usize = 0;
                while k < cnt
                    invariant
                        k <= cnt,
                        off + cnt + 3 <= scf@.len(),
                        off + cnt <= ist_pos@.len(),
                        scf@.len() == scf_start.len(),
                        ist_pos@.len() == ist_start.len(),
                        forall|t: int| 0 <= t < off ==> #[trigger] scf@[t] == scf_start[t],
                        forall|t: int| off + k <= t < scf@.len() ==> #[trigger] scf@[t] == scf_start[t],
                        forall|t: int| off <= t < off + k ==> #[trigger] scf@[t] == 0,
                        forall|t: int| 0 <= t < off ==> #[trigger] ist_pos@[t] == ist_start[t],
                        forall|t: int| off + k <= t < ist_pos@.len() ==> #[trigger] ist_pos@[t] == ist_start[t],
                        forall|t: int| off <= t < off + k ==> #[trigger] ist_pos@[t] == 0,
                    decreases cnt - k,
                {
                    scf[off + k] = 0;
                    ist_pos[off + k] = 0;
                    k += 1;
                }
            } else {
                proof {
                    assert(read_width_ok(c, sz, s0, i as int, p0, limit));
                }
                let max_scf: i32 = if sfsi < 0 {
                    1i32 << (bits - 1)
                } else {
                    -1
                };
                let ghost pg = bitbuf.spec_pos() as int;
                proof {
                    assert(read_width_ok(c, sz, s0, i as int, p0, limit));
                    assert(grp_bits(c, sz, s0, i as nat) == cnt * bits);
                    assert(bits_off(c, sz, s0, (i + 1) as nat) == bits_off(c, sz, s0, i as nat) + cnt * bits);
                }
                let mut k: usize = 0;
                while k < cnt
                    invariant
                        k <= cnt,
                        cnt == c[i as int],
                        off + cnt <= usize::MAX,
                        1 <= bits,
                        bits <= 32 || pg + bits > limit,
                        off + cnt + 3 <= scf@.len(),
                        off + cnt <= ist_pos@.len(),
                        scf@.len() == scf_start.len(),
                        ist_pos@.len() == ist_start.len(),
                        data == bitbuf.data(),
                        limit == bitbuf.spec_limit(),
                        bitbuf.spec_pos() == pg + k * bits,
                        pg + cnt * bits <= u32::MAX,
                        limit <= 8 * data.len() || pg + cnt * bits <= 8 * data.len(),
                        forall|t: int| 0 <= t < off ==> #[trigger] scf@[t] == scf_start[t],
                        forall|t: int| off + k <= t < scf@.len() ==> #[trigger] scf@[t] == scf_start[t],
                        forall|t: int| 0 <= t < off ==> #[trigger] ist_pos@[t] == ist_start[t],
                        forall|t: int| off + k <= t < ist_pos@.len() ==> #[trigger] ist_pos@[t] == ist_start[t],
                        forall|q: int|
                            0 <= q < k ==> #[trigger] scf@[off + q] == (rd(data, limit, pg + q * bits, bits as nat) as i32) as u8,
                        forall|q: int|
                            0 <= q < k ==> #[trigger] ist_pos@[off + q] == (if rd(data, limit, pg + q * bits, bits as nat) as i32
                                == max_scf { 255u8 } else { (rd(data, limit, pg + q * bits, bits as nat) as i32) as u8 }),
                    decreases cnt - k,
                {
                    proof {
                        assert(pg + (k + 1) * bits <= pg + cnt * bits && pg + k * bits + bits == pg + (k + 1)
                            * bits && pg <= pg + k * bits) by (nonlinear_arith)
                            requires
                                k + 1 <= cnt,
                                bits >= 1,
                        ;
                    }
                    let s = bitbuf.get_bits(bits as u32) as i32;
                    ist_pos[off + k] = if s == max_scf {
                        255
                    } else {
                        s as u8
                    };
                    scf[off + k] = s as u8;
                    k += 1;
                    proof {
                        assert(bitbuf.spec_pos() == pg + k * bits) by (nonlinear_arith)
                            requires
                                bitbuf.spec_pos() == pg + (k - 1) * bits + bits,
                        ;
                    }
                }
            }
        }
        proof {
            assert forall|j: nat, k: int| j < i + 1 && 0 <= k < c[j as int] implies scf@[grp_off(c, j) + k]
                == #[trigger] exp_scf(ist0, data, limit, p0, c, sz, s0, j, k) by {
                if j < i {
                    lemma_offsets_monotone(c, sz, s0, j + 1, i as nat);
                    assert(scf@[grp_off(c, j) + k] == scf_start[grp_off(c, j) + k]);
                } else {
                    assert(j == i);
                    assert(scf@[off + k] == exp_scf(ist0, data, limit, p0, c, sz, s0, j, k));
                }
            }
            assert forall|j: nat, k: int| j < i + 1 && 0 <= k < c[j as int] implies ist_pos@[grp_off(c, j) + k]
                == #[trigger] exp_ist(ist0, data, limit, p0, c, sz, s0, j, k) by {
                if j < i {
                    lemma_offsets_monotone(c, sz, s0, j + 1, i as nat);
                    assert(ist_pos@[grp_off(c, j) + k] == ist_start[grp_off(c, j) + k]);
                } else {
                    assert(j == i);
                    assert(ist_pos@[off + k] == exp_ist(ist0, data, limit, p0, c, sz, s0, j, k));
                }
            }
        }
        off += cnt;
        sfsi = sfsi.wrapping_mul(2);
        i += 1;
    }
    proof {
        assert(i == ng);
    }
    let ghost scf_before = scf@;
    scf[off] = 0;
    scf[off + 1] = 0;
    scf[off + 2] = 0;
    proof {
        assert forall|j: nat, k: int| j < ng && 0 <= k < c[j as int] implies scf@[grp_off(c, j) + k]
            == #[trigger] exp_scf(ist0, data, limit, p0, c, sz, s0, j, k) by {
            lemma_offsets_monotone(c, sz, s0, j + 1, ng);
            assert(scf@[grp_off(c, j) + k] == scf_before[grp_off(c, j) + k]);
        }
    }
}

} // verus!
