use minimp3::bitstream::Bs_t;
use minimp3::hdr::Hdr;
use minimp3::layer3::{L3GrInfo_t, L3_read_scalefactors, L3_read_side_info};
use minimp3::scalefactors::{L3_decode_scalefactors, L3_scalefactors_fit, MAX_SCF, MAX_SCFI};
use minimp3::sfb::{SfbKind, SfbTable};

struct BitWriter {
    bytes: Vec<u8>,
    nbits: usize,
}

impl BitWriter {
    fn new() -> Self {
        BitWriter { bytes: Vec::new(), nbits: 0 }
    }

    fn put(&mut self, value: u32, n: u32) {
        for i in (0..n).rev() {
            if self.nbits % 8 == 0 {
                self.bytes.push(0);
            }
            let bit = ((value >> i) & 1) as u8;
            let last = self.bytes.len() - 1;
            self.bytes[last] |= bit << (7 - self.nbits % 8);
            self.nbits += 1;
        }
    }

    fn finish(mut self, total_bytes: usize) -> Vec<u8> {
        self.bytes.resize(total_bytes, 0);
        self.bytes
    }
}

fn blank_granule() -> L3GrInfo_t {
    L3GrInfo_t {
        sfbtab: SfbTable { kind: SfbKind::Long, sr_idx: 0 },
        part_23_length: 0,
        big_values: 0,
        scalefac_compress: 0,
        global_gain: 0,
        block_type: 0,
        mixed_block_flag: 0,
        n_long_sfb: 0,
        n_short_sfb: 0,
        table_select: [0; 3],
        region_count: [0; 3],
        subblock_gain: [9, 9, 9],
        preflag: 0,
        scalefac_scale: 0,
        count1_table: 0,
        scfsi: 0,
    }
}

fn long_record(w: &mut BitWriter, part: u32, big: u32, gain: u32, sfc: u32, tables: [u32; 3], regions: [u32; 2], preflag: u32, scale: u32, count1: u32) {
    w.put(part, 12);
    w.put(big, 9);
    w.put(gain, 8);
    w.put(sfc, 4);
    w.put(0, 1);
    w.put((tables[0] << 10) | (tables[1] << 5) | tables[2], 15);
    w.put(regions[0], 4);
    w.put(regions[1], 3);
    w.put(preflag, 1);
    w.put(scale, 1);
    w.put(count1, 1);
}

fn mono_mpeg1_side_info(main_data_begin: u32, second_big_values: u32, total_bytes: usize) -> Vec<u8> {
    let mut w = BitWriter::new();
    w.put(main_data_begin, 9);
    w.put(0b0000_01010, 9);
    long_record(&mut w, 100, 50, 150, 5, [1, 2, 3], [4, 2], 1, 0, 1);
    long_record(&mut w, 200, second_big_values, 140, 15, [7, 8, 9], [15, 7], 0, 1, 0);
    assert_eq!(w.nbits, 136);
    w.finish(total_bytes)
}

#[test]
fn side_info_of_mono_mpeg1_frame() {
    let data = mono_mpeg1_side_info(5, 288, 57);
    let hdr = Hdr::new(&[0xff, 0xfb, 0x90, 0xc4]);
    let mut bs = Bs_t::new(&data, 57);
    let mut gr = [blank_granule(); 4];
    let r = L3_read_side_info(&mut bs, &mut gr, &hdr);
    assert_eq!(r, Some(5));
    assert_eq!(bs.pos(), 136);

    let g0 = &gr[0];
    assert_eq!(g0.part_23_length, 100);
    assert_eq!(g0.big_values, 50);
    assert_eq!(g0.global_gain, 150);
    assert_eq!(g0.scalefac_compress, 5);
    assert_eq!(g0.block_type, 0);
    assert_eq!(g0.mixed_block_flag, 0);
    assert_eq!(g0.table_select, [1, 2, 3]);
    assert_eq!(g0.region_count, [4, 2, 255]);
    assert_eq!(g0.preflag, 1);
    assert_eq!(g0.scalefac_scale, 0);
    assert_eq!(g0.count1_table, 1);
    assert_eq!(g0.sfbtab, SfbTable { kind: SfbKind::Long, sr_idx: 5 });
    assert_eq!(g0.n_long_sfb, 22);
    assert_eq!(g0.n_short_sfb, 0);
    assert_eq!(g0.scfsi, 0);
    assert_eq!(g0.subblock_gain, [9, 9, 9]);

    let g1 = &gr[1];
    assert_eq!(g1.part_23_length, 200);
    assert_eq!(g1.big_values, 288);
    assert_eq!(g1.global_gain, 140);
    assert_eq!(g1.scalefac_compress, 15);
    assert_eq!(g1.table_select, [7, 8, 9]);
    assert_eq!(g1.region_count, [15, 7, 255]);
    assert_eq!(g1.preflag, 0);
    assert_eq!(g1.scalefac_scale, 1);
    assert_eq!(g1.count1_table, 0);
    assert_eq!(g1.scfsi, 10);

    // slots past the granule count are left alone
    assert_eq!(gr[2].part_23_length, 0);
    assert_eq!(gr[3].subblock_gain, [9, 9, 9]);
}

#[test]
fn side_info_rejects_main_data_past_the_limit() {
    let data = mono_mpeg1_side_info(0, 288, 27);
    let hdr = Hdr::new(&[0xff, 0xfb, 0x90, 0xc4]);
    let mut bs = Bs_t::new(&data, 27);
    let mut gr = [blank_granule(); 2];
    assert_eq!(L3_read_side_info(&mut bs, &mut gr, &hdr), None);
    assert_eq!(gr[1].part_23_length, 200);
}

#[test]
fn side_info_rejects_big_values_above_288() {
    let data = mono_mpeg1_side_info(5, 289, 57);
    let hdr = Hdr::new(&[0xff, 0xfb, 0x90, 0xc4]);
    let mut bs = Bs_t::new(&data, 57);
    let mut gr = [blank_granule(); 2];
    assert_eq!(L3_read_side_info(&mut bs, &mut gr, &hdr), None);
    assert_eq!(gr[0].part_23_length, 100);
    assert_eq!(gr[1].part_23_length, 200);
    assert_eq!(gr[1].big_values, 289);
    assert_eq!(gr[1].global_gain, 0);
}

#[test]
fn side_info_rejects_switched_block_of_type_zero() {
    let mut w = BitWriter::new();
    w.put(0, 9);
    w.put(0, 9);
    w.put(10, 12);
    w.put(20, 9);
    w.put(30, 8);
    w.put(4, 4);
    w.put(1, 1);
    w.put(0, 2);
    let data = w.finish(40);
    let hdr = Hdr::new(&[0xff, 0xfb, 0x90, 0xc4]);
    let mut bs = Bs_t::new(&data, 40);
    let mut gr = [blank_granule(); 2];
    assert_eq!(L3_read_side_info(&mut bs, &mut gr, &hdr), None);
    assert_eq!(gr[0].part_23_length, 10);
    assert_eq!(gr[0].global_gain, 30);
    assert_eq!(gr[0].scalefac_compress, 4);
    assert_eq!(gr[0].block_type, 0);
    assert_eq!(gr[0].n_long_sfb, 22);
    assert_eq!(gr[1].part_23_length, 0);
}

#[test]
fn side_info_of_mpeg2_short_block() {
    let mut w = BitWriter::new();
    w.put(3, 8);
    w.put(1, 1);
    w.put(50, 12);
    w.put(10, 9);
    w.put(100, 8);
    w.put(501, 9);
    w.put(1, 1);
    w.put(2, 2);
    w.put(0, 1);
    w.put((4 << 5) | 5, 10);
    w.put(1, 3);
    w.put(2, 3);
    w.put(3, 3);
    w.put(1, 1);
    w.put(0, 1);
    assert_eq!(w.nbits, 72);
    let data = w.finish(19);
    let hdr = Hdr::new(&[0xff, 0xf3, 0x54, 0xc0]);
    let mut bs = Bs_t::new(&data, 19);
    let mut gr = [blank_granule(); 1];
    assert_eq!(L3_read_side_info(&mut bs, &mut gr, &hdr), Some(3));
    let g = &gr[0];
    assert_eq!(g.part_23_length, 50);
    assert_eq!(g.scalefac_compress, 501);
    assert_eq!(g.preflag, 1);
    assert_eq!(g.block_type, 2);
    assert_eq!(g.mixed_block_flag, 0);
    assert_eq!(g.region_count, [8, 255, 0]);
    assert_eq!(g.sfbtab, SfbTable { kind: SfbKind::Short, sr_idx: 3 });
    assert_eq!(g.n_long_sfb, 0);
    assert_eq!(g.n_short_sfb, 39);
    assert_eq!(g.table_select, [4, 5, 0]);
    assert_eq!(g.subblock_gain, [1, 2, 3]);
    assert_eq!(g.scalefac_scale, 1);
    assert_eq!(g.count1_table, 0);
}

#[test]
fn read_scalefactors_reads_groups_and_marks_zeros() {
    let mut w = BitWriter::new();
    w.put(0xA, 4);
    w.put(0x3, 4);
    w.put(1, 2);
    w.put(2, 2);
    w.put(3, 2);
    let data = w.finish(4);
    let mut bs = Bs_t::new(&data, 4);
    let mut scf = [7u8; 10];
    let mut ist = [9u8; 6];
    L3_read_scalefactors(&mut scf, &mut ist, &[4, 2, 0, 0], &[2, 3, 0, 0], &mut bs, 0);
    assert_eq!(scf, [0xA, 0x3, 1, 2, 3, 0, 0, 0, 7, 7]);
    assert_eq!(ist, [0xA, 0x3, 1, 2, 3, 9]);
    assert_eq!(bs.pos(), 14);
}

#[test]
fn read_scalefactors_marks_half_range_value_when_scfsi_is_negative() {
    let mut w = BitWriter::new();
    w.put(8, 4);
    w.put(7, 4);
    let data = w.finish(2);
    let mut bs = Bs_t::new(&data, 2);
    let mut scf = [0u8; 5];
    let mut ist = [0u8; 2];
    L3_read_scalefactors(&mut scf, &mut ist, &[4], &[2, 0], &mut bs, -16);
    assert_eq!(scf[..2], [8, 7]);
    assert_eq!(ist, [255, 7]);
}

#[test]
fn read_scalefactors_copies_groups_flagged_by_scfsi() {
    let mut w = BitWriter::new();
    w.put(5, 3);
    let data = w.finish(1);
    let mut bs = Bs_t::new(&data, 1);
    let mut scf = [0u8; 6];
    let mut ist = [4u8, 6, 0];
    L3_read_scalefactors(&mut scf, &mut ist, &[3, 3, 0, 0], &[2, 1, 0], &mut bs, 8);
    assert_eq!(scf, [4, 6, 5, 0, 0, 0]);
    assert_eq!(ist, [4, 6, 5]);
    assert_eq!(bs.pos(), 3);
}

#[test]
fn read_scalefactors_clears_groups_of_width_zero() {
    let data = [0xffu8; 2];
    let mut bs = Bs_t::new(&data, 2);
    let mut scf = [3u8; 7];
    let mut ist = [3u8; 4];
    L3_read_scalefactors(&mut scf, &mut ist, &[0, 1, 0, 0], &[2, 2, 0], &mut bs, 0);
    assert_eq!(scf, [0, 0, 1, 1, 0, 0, 0]);
    assert_eq!(ist, [0, 0, 1, 1]);
    assert_eq!(bs.pos(), 2);
}

fn long_granule(sfc: u16, preflag: u8) -> L3GrInfo_t {
    L3GrInfo_t {
        scalefac_compress: sfc,
        global_gain: 210,
        n_long_sfb: 22,
        n_short_sfb: 0,
        preflag,
        subblock_gain: [0; 3],
        ..blank_granule()
    }
}

#[test]
fn dequantizer_constants() {
    assert_eq!(MAX_SCF, 41);
    assert_eq!(MAX_SCFI, 44);
}

#[test]
fn decode_scalefactors_mpeg1_long_blocks() {
    let data = [0xaau8; 4];
    let mut bs = Bs_t::new(&data, 4);
    let hdr = Hdr::new(&[0xff, 0xfb, 0x90, 0x00]);
    let mut ist = [0u8; 39];
    let gr = long_granule(5, 0);
    let r = L3_decode_scalefactors(&hdr, &mut ist, &mut bs, &gr, false);
    assert_eq!(bs.pos(), 21);
    assert_eq!(r.n_bands, 22);
    assert_eq!(r.gain_q2, 48);
    for i in 0..40 {
        let want = if i < 21 && i % 2 == 0 { 2 } else { 0 };
        assert_eq!(r.band_q2[i], want, "band {}", i);
    }
    for i in 0..21 {
        assert_eq!(ist[i], if i % 2 == 0 { 1 } else { 0 });
    }
}

#[test]
fn decode_scalefactors_adds_preemphasis() {
    let data = [0xaau8; 4];
    let mut bs = Bs_t::new(&data, 4);
    let hdr = Hdr::new(&[0xff, 0xfb, 0x90, 0x64]);
    let mut ist = [0u8; 39];
    let gr = long_granule(5, 1);
    let r = L3_decode_scalefactors(&hdr, &mut ist, &mut bs, &gr, false);
    // mid/side stereo lowers the gain exponent by 2
    assert_eq!(r.gain_q2, 50);
    assert_eq!(&r.band_q2[10..22], &[2, 2, 4, 2, 4, 4, 6, 6, 8, 6, 6, 0]);
}

#[test]
fn decode_scalefactors_adds_subblock_gains() {
    let data = [0u8; 4];
    let mut bs = Bs_t::new(&data, 4);
    let hdr = Hdr::new(&[0xff, 0xfb, 0x90, 0x00]);
    let mut ist = [0u8; 39];
    let gr = L3GrInfo_t {
        scalefac_compress: 0,
        global_gain: 200,
        n_long_sfb: 0,
        n_short_sfb: 39,
        subblock_gain: [1, 2, 3],
        scalefac_scale: 0,
        ..blank_granule()
    };
    let r = L3_decode_scalefactors(&hdr, &mut ist, &mut bs, &gr, false);
    assert_eq!(bs.pos(), 0);
    assert_eq!(r.n_bands, 39);
    assert_eq!(r.gain_q2, 58);
    for i in 0..39 {
        assert_eq!(r.band_q2[i], [8, 16, 24][i % 3]);
    }
    assert_eq!(r.band_q2[39], 0);
}

#[test]
fn decode_scalefactors_mpeg2_widths_and_markers() {
    let data = [0xffu8; 8];
    let mut bs = Bs_t::new(&data, 8);
    let hdr = Hdr::new(&[0xff, 0xf3, 0x54, 0x00]);
    let mut ist = [0u8; 39];
    let gr = long_granule(125, 0);
    let r = L3_decode_scalefactors(&hdr, &mut ist, &mut bs, &gr, false);
    assert_eq!(bs.pos(), 36);
    let mut want = vec![2; 6];
    want.extend([6; 5]);
    want.extend([14; 5]);
    want.extend([2; 5]);
    want.push(0);
    assert_eq!(&r.band_q2[..22], &want[..]);
    let mut want_ist = vec![255u8; 6];
    want_ist.extend([3; 5]);
    want_ist.extend([7; 5]);
    want_ist.extend([255; 5]);
    assert_eq!(&ist[..21], &want_ist[..]);
}

#[test]
fn side_info_parses_only_as_many_records_as_slots() {
    let mut w = BitWriter::new();
    w.put(0, 9);
    w.put(0, 11);
    long_record(&mut w, 10, 5, 100, 3, [1, 1, 1], [1, 1], 0, 0, 0);
    long_record(&mut w, 20, 6, 101, 4, [2, 2, 2], [2, 2], 1, 1, 1);
    // the records of the second granule follow, but there is no slot for them
    long_record(&mut w, 30, 300, 102, 5, [3, 3, 3], [3, 3], 0, 0, 0);
    let data = w.finish(40);
    let hdr = Hdr::new(&[0xff, 0xfb, 0x90, 0x00]);
    let mut bs = Bs_t::new(&data, 40);
    let mut gr = [blank_granule(); 2];
    assert_eq!(L3_read_side_info(&mut bs, &mut gr, &hdr), Some(0));
    assert_eq!(bs.pos(), 20 + 2 * 59);
    assert_eq!(gr[0].part_23_length, 10);
    assert_eq!(gr[0].global_gain, 100);
    assert_eq!(gr[1].part_23_length, 20);
    assert_eq!(gr[1].preflag, 1);
}

#[test]
fn side_info_reader_stops_after_the_rejecting_field() {
    let data = mono_mpeg1_side_info(5, 289, 57);
    let hdr = Hdr::new(&[0xff, 0xfb, 0x90, 0xc4]);
    let mut bs = Bs_t::new(&data, 57);
    let mut gr = [blank_granule(); 2];
    assert_eq!(L3_read_side_info(&mut bs, &mut gr, &hdr), None);
    // header 18 bits, first record 59 bits, then part2_3_length and big_values
    assert_eq!(bs.pos(), 18 + 59 + 21);
}

#[test]
fn read_scalefactors_wide_group_past_the_limit_reads_zeros() {
    let data = [0xffu8; 1];
    let mut bs = Bs_t::new(&data, 1);
    let mut scf = [7u8; 5];
    let mut ist = [7u8; 2];
    L3_read_scalefactors(&mut scf, &mut ist, &[40], &[2, 0], &mut bs, 0);
    assert_eq!(scf, [0, 0, 0, 0, 0]);
    assert_eq!(ist, [0, 0]);
    assert_eq!(bs.pos(), 80);
}

#[test]
fn decode_scalefactors_mpeg2_widths_past_the_long_rows() {
    let data = [0xffu8; 8];
    let mut bs = Bs_t::new(&data, 8);
    let hdr = Hdr::new(&[0xff, 0xf3, 0x54, 0x00]);
    let mut ist = [9u8; 39];
    let gr = long_granule(520, 0);
    let r = L3_decode_scalefactors(&hdr, &mut ist, &mut bs, &gr, false);
    assert_eq!(bs.pos(), 15);
    let mut want = vec![0; 6];
    want.extend([2; 5]);
    want.extend([6; 5]);
    want.extend([0; 5]);
    want.push(0);
    assert_eq!(&r.band_q2[..22], &want[..]);
    assert_eq!(r.gain_q2, 48);
    let mut want_ist = vec![0u8; 6];
    want_ist.extend([255; 5]);
    want_ist.extend([3; 5]);
    want_ist.extend([0; 5]);
    assert_eq!(&ist[..21], &want_ist[..]);
}

#[test]
fn scalefactors_fit_checks_room_bits_and_sums() {
    let hdr = Hdr::new(&[0xff, 0xfb, 0x90, 0x00]);
    let data = [0xaau8; 4];
    let bs = Bs_t::new(&data, 4);
    let gr = long_granule(5, 0);
    assert!(L3_scalefactors_fit(&hdr, &[0u8; 39], &bs, &gr, false));
    // the 21 scale factors do not fit in 10 intensity positions
    assert!(!L3_scalefactors_fit(&hdr, &[0u8; 10], &bs, &gr, false));
    // the reader claims more bytes than its buffer holds, and needs them
    let short = [0xaau8; 1];
    let bs_short = Bs_t::new(&short, 4);
    assert!(!L3_scalefactors_fit(&hdr, &[0u8; 39], &bs_short, &gr, false));
    // a copied scale factor of 255 plus pre-emphasis overflows
    let mut ist = [0u8; 39];
    ist[11] = 255;
    let copy_third = L3GrInfo_t { scfsi: 2, ..long_granule(5, 1) };
    assert!(!L3_scalefactors_fit(&hdr, &ist, &bs, &copy_third, false));
    ist[11] = 254;
    assert!(L3_scalefactors_fit(&hdr, &ist, &bs, &copy_third, false));
    assert_eq!(bs.pos(), 0);
}
