use minimp3::bitstream::Bs_t;
use minimp3::hdr::Hdr;
use minimp3::l12::{
    L12ScaleInfo, L12ScfCode, L12SubbandAlloc_t, L12_dequantize_granule, L12_read_scale_info,
    L12_read_scalefactors, L12_scalefactors_fit,
};

struct BitWriter {
    bytes: Vec<u8>,
    nbits: usize,
}

impl BitWriter {
    fn new() -> Self {
        BitWriter { bytes: Vec::new(), nbits: 0 }
    }

    fn put(&mut self, value: u32, n: u32) {
        for i in (0..n).rev() {
            if self.nbits % 8 == 0 {
                self.bytes.push(0);
            }
            let bit = ((value >> i) & 1) as u8;
            let last = self.bytes.len() - 1;
            self.bytes[last] |= bit << (7 - self.nbits % 8);
            self.nbits += 1;
        }
    }

    fn finish(mut self, total_bytes: usize) -> Vec<u8> {
        self.bytes.resize(total_bytes, 0);
        self.bytes
    }
}

fn sa(tab_offset: u8, code_tab_width: u8, band_count: u8) -> L12SubbandAlloc_t {
    L12SubbandAlloc_t { tab_offset, code_tab_width, band_count }
}

const ZERO: L12ScfCode = L12ScfCode { deq_index: 0, multiplier: 0 };

fn blank_scale_info() -> L12ScaleInfo {
    L12ScaleInfo {
        scf: [L12ScfCode { deq_index: 99, multiplier: 99 }; 192],
        total_bands: 0,
        stereo_bands: 0,
        bitalloc: [0; 64],
        scfcod: [0; 64],
    }
}

#[test]
fn layer1_uses_one_table_for_all_32_subbands() {
    let (alloc, nbands, stereo) = L12SubbandAlloc_t::new(&Hdr::new(&[0xff, 0xff, 0x90, 0x00]));
    assert_eq!(alloc, vec![sa(76, 4, 32)]);
    assert_eq!(nbands, 32);
    assert_eq!(stereo, 32);
}

#[test]
fn layer2_mpeg1_high_rate_stereo() {
    let (alloc, nbands, stereo) = L12SubbandAlloc_t::new(&Hdr::new(&[0xff, 0xfd, 0xa0, 0x00]));
    assert_eq!(alloc, vec![sa(0, 4, 3), sa(16, 4, 8), sa(32, 3, 12), sa(40, 2, 7)]);
    assert_eq!(nbands, 30);
    assert_eq!(stereo, 30);
}

#[test]
fn layer2_mpeg1_at_48khz_keeps_27_subbands() {
    let (alloc, nbands, _) = L12SubbandAlloc_t::new(&Hdr::new(&[0xff, 0xfd, 0xa4, 0x00]));
    assert_eq!(alloc.len(), 4);
    assert_eq!(nbands, 27);
}

#[test]
fn layer2_mpeg1_low_rate_mono() {
    let (alloc, nbands, stereo) = L12SubbandAlloc_t::new(&Hdr::new(&[0xff, 0xfd, 0x18, 0xc0]));
    assert_eq!(alloc, vec![sa(44, 4, 2), sa(44, 3, 10)]);
    assert_eq!(nbands, 12);
    assert_eq!(stereo, 0);
    let (_, nbands, _) = L12SubbandAlloc_t::new(&Hdr::new(&[0xff, 0xfd, 0x10, 0xc0]));
    assert_eq!(nbands, 8);
}

#[test]
fn layer2_mpeg1_free_format_counts_as_high_rate() {
    let (alloc, nbands, _) = L12SubbandAlloc_t::new(&Hdr::new(&[0xff, 0xfd, 0x00, 0x00]));
    assert_eq!(alloc.len(), 4);
    assert_eq!(nbands, 30);
}

#[test]
fn layer2_mpeg2_joint_stereo() {
    let (alloc, nbands, stereo) = L12SubbandAlloc_t::new(&Hdr::new(&[0xff, 0xf5, 0x80, 0x50]));
    assert_eq!(alloc, vec![sa(60, 4, 4), sa(44, 3, 7), sa(44, 2, 19)]);
    assert_eq!(nbands, 30);
    assert_eq!(stereo, 30);
    let (_, _, stereo) = L12SubbandAlloc_t::new(&Hdr::new(&[0xff, 0xf5, 0x80, 0x40]));
    assert_eq!(stereo, 0);
}

#[test]
fn read_scalefactors_keeps_the_second_code_of_each_band() {
    let mut w = BitWriter::new();
    w.put(1, 6);
    w.put(11, 6);
    w.put(63, 6);
    w.put(6, 6);
    let data = w.finish(4);
    let mut bs = Bs_t::new(&data, 4);
    let mut scf = [L12ScfCode { deq_index: 7, multiplier: 7 }; 5];
    L12_read_scalefactors(&mut bs, &[2, 0, 19, 5], &[0, 0, 3, 1], &mut scf);
    assert_eq!(bs.pos(), 24);
    assert_eq!(scf[0], L12ScfCode { deq_index: 2, multiplier: 1 << 18 });
    assert_eq!(scf[1], ZERO);
    assert_eq!(scf[2], ZERO);
    assert_eq!(scf[3], L12ScfCode { deq_index: 9, multiplier: 1 << 19 });
    assert_eq!(scf[4], L12ScfCode { deq_index: 7, multiplier: 7 });
}

#[test]
fn read_scalefactors_of_the_largest_code() {
    let mut w = BitWriter::new();
    w.put(63, 6);
    let data = w.finish(1);
    let mut bs = Bs_t::new(&data, 1);
    let mut scf = [ZERO; 1];
    L12_read_scalefactors(&mut bs, &[19], &[1], &mut scf);
    assert_eq!(scf[0], L12ScfCode { deq_index: 51, multiplier: 1 });
}

#[test]
fn scale_info_of_layer1_mono_frame() {
    let mut w = BitWriter::new();
    w.put(4, 4);
    let data = w.finish(4);
    let mut bs = Bs_t::new(&data, 4);
    let mut sci = blank_scale_info();
    L12_read_scale_info(&Hdr::new(&[0xff, 0xff, 0x90, 0xc0]), &mut bs, &mut sci);
    assert_eq!(bs.pos(), 4);
    assert_eq!(sci.total_bands, 32);
    assert_eq!(sci.stereo_bands, 0);
    let mut want_ba = [0u8; 64];
    want_ba[0] = 5;
    assert_eq!(sci.bitalloc, want_ba);
    let mut want_cod = [6u8; 64];
    want_cod[0] = 2;
    assert_eq!(sci.scfcod, want_cod);
    for i in 0..32 {
        assert_eq!(sci.scf[i], ZERO);
    }
    assert_eq!(sci.scf[32], L12ScfCode { deq_index: 99, multiplier: 99 });
}

#[test]
fn scale_info_of_layer2_stereo_frame() {
    let mut w = BitWriter::new();
    // allocation codes at the first subband of each group, both channels
    w.put(1, 4);
    w.put(2, 4);
    w.put(3, 4);
    w.put(0, 4);
    w.put(7, 3);
    w.put(1, 3);
    w.put(2, 2);
    w.put(3, 2);
    // scale-factor coding of the allocated entries 0, 1, 6, 22, 23, 46, 47
    w.put(0, 2);
    w.put(1, 2);
    w.put(3, 2);
    w.put(2, 2);
    w.put(0, 2);
    w.put(1, 2);
    w.put(3, 2);
    // scale factors of entries 0, 1, 6 and 23
    w.put(0, 6);
    w.put(4, 6);
    w.put(9, 6);
    w.put(63, 6);
    w.put(2, 6);
    w.put(62, 6);
    assert_eq!(w.nbits, 76);
    let data = w.finish(12);
    let mut bs = Bs_t::new(&data, 12);
    let mut sci = blank_scale_info();
    L12_read_scale_info(&Hdr::new(&[0xff, 0xfd, 0xa0, 0x00]), &mut bs, &mut sci);
    assert_eq!(bs.pos(), 76);
    assert_eq!(sci.total_bands, 30);
    assert_eq!(sci.stereo_bands, 30);

    let mut want_ba = [0u8; 64];
    want_ba[0] = 17;
    want_ba[1] = 3;
    want_ba[6] = 3;
    want_ba[7] = 0;
    want_ba[22] = 16;
    want_ba[23] = 17;
    want_ba[46] = 18;
    want_ba[47] = 16;
    assert_eq!(sci.bitalloc, want_ba);

    let mut want_cod = [0u8; 64];
    for j in 0..60 {
        want_cod[j] = 6;
    }
    want_cod[0] = 0;
    want_cod[1] = 1;
    want_cod[6] = 3;
    want_cod[22] = 2;
    want_cod[23] = 0;
    want_cod[46] = 1;
    want_cod[47] = 3;
    assert_eq!(sci.scfcod, want_cod);

    for i in 0..30 {
        let want = match i {
            0 => L12ScfCode { deq_index: 46, multiplier: 1 << 20 },
            1 => L12ScfCode { deq_index: 3, multiplier: 1 << 18 },
            23 => L12ScfCode { deq_index: 47, multiplier: 2 },
            _ => ZERO,
        };
        assert_eq!(sci.scf[i], want, "entry {}", i);
    }
    assert_eq!(sci.scf[30], L12ScfCode { deq_index: 99, multiplier: 99 });
}

#[test]
fn dequantize_without_subbands_reads_nothing() {
    let data = [0xffu8; 4];
    let mut bs = Bs_t::new(&data, 4);
    let sci = blank_scale_info();
    let mut grbuf = [5u32; 36];
    assert_eq!(L12_dequantize_granule(&mut grbuf, &mut bs, &sci, 12), 48);
    assert_eq!(grbuf, [5u32; 36]);
    assert_eq!(bs.pos(), 0);
}

#[test]
fn allocation_tables_cover_the_coded_subbands() {
    for b1 in [0xfcu8, 0xfd, 0xfe, 0xff, 0xf4, 0xf5, 0xf6, 0xf7] {
        for b2 in 0..=0xefu8 {
            if (b2 >> 2) & 3 == 3 {
                continue;
            }
            for b3 in [0x00u8, 0x40, 0x50, 0x60, 0x70, 0x80, 0xc0] {
                let (alloc, nbands, stereo) = L12SubbandAlloc_t::new(&Hdr::new(&[0xff, b1, b2, b3]));
                let covered: u32 = alloc.iter().map(|a| a.band_count as u32).sum();
                assert!(covered >= nbands as u32);
                assert!(nbands <= 32);
                assert!(stereo <= nbands);
                for a in &alloc {
                    assert!(a.band_count > 0);
                    assert!((2..=4).contains(&a.code_tab_width));
                    assert!(a.tab_offset as u32 + (1u32 << a.code_tab_width) <= 92);
                }
            }
        }
    }
}

#[test]
fn allocations_read_are_zero_or_table_rows() {
    let mut state: u32 = 0x1234_5678;
    let data: Vec<u8> = (0..128)
        .map(|_| {
            state = state.wrapping_mul(1_103_515_245).wrapping_add(12_345);
            (state >> 16) as u8
        })
        .collect();
    for hdr in [[0xffu8, 0xfd, 0xa0, 0x00], [0xff, 0xf5, 0x80, 0x50], [0xff, 0xff, 0x90, 0x00], [0xff, 0xfd, 0x18, 0x00]] {
        let mut bs = Bs_t::new(&data, 128);
        let mut sci = blank_scale_info();
        L12_read_scale_info(&Hdr::new(&hdr), &mut bs, &mut sci);
        for j in 0..2 * sci.total_bands as usize {
            let ba = sci.bitalloc[j];
            assert!(ba == 0 || (2..=19).contains(&ba));
            let cod = sci.scfcod[j];
            assert!(cod <= 3 || cod == 6);
            assert_eq!(cod == 6, ba == 0);
        }
        for i in 0..sci.total_bands as usize {
            let s = sci.scf[i];
            assert!(s.multiplier == 0 || s.multiplier.is_power_of_two());
            assert!(s.deq_index < 54);
        }
    }
}

#[test]
fn scalefactors_fit_checks_rows_and_bits() {
    let data = [0u8; 4];
    let bs = Bs_t::new(&data, 4);
    assert!(L12_scalefactors_fit(&bs, &[2, 0, 19, 5], &[0, 0, 3, 1]));
    // allocation 1 has no table row
    assert!(!L12_scalefactors_fit(&bs, &[1], &[0]));
    // allocation 20 has none either
    assert!(!L12_scalefactors_fit(&bs, &[20], &[1]));
    // a coding of 40 shifts too far
    assert!(!L12_scalefactors_fit(&bs, &[3], &[40]));
    // nothing allocated: any coding, no bits
    assert!(L12_scalefactors_fit(&bs, &[0], &[40]));
    // the reader claims four bytes but holds one
    let short = [0u8; 1];
    let bs_short = Bs_t::new(&short, 4);
    assert!(!L12_scalefactors_fit(&bs_short, &[2, 0, 19, 5], &[0, 0, 3, 1]));
}
