use minimp3::bitstream::Bs_t;
use minimp3::sfb::{SfbKind, SfbTable};
use minimp3::utils::{advance_slice, advance_slice_mut, copy_forward_within_slice};

#[test]
fn new_reader_starts_at_zero_with_limit_in_bits() {
    let data = [0u8; 10];
    let bs = Bs_t::new(&data, 7);
    assert_eq!(bs.pos(), 0);
    assert_eq!(bs.limit(), 56);
}

#[test]
fn get_bits_reads_most_significant_bit_first() {
    let data = [0xac, 0xff, 0x00];
    let mut bs = Bs_t::new(&data, 3);
    assert_eq!(bs.get_bits(3), 0b101);
    assert_eq!(bs.pos(), 3);
    assert_eq!(bs.get_bits(7), 0b0110011);
    assert_eq!(bs.pos(), 10);
    assert_eq!(bs.get_bits(14), 0b11111100000000);
    assert_eq!(bs.pos(), 24);
}

#[test]
fn get_bits_past_the_limit_moves_and_returns_zero() {
    let data = [0xff, 0xff, 0xff];
    let mut bs = Bs_t::new(&data, 1);
    assert_eq!(bs.get_bits(8), 0xff);
    assert_eq!(bs.get_bits(1), 0);
    assert_eq!(bs.pos(), 9);
    assert_eq!(bs.get_bits(3), 0);
    assert_eq!(bs.pos(), 12);
}

#[test]
fn get_bits_of_zero_width_reads_nothing() {
    let data = [0xff];
    let mut bs = Bs_t::new(&data, 1);
    assert_eq!(bs.get_bits(0), 0);
    assert_eq!(bs.pos(), 0);
    assert_eq!(bs.get_bits(4), 0xf);
}

#[test]
fn get_bits_reads_a_full_word_across_five_bytes() {
    let data = [0x12, 0x34, 0x56, 0x78, 0x9a];
    let mut bs = Bs_t::new(&data, 5);
    assert_eq!(bs.get_bits(4), 0x1);
    assert_eq!(bs.get_bits(32), 0x2345_6789);
    assert_eq!(bs.get_bits(4), 0xa);
}

#[test]
fn two_reads_concatenate_to_one() {
    let data = [0x5a, 0xc3, 0x96, 0x0f];
    for x in 0..=16u32 {
        for y in 0..=16u32 {
            let mut a = Bs_t::new(&data, 4);
            let hi = a.get_bits(x);
            let lo = a.get_bits(y);
            let mut b = Bs_t::new(&data, 4);
            let both = b.get_bits(x + y);
            assert_eq!(both as u64, ((hi as u64) << y) | lo as u64);
            assert_eq!(a.pos(), b.pos());
        }
    }
}

#[test]
fn advance_slice_drops_a_prefix() {
    let v = [1, 2, 3, 4];
    let mut s: &[i32] = &v;
    advance_slice(&mut s, 2);
    assert_eq!(s, &[3, 4]);
    advance_slice(&mut s, 2);
    assert!(s.is_empty());
}

#[test]
fn advance_slice_mut_writes_reach_the_whole_slice() {
    let mut v = [1, 2, 3, 4, 5];
    {
        let mut s: &mut [i32] = &mut v;
        advance_slice_mut(&mut s, 3);
        assert_eq!(s.len(), 2);
        s[0] = 40;
    }
    assert_eq!(v, [1, 2, 3, 40, 5]);
}

#[test]
fn copy_forward_repeats_the_overlap() {
    let mut v = [1, 2, 3, 4, 5, 6, 7, 8];
    copy_forward_within_slice(&mut v, 0, 2, 5);
    assert_eq!(v, [1, 2, 1, 2, 1, 2, 1, 8]);
}

#[test]
fn copy_forward_without_overlap_copies() {
    let mut v = [1, 2, 3, 4, 5, 6, 7, 8];
    copy_forward_within_slice(&mut v, 0, 4, 3);
    assert_eq!(v, [1, 2, 3, 4, 1, 2, 3, 8]);
    let mut w = [1.0f32, 2.0, 3.0];
    copy_forward_within_slice(&mut w, 1, 2, 1);
    assert_eq!(w, [1.0, 2.0, 2.0]);
}

#[test]
fn band_tables_by_kind_and_rate() {
    let long = SfbTable { kind: SfbKind::Long, sr_idx: 0 }.widths();
    assert_eq!(
        long,
        vec![6, 6, 6, 6, 6, 6, 8, 10, 12, 14, 16, 20, 24, 28, 32, 38, 46, 52, 60, 68, 58, 54, 0]
    );
    let short = SfbTable { kind: SfbKind::Short, sr_idx: 7 }.widths();
    assert_eq!(short.len(), 40);
    assert_eq!(&short[36..], &[12, 12, 12, 0]);
    let mixed = SfbTable { kind: SfbKind::Mixed, sr_idx: 1 }.widths();
    assert_eq!(&mixed[..6], &[12, 12, 12, 4, 4, 4]);
    let long6 = SfbTable { kind: SfbKind::Long, sr_idx: 6 }.widths();
    assert_eq!(long6[21], 192);
}
