use minimp3::hdr::Hdr;
use minimp3::MAX_SAMPLES_PER_FRAME;

#[test]
fn it_works() {
    assert_eq!(2 + 2, 4);
}

fn hdr(b: [u8; 4]) -> Hdr {
    Hdr::new(&b)
}

#[test]
fn header_new_reads_four_bytes() {
    let h = Hdr::new(&[0xff, 0xfb, 0x90, 0x64, 0x00]);
    assert_eq!(h[0], 0xff);
    assert_eq!(h[1], 0xfb);
    assert_eq!(h[2], 0x90);
    assert_eq!(h[3], 0x64);
}

#[test]
fn mpeg1_layer3_joint_stereo_fields() {
    let h = hdr([0xff, 0xfb, 0x90, 0x64]);
    assert!(h.is_valid());
    assert_eq!(h.get_layer(), 1);
    assert_eq!(h.get_bitrate(), 9);
    assert_eq!(h.get_sample_rate(), 0);
    assert_eq!(h.test_mpeg1(), 8);
    assert_eq!(h.test_not_mpeg25(), 0x10);
    assert!(!h.is_crc());
    assert_eq!(h.test_padding(), 0);
    assert_eq!(h.get_stereo_mode(), 1);
    assert_eq!(h.get_stereo_mode_ext(), 2);
    assert!(h.is_ms_stereo());
    assert_eq!(h.test_ms_stereo(), 0x20);
    assert_eq!(h.test_i_stereo(), 0);
    assert!(!h.is_mono());
    assert!(!h.is_free_format());
    assert!(!h.is_layer_1());
    assert!(!h.is_frame_576());
    assert_eq!(h.get_my_sample_rate(), 6);
}

#[test]
fn mpeg1_layer3_rates_and_sizes() {
    let h = hdr([0xff, 0xfb, 0x90, 0x64]);
    assert_eq!(h.bitrate_kbps(), 128);
    assert_eq!(h.sample_rate_hz(), 44100);
    assert_eq!(h.frame_samples(), 1152);
    assert_eq!(h.frame_bytes(0), 417);
    assert_eq!(h.padding(), 0);
}

#[test]
fn crc_bit_clear_means_crc() {
    let h = hdr([0xff, 0xfa, 0x90, 0x64]);
    assert!(h.is_crc());
    assert!(h.is_valid());
}

#[test]
fn layer1_mono_with_padding() {
    let h = hdr([0xff, 0xff, 0x92, 0xc0]);
    assert!(h.is_valid());
    assert!(h.is_layer_1());
    assert_eq!(h.get_layer(), 3);
    assert!(h.is_mono());
    assert!(!h.is_ms_stereo());
    assert_eq!(h.test_padding(), 2);
    assert_eq!(h.padding(), 4);
    assert_eq!(h.bitrate_kbps(), 288);
    assert_eq!(h.frame_samples(), 384);
    // 384 * 288 * 125 / 44100 = 313, rounded down to a multiple of 4.
    assert_eq!(h.frame_bytes(0), 312);
    assert_eq!(h.frame_bytes(0) % 4, 0);
}

#[test]
fn layer2_padding_is_one_byte() {
    let h = hdr([0xff, 0xfd, 0xa2, 0x00]);
    assert_eq!(h.get_layer(), 2);
    assert_eq!(h.padding(), 1);
    assert_eq!(h.bitrate_kbps(), 192);
    assert_eq!(h.frame_samples(), 1152);
    assert_eq!(h.frame_bytes(0), 626);
}

#[test]
fn mpeg2_layer3_half_rate() {
    let h = hdr([0xff, 0xf3, 0x54, 0x00]);
    assert!(h.is_valid());
    assert_eq!(h.test_mpeg1(), 0);
    assert!(h.is_frame_576());
    assert_eq!(h.sample_rate_hz(), 24000);
    assert_eq!(h.bitrate_kbps(), 40);
    assert_eq!(h.frame_samples(), 576);
    assert_eq!(h.frame_bytes(0), 120);
    assert_eq!(h.get_my_sample_rate(), 4);
}

#[test]
fn mpeg25_layer3_quarter_rate() {
    let h = hdr([0xff, 0xe3, 0x18, 0x00]);
    assert!(h.is_valid());
    assert_eq!(h.test_not_mpeg25(), 0);
    assert_eq!(h.sample_rate_hz(), 8000);
    assert_eq!(h.bitrate_kbps(), 8);
    assert_eq!(h.frame_bytes(0), 72);
    assert_eq!(h.get_my_sample_rate(), 2);
}

#[test]
fn free_format_takes_given_size() {
    let h = hdr([0xff, 0xfb, 0x00, 0x00]);
    assert!(h.is_valid());
    assert!(h.is_free_format());
    assert_eq!(h.bitrate_kbps(), 0);
    assert_eq!(h.frame_bytes(1234), 1234);
}

#[test]
fn invalid_headers_are_rejected() {
    assert!(!hdr([0xfe, 0xfb, 0x90, 0x64]).is_valid());
    assert!(!hdr([0xff, 0xfb, 0xf0, 0x64]).is_valid());
    assert!(!hdr([0xff, 0xfb, 0x9c, 0x64]).is_valid());
    assert!(!hdr([0xff, 0xf9, 0x90, 0x64]).is_valid());
    assert!(!hdr([0xff, 0xe9, 0x90, 0x64]).is_valid());
    assert!(!hdr([0xff, 0xeb, 0x90, 0x64]).is_valid());
}

#[test]
fn valid_header_rates_are_in_range() {
    for b1 in [0xe2u8, 0xe3, 0xf2, 0xf3, 0xf4, 0xf5, 0xf6, 0xf7, 0xfa, 0xfb, 0xfc, 0xfd, 0xfe, 0xff] {
        for b2 in 0..=255u8 {
            let h = hdr([0xff, b1, b2, 0]);
            if h.is_valid() {
                assert!(h.bitrate_kbps() <= 448);
                assert_eq!(h.bitrate_kbps() == 0, h.is_free_format());
                let hz = h.sample_rate_hz();
                assert!((8000..=48000).contains(&hz));
            }
        }
    }
}

#[test]
fn compare_is_reflexive_for_valid_headers() {
    let h = hdr([0xff, 0xfb, 0x90, 0x64]);
    assert!(h.compare(&h));
    let bad = hdr([0xfe, 0xfb, 0x90, 0x64]);
    assert!(!bad.compare(&bad));
}

#[test]
fn compare_ignores_bitrate_and_channel_mode() {
    let h1 = hdr([0xff, 0xfb, 0x90, 0x64]);
    let h2 = hdr([0xff, 0xfa, 0xa2, 0xc4]);
    assert!(h1.compare(&h2));
    assert!(h2.compare(&h1));
    let h3 = hdr([0xff, 0xfb, 0xb0, 0x00]);
    assert!(h2.compare(&h3));
    assert!(h1.compare(&h3));
}

#[test]
fn compare_rejects_stream_changes() {
    let h1 = hdr([0xff, 0xfb, 0x90, 0x64]);
    // sample rate differs
    assert!(!h1.compare(&hdr([0xff, 0xfb, 0x94, 0x64])));
    // layer differs
    assert!(!h1.compare(&hdr([0xff, 0xfd, 0x90, 0x64])));
    // MPEG version differs
    assert!(!h1.compare(&hdr([0xff, 0xf3, 0x90, 0x64])));
    // free format on one side only
    assert!(!h1.compare(&hdr([0xff, 0xfb, 0x00, 0x64])));
    // the other header is not valid
    assert!(!h1.compare(&hdr([0xff, 0xfb, 0xf0, 0x64])));
}

#[test]
fn compared_headers_share_stream_parameters() {
    let h1 = hdr([0xff, 0xfb, 0x90, 0x64]);
    let h2 = hdr([0xff, 0xfa, 0xa2, 0xc4]);
    assert!(h1.compare(&h2));
    assert_eq!(h1.get_layer(), h2.get_layer());
    assert_eq!(h1.sample_rate_hz(), h2.sample_rate_hz());
    assert_eq!(h1.frame_samples(), h2.frame_samples());
    assert_eq!(h1.is_free_format(), h2.is_free_format());
}

#[test]
fn max_samples_per_frame_is_two_channels_of_1152() {
    assert_eq!(MAX_SAMPLES_PER_FRAME, 2304);
}
