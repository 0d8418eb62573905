//! The four-byte MPEG audio frame header and the quantities derived from it.
use vstd::prelude::*;

verus! {

/// Number of bytes in a frame header.
pub const HDR_SIZE: usize = 4;

/// An MPEG audio frame header: the first four bytes of a frame.
pub struct Hdr([u8; 4]);

impl View for Hdr {
    type V = Seq<u8>;

    closed spec fn view(&self) -> Seq<u8> {
        self.0@
    }
}

/// Every header holds exactly four bytes.
pub broadcast proof fn lemma_hdr_len(h: &Hdr)
    ensures
        #[trigger] h@.len() == 4,
{
}

// ---------------------------------------------------------------------------
// The fields of a header, read from its bytes.
// ---------------------------------------------------------------------------

/// Layer code (bits 1..2 of byte 1): 3 is layer I, 2 is layer II, 1 is layer III, 0 is reserved.
pub open spec fn spec_layer(h: Seq<u8>) -> u8 {
    (h[1] >> 1u8) & 3u8
}

/// Bitrate index (high nibble of byte 2); 0 means free format, 15 is forbidden.
pub open spec fn spec_bitrate(h: Seq<u8>) -> u8 {
    h[2] >> 4u8
}

/// Sample-rate index (bits 2..3 of byte 2); 3 is reserved.
pub open spec fn spec_sample_rate(h: Seq<u8>) -> u8 {
    (h[2] >> 2u8) & 3u8
}

/// Channel mode (top two bits of byte 3): 0 stereo, 1 joint stereo, 2 dual channel, 3 mono.
pub open spec fn spec_stereo_mode(h: Seq<u8>) -> u8 {
    (h[3] >> 6u8) & 3u8
}

/// Mode extension (bits 4..5 of byte 3).
pub open spec fn spec_stereo_mode_ext(h: Seq<u8>) -> u8 {
    (h[3] >> 4u8) & 3u8
}

/// The MPEG-1 bit (bit 3 of byte 1) is set.
pub open spec fn spec_is_mpeg1(h: Seq<u8>) -> bool {
    h[1] & 0x8u8 != 0
}

/// The "not MPEG-2.5" bit (bit 4 of byte 1) is set.
pub open spec fn spec_is_not_mpeg25(h: Seq<u8>) -> bool {
    h[1] & 0x10u8 != 0
}

/// The header describes a layer I frame.
pub open spec fn spec_is_layer_1(h: Seq<u8>) -> bool {
    h[1] & 6u8 == 6u8
}

/// The header describes a layer III frame of an MPEG-2 or MPEG-2.5 stream (576 samples).
pub open spec fn spec_is_frame_576(h: Seq<u8>) -> bool {
    h[1] & 14u8 == 2u8
}

/// The bitrate index says "free format".
pub open spec fn spec_is_free_format(h: Seq<u8>) -> bool {
    h[2] & 0xF0u8 == 0u8
}

/// The header passes the sync, version, layer, bitrate and sample-rate checks.
pub open spec fn spec_is_valid(h: Seq<u8>) -> bool {
    &&& h[0] == 0xffu8
    &&& (h[1] & 0xF0u8 == 0xf0u8 || h[1] & 0xFEu8 == 0xe2u8)
    &&& spec_layer(h) != 0
    &&& spec_bitrate(h) != 15
    &&& spec_sample_rate(h) != 3
}

/// `h2` is a valid header and agrees with `h1` in everything that must stay
/// the same from one frame of a stream to the next.
pub open spec fn spec_compare(h1: Seq<u8>, h2: Seq<u8>) -> bool {
    &&& spec_is_valid(h2)
    &&& (h1[1] ^ h2[1]) & 0xFEu8 == 0
    &&& (h1[2] ^ h2[2]) & 0x0Cu8 == 0
    &&& spec_is_free_format(h1) == spec_is_free_format(h2)
}

/// Half the bitrate in kbit/s, by MPEG version (0: MPEG-2/2.5, 1: MPEG-1),
/// layer code minus one (0: layer III, 1: layer II, 2: layer I) and bitrate index.
pub open spec fn halfrate_row(mpeg1: int, layer_idx: int) -> Seq<u8> {
    if mpeg1 == 0 {
        if layer_idx == 0 || layer_idx == 1 {
            seq![0u8, 4, 8, 12, 16, 20, 24, 28, 32, 40, 48, 56, 64, 72, 80]
        } else {
            seq![0u8, 16, 24, 28, 32, 40, 48, 56, 64, 72, 80, 88, 96, 112, 128]
        }
    } else {
        if layer_idx == 0 {
            seq![0u8, 16, 20, 24, 28, 32, 40, 48, 56, 64, 80, 96, 112, 128, 160]
        } else if layer_idx == 1 {
            seq![0u8, 16, 24, 28, 32, 40, 48, 56, 64, 80, 96, 112, 128, 160, 192]
        } else {
            seq![0u8, 16, 32, 48, 64, 80, 96, 112, 128, 144, 160, 176, 192, 208, 224]
        }
    }
}

/// The layer and bitrate fields select an entry of the bitrate table.
pub open spec fn spec_has_bitrate(h: Seq<u8>) -> bool {
    spec_layer(h) != 0 && spec_bitrate(h) != 15
}

/// Bitrate in kbit/s (0 for free format).
pub open spec fn spec_bitrate_kbps(h: Seq<u8>) -> u32 {
    let m: int = if spec_is_mpeg1(h) { 1 } else { 0 };
    (2 * halfrate_row(m, spec_layer(h) - 1)[spec_bitrate(h) as int]) as u32
}

/// The MPEG-1 sample rates, by sample-rate index.
pub open spec fn hz_table() -> Seq<u32> {
    seq![44100u32, 48000, 32000]
}

/// Sample rate in Hz: the MPEG-1 rate, halved for MPEG-2 and halved once more for MPEG-2.5.
pub open spec fn spec_sample_rate_hz(h: Seq<u8>) -> u32 {
    let a: u32 = if spec_is_mpeg1(h) { 0 } else { 1 };
    let b: u32 = if spec_is_not_mpeg25(h) { 0 } else { 1 };
    (hz_table()[spec_sample_rate(h) as int] >> a) >> b
}

/// Samples per channel in one frame.
pub open spec fn spec_frame_samples(h: Seq<u8>) -> u32 {
    if spec_is_layer_1(h) {
        384
    } else if spec_is_frame_576(h) {
        576
    } else {
        1152
    }
}

/// Frame length in bytes computed from bitrate and sample rate, before the free-format fallback.
pub open spec fn spec_raw_frame_bytes(h: Seq<u8>) -> int {
    let fb = spec_frame_samples(h) * spec_bitrate_kbps(h) * 125 / (spec_sample_rate_hz(h) as int);
    if spec_is_layer_1(h) {
        fb - fb % 4
    } else {
        fb
    }
}

/// Frame length in bytes; a header that gives none (free format) takes `free_format_size`.
pub open spec fn spec_frame_bytes(h: Seq<u8>, free_format_size: u32) -> u32 {
    let fb = spec_raw_frame_bytes(h);
    if fb != 0 {
        fb as u32
    } else {
        free_format_size
    }
}

/// Padding bytes at the end of the frame.
pub open spec fn spec_padding(h: Seq<u8>) -> u32 {
    if h[2] & 0x2u8 != 0 {
        if spec_is_layer_1(h) {
            4
        } else {
            1
        }
    } else {
        0
    }
}

/// Index of the sample rate among the nine MPEG-1/2/2.5 rates.
pub open spec fn spec_my_sample_rate(h: Seq<u8>) -> u32 {
    (spec_sample_rate(h) + (((h[1] >> 3u8) & 1u8) + ((h[1] >> 4u8) & 1u8)) * 3) as u32
}


/// How the named predicates of a header relate to its fields.
pub proof fn lemma_field_relations(b1: u8, b2: u8, b3: u8)
    ensures
        (b3 & 0xC0u8 == 0xC0u8) == ((b3 >> 6u8) & 3u8 == 3u8),
        (b3 & 0xE0u8 == 0x60u8) == ((b3 >> 6u8) & 3u8 == 1u8 && b3 & 0x20u8 != 0u8),
        (b2 & 0xF0u8 == 0u8) == (b2 >> 4u8 == 0u8),
        (b1 & 6u8 == 6u8) == ((b1 >> 1u8) & 3u8 == 3u8),
        (b1 & 14u8 == 2u8) == ((b1 >> 1u8) & 3u8 == 1u8 && b1 & 0x8u8 == 0u8),
        (b1 & 0x8u8 != 0u8) == ((b1 >> 3u8) & 1u8 == 1u8),
        (b1 & 0x10u8 != 0u8) == ((b1 >> 4u8) & 1u8 == 1u8),
        (b1 >> 3u8) & 1u8 <= 1u8,
        (b1 >> 4u8) & 1u8 <= 1u8,
        (b1 >> 1u8) & 3u8 <= 3u8,
        (b2 >> 2u8) & 3u8 <= 3u8,
        (b3 >> 6u8) & 3u8 <= 3u8,
        (b3 >> 4u8) & 3u8 <= 3u8,
        b2 >> 4u8 <= 15u8,
        b2 & 0x2u8 == 0u8 || b2 & 0x2u8 == 2u8,
{
    assert(
        ((b3 & 0xC0u8 == 0xC0u8) == ((b3 >> 6u8) & 3u8 == 3u8))
        && ((b3 & 0xE0u8 == 0x60u8) == ((b3 >> 6u8) & 3u8 == 1u8 && b3 & 0x20u8 != 0u8))
        && ((b2 & 0xF0u8 == 0u8) == (b2 >> 4u8 == 0u8))
        && ((b1 & 6u8 == 6u8) == ((b1 >> 1u8) & 3u8 == 3u8))
        && ((b1 & 14u8 == 2u8) == ((b1 >> 1u8) & 3u8 == 1u8 && b1 & 0x8u8 == 0u8))
        && ((b1 & 0x8u8 != 0u8) == ((b1 >> 3u8) & 1u8 == 1u8))
        && ((b1 & 0x10u8 != 0u8) == ((b1 >> 4u8) & 1u8 == 1u8))
        && (b1 >> 3u8) & 1u8 <= 1u8
        && (b1 >> 4u8) & 1u8 <= 1u8
        && (b1 >> 1u8) & 3u8 <= 3u8
        && (b2 >> 2u8) & 3u8 <= 3u8
        && (b3 >> 6u8) & 3u8 <= 3u8
        && (b3 >> 4u8) & 3u8 <= 3u8
        && b2 >> 4u8 <= 15u8
        && (b2 & 0x2u8 == 0u8 || b2 & 0x2u8 == 2u8)
    ) by (bit_vector);
}

impl Hdr {
    /// Takes the first four bytes of `data` as a header.
    pub fn new(data: &[u8]) -> (h: Self)
        requires
            data@.len() >= 4,
        ensures
            h@ == data@.subrange(0, 4),
    {
        let h = Hdr([data[0], data[1], data[2], data[3]]);
        assert(h@ =~= data@.subrange(0, 4));
        h
    }

    /// The channel mode is mono.
    pub fn is_mono(&self) -> (r: bool)
        ensures
            r == (self@[3] & 0xC0u8 == 0xC0u8),
            r == (spec_stereo_mode(self@) == 3),
    {
        proof { lemma_field_relations(self@[1], self@[2], self@[3]); }
        (self.0[3] & 0xC0) == 0xC0
    }

    /// The channel mode is joint stereo with mid/side stereo switched on.
    pub fn is_ms_stereo(&self) -> (r: bool)
        ensures
            r == (self@[3] & 0xE0u8 == 0x60u8),
            r == (spec_stereo_mode(self@) == 1 && self@[3] & 0x20u8 != 0),
    {
        proof { lemma_field_relations(self@[1], self@[2], self@[3]); }
        (self.0[3] & 0xE0) == 0x60
    }

    /// The bitrate index says "free format".
    pub fn is_free_format(&self) -> (r: bool)
        ensures
            r == spec_is_free_format(self@),
            r == (spec_bitrate(self@) == 0),
    {
        proof { lemma_field_relations(self@[1], self@[2], self@[3]); }
        (self.0[2] & 0xF0) == 0
    }

    /// The frame carries a CRC (the protection bit is clear).
    pub fn is_crc(&self) -> (r: bool)
        ensures
            r == (self@[1] & 1u8 == 0),
    {
        self.0[1] & 1 == 0
    }

    /// The padding bit, in place (0 or 2).
    pub fn test_padding(&self) -> (r: u8)
        ensures
            r == self@[2] & 0x2u8,
            r == 0 || r == 2,
    {
        proof { lemma_field_relations(self@[1], self@[2], self@[3]); }
        self.0[2] & 0x2
    }

    /// The MPEG-1 bit, in place (0 or 8).
    pub fn test_mpeg1(&self) -> (r: u8)
        ensures
            r == self@[1] & 0x8u8,
            (r != 0) == spec_is_mpeg1(self@),
    {
        self.0[1] & 0x8
    }

    /// The "not MPEG-2.5" bit, in place (0 or 16).
    pub fn test_not_mpeg25(&self) -> (r: u8)
        ensures
            r == self@[1] & 0x10u8,
            (r != 0) == spec_is_not_mpeg25(self@),
    {
        self.0[1] & 0x10
    }

    /// The intensity-stereo bit of the mode extension, in place (0 or 16).
    pub fn test_i_stereo(&self) -> (r: u8)
        ensures
            r == self@[3] & 0x10u8,
    {
        self.0[3] & 0x10
    }

    /// The mid/side-stereo bit of the mode extension, in place (0 or 32).
    pub fn test_ms_stereo(&self) -> (r: u8)
        ensures
            r == self@[3] & 0x20u8,
    {
        self.0[3] & 0x20
    }

    /// The channel mode field.
    pub fn get_stereo_mode(&self) -> (r: u8)
        ensures
            r == spec_stereo_mode(self@),
            r < 4,
    {
        proof { lemma_field_relations(self@[1], self@[2], self@[3]); }
        (self.0[3] >> 6u8) & 3u8
    }

    /// The mode extension field.
    pub fn get_stereo_mode_ext(&self) -> (r: u8)
        ensures
            r == spec_stereo_mode_ext(self@),
            r < 4,
    {
        proof { lemma_field_relations(self@[1], self@[2], self@[3]); }
        (self.0[3] >> 4u8) & 3u8
    }

    /// The layer field.
    pub fn get_layer(&self) -> (r: u8)
        ensures
            r == spec_layer(self@),
            r < 4,
    {
        proof { lemma_field_relations(self@[1], self@[2], self@[3]); }
        (self.0[1] >> 1u8) & 3u8
    }

    /// The bitrate index.
    pub fn get_bitrate(&self) -> (r: u8)
        ensures
            r == spec_bitrate(self@),
            r < 16,
    {
        proof { lemma_field_relations(self@[1], self@[2], self@[3]); }
        self.0[2] >> 4u8
    }

    /// The sample-rate index.
    pub fn get_sample_rate(&self) -> (r: u8)
        ensures
            r == spec_sample_rate(self@),
            r < 4,
    {
        proof { lemma_field_relations(self@[1], self@[2], self@[3]); }
        (self.0[2] >> 2u8) & 3u8
    }

    /// The sample-rate index offset by 3 for MPEG-2 and by 6 for MPEG-1 (see the note on the two bits).
    pub fn get_my_sample_rate(&self) -> (r: u32)
        ensures
            r == spec_my_sample_rate(self@),
            r <= 9,
    {
        proof { lemma_field_relations(self@[1], self@[2], self@[3]); }
        let magic1 = (self.0[1] >> 3u8) & 1u8;
        let magic2 = (self.0[1] >> 4u8) & 1u8;
        let magic3 = (magic1 + magic2) as u32 * 3;
        self.get_sample_rate() as u32 + magic3
    }

    /// Layer III frame of MPEG-2 or MPEG-2.5.
    pub fn is_frame_576(&self) -> (r: bool)
        ensures
            r == spec_is_frame_576(self@),
            r == (spec_layer(self@) == 1 && !spec_is_mpeg1(self@)),
    {
        proof { lemma_field_relations(self@[1], self@[2], self@[3]); }
        (self.0[1] & 14) == 2
    }

    /// Layer I frame.
    pub fn is_layer_1(&self) -> (r: bool)
        ensures
            r == spec_is_layer_1(self@),
            r == (spec_layer(self@) == 3),
    {
        proof { lemma_field_relations(self@[1], self@[2], self@[3]); }
        (self.0[1] & 6) == 6
    }

    /// The header passes the sync, version, layer, bitrate and sample-rate checks.
    pub fn is_valid(&self) -> (r: bool)
        ensures
            r == spec_is_valid(self@),
    {
        let h = self;
        h.0[0] == 0xff && (h.0[1] & 0xF0 == 0xf0 || h.0[1] & 0xFE == 0xe2) && h.get_layer() != 0
            && h.get_bitrate() != 15 && h.get_sample_rate() != 3
    }

    /// Bitrate in kbit/s from the bitrate table; 0 for free format.
    pub fn bitrate_kbps(&self) -> (r: u32)
        requires
            spec_has_bitrate(self@),
        ensures
            r == spec_bitrate_kbps(self@),
            r <= 448,
    {
        let halfrate: [[[u8; 15]; 3]; 2] = [
            [
                [0, 4, 8, 12, 16, 20, 24, 28, 32, 40, 48, 56, 64, 72, 80],
                [0, 4, 8, 12, 16, 20, 24, 28, 32, 40, 48, 56, 64, 72, 80],
                [0, 16, 24, 28, 32, 40, 48, 56, 64, 72, 80, 88, 96, 112, 128],
            ],
            [
                [0, 16, 20, 24, 28, 32, 40, 48, 56, 64, 80, 96, 112, 128, 160],
                [0, 16, 24, 28, 32, 40, 48, 56, 64, 80, 96, 112, 128, 160, 192],
                [0, 16, 32, 48, 64, 80, 96, 112, 128, 144, 160, 176, 192, 208, 224],
            ],
        ];
        let h = self;
        let i1: usize = if h.test_mpeg1() != 0 { 1 } else { 0 };
        let i2 = (h.get_layer() - 1) as usize;
        let i3 = h.get_bitrate() as usize;
        proof {
            assert(halfrate[0][0]@ =~= halfrate_row(0, 0));
            assert(halfrate[0][1]@ =~= halfrate_row(0, 1));
            assert(halfrate[0][2]@ =~= halfrate_row(0, 2));
            assert(halfrate[1][0]@ =~= halfrate_row(1, 0));
            assert(halfrate[1][1]@ =~= halfrate_row(1, 1));
            assert(halfrate[1][2]@ =~= halfrate_row(1, 2));
            assert(halfrate[i1 as int][i2 as int]@ == halfrate_row(i1 as int, i2 as int));
            assert(forall|k: int| 0 <= k < 15 ==> #[trigger] halfrate_row(i1 as int, i2 as int)[k] <= 224);
        }
        2 * halfrate[i1][i2][i3] as u32
    }

    /// Sample rate in Hz.
    pub fn sample_rate_hz(&self) -> (r: u32)
        requires
            spec_sample_rate(self@) != 3,
        ensures
            r == spec_sample_rate_hz(self@),
            8000 <= r <= 48000,
    {
        let hz: [u32; 3] = [44100, 48000, 32000];
        proof { assert(hz@ =~= hz_table()); }
        let base = hz[self.get_sample_rate() as usize];
        let a: u32 = if self.test_mpeg1() != 0 { 0 } else { 1 };
        let b: u32 = if self.test_not_mpeg25() != 0 { 0 } else { 1 };
        proof {
            assert(32000 <= base <= 48000 && a <= 1 && b <= 1 ==> 8000 <= (base >> a) >> b <= 48000)
                by (bit_vector);
        }
        base >> a >> b
    }

    /// Samples per channel in one frame.
    pub fn frame_samples(&self) -> (r: u32)
        ensures
            r == spec_frame_samples(self@),
    {
        if self.is_layer_1() {
            384
        } else {
            proof { assert(1152u32 >> 1u32 == 576u32 && 1152u32 >> 0u32 == 1152u32) by (bit_vector); }
            1152 >> self.is_frame_576() as u32
        }
    }

    /// Frame length in bytes (without padding); `free_format_size` when the header gives none.
    pub fn frame_bytes(&self, free_format_size: u32) -> (r: u32)
        requires
            spec_has_bitrate(self@),
            spec_sample_rate(self@) != 3,
        ensures
            r == spec_frame_bytes(self@, free_format_size),
            spec_raw_frame_bytes(self@) != 0 ==> r == spec_raw_frame_bytes(self@),
            spec_raw_frame_bytes(self@) == 0 ==> r == free_format_size,
            spec_is_layer_1(self@) && spec_raw_frame_bytes(self@) != 0 ==> r % 4 == 0,
    {
        let fs = self.frame_samples();
        let kbps = self.bitrate_kbps();
        let hz = self.sample_rate_hz();
        assert(fs * kbps <= 1152 * 448) by (nonlinear_arith)
            requires
                fs <= 1152,
                kbps <= 448,
        ;
        let mut frame_bytes = fs * kbps * 125 / hz;
        if self.is_layer_1() {
            proof {
                let x = frame_bytes;
                assert(x & !3u32 == x - x % 4) by (bit_vector);
            }
            frame_bytes &= !3;
        }
        if frame_bytes != 0 {
            frame_bytes
        } else {
            free_format_size
        }
    }

    /// Padding bytes at the end of the frame: a slot of 4 bytes in layer I, 1 byte otherwise.
    pub fn padding(&self) -> (r: u32)
        ensures
            r == spec_padding(self@),
            r == 0 || r == 1 || r == 4,
    {
        if self.test_padding() != 0 {
            if self.is_layer_1() {
                4
            } else {
                1
            }
        } else {
            0
        }
    }

    /// `other` is valid and may follow `self` in the same stream.
    pub fn compare(&self, other: &Self) -> (r: bool)
        ensures
            r == spec_compare(self@, other@),
    {
        let h1 = self;
        let h2 = other;
        h2.is_valid() && (h1.0[1] ^ h2.0[1]) & 0xFE == 0 && (h1.0[2] ^ h2.0[2]) & 0x0C == 0
            && !(h1.is_free_format() ^ h2.is_free_format())
    }
}


impl std::ops::Index<usize> for Hdr {
    type Output = u8;

    fn index(&self, i: usize) -> (r: &u8)
        ensures
            *r == self@[i as int],
    {
        &self.0[i]
    }
}

impl vstd::std_specs::core::IndexSpecImpl<usize> for Hdr {
    open spec fn index_req(&self, index: &usize) -> bool {
        *index < 4
    }
}

/// How XOR under a mask relates the bits of two bytes.
proof fn lemma_masked_xor(a: u8, b: u8, c: u8)
    ensures
        (a ^ a) & 0xFEu8 == 0,
        (a ^ a) & 0x0Cu8 == 0,
        ((a ^ b) & 0xFEu8 == 0) == ((b ^ a) & 0xFEu8 == 0),
        ((a ^ b) & 0x0Cu8 == 0) == ((b ^ a) & 0x0Cu8 == 0),
        (a ^ b) & 0xFEu8 == 0 && (b ^ c) & 0xFEu8 == 0 ==> (a ^ c) & 0xFEu8 == 0,
        (a ^ b) & 0x0Cu8 == 0 && (b ^ c) & 0x0Cu8 == 0 ==> (a ^ c) & 0x0Cu8 == 0,
        (a ^ b) & 0xFEu8 == 0 ==> {
            &&& (a >> 1u8) & 3u8 == (b >> 1u8) & 3u8
            &&& a & 0x8u8 == b & 0x8u8
            &&& a & 0x10u8 == b & 0x10u8
            &&& a & 6u8 == b & 6u8
            &&& a & 14u8 == b & 14u8
        },
        (a ^ b) & 0x0Cu8 == 0 ==> (a >> 2u8) & 3u8 == (b >> 2u8) & 3u8,
{
    assert(
        (a ^ a) & 0xFEu8 == 0
        && (a ^ a) & 0x0Cu8 == 0
        && (((a ^ b) & 0xFEu8 == 0) == ((b ^ a) & 0xFEu8 == 0))
        && (((a ^ b) & 0x0Cu8 == 0) == ((b ^ a) & 0x0Cu8 == 0))
        && ((a ^ b) & 0xFEu8 == 0 && (b ^ c) & 0xFEu8 == 0 ==> (a ^ c) & 0xFEu8 == 0)
        && ((a ^ b) & 0x0Cu8 == 0 && (b ^ c) & 0x0Cu8 == 0 ==> (a ^ c) & 0x0Cu8 == 0)
        && ((a ^ b) & 0xFEu8 == 0 ==> (a >> 1u8) & 3u8 == (b >> 1u8) & 3u8 && a & 0x8u8 == b & 0x8u8
            && a & 0x10u8 == b & 0x10u8 && a & 6u8 == b & 6u8 && a & 14u8 == b & 14u8)
        && ((a ^ b) & 0x0Cu8 == 0 ==> (a >> 2u8) & 3u8 == (b >> 2u8) & 3u8)
    ) by (bit_vector);
}

/// A valid header selects an entry of the bitrate table and of the sample-rate
/// table: its bitrate is at most 448 kbit/s, and it is 0 exactly for free format;
/// its sample rate lies between 8000 and 48000 Hz.
pub proof fn lemma_valid_header_rates(h: Seq<u8>)
    requires
        h.len() == 4,
        spec_is_valid(h),
    ensures
        spec_has_bitrate(h),
        spec_sample_rate(h) < 3,
        spec_bitrate_kbps(h) <= 448,
        (spec_bitrate_kbps(h) == 0) == spec_is_free_format(h),
        8000 <= spec_sample_rate_hz(h) <= 48000,
        spec_my_sample_rate(h) < 9,
{
    lemma_field_relations(h[1], h[2], h[3]);
    let b2 = h[2];
    assert((b2 >> 2u8) & 3u8 != 3u8 ==> (b2 >> 2u8) & 3u8 < 3u8) by (bit_vector);
    let m: int = if spec_is_mpeg1(h) { 1 } else { 0 };
    let row = halfrate_row(m, spec_layer(h) - 1);
    assert(forall|k: int| 0 <= k < 15 ==> #[trigger] row[k] <= 224 && (row[k] == 0) == (k == 0));
    let a: u32 = if spec_is_mpeg1(h) { 0 } else { 1 };
    let b: u32 = if spec_is_not_mpeg25(h) { 0 } else { 1 };
    let base = hz_table()[spec_sample_rate(h) as int];
    assert(32000 <= base <= 48000 && a <= 1 && b <= 1 ==> 8000 <= (base >> a) >> b <= 48000)
        by (bit_vector);
}

/// Every valid header may follow itself.
pub proof fn lemma_compare_reflexive(h: Seq<u8>)
    requires
        h.len() == 4,
        spec_is_valid(h),
    ensures
        spec_compare(h, h),
{
    lemma_masked_xor(h[1], h[1], h[1]);
    lemma_masked_xor(h[2], h[2], h[2]);
}

/// Between two valid headers, "may follow" goes both ways.
pub proof fn lemma_compare_symmetric(h1: Seq<u8>, h2: Seq<u8>)
    requires
        h1.len() == 4,
        h2.len() == 4,
        spec_is_valid(h1),
        spec_compare(h1, h2),
    ensures
        spec_compare(h2, h1),
{
    lemma_masked_xor(h1[1], h2[1], h2[1]);
    lemma_masked_xor(h1[2], h2[2], h2[2]);
}

/// "May follow" is transitive.
pub proof fn lemma_compare_transitive(h1: Seq<u8>, h2: Seq<u8>, h3: Seq<u8>)
    requires
        h1.len() == 4,
        h2.len() == 4,
        h3.len() == 4,
        spec_compare(h1, h2),
        spec_compare(h2, h3),
    ensures
        spec_compare(h1, h3),
{
    lemma_masked_xor(h1[1], h2[1], h3[1]);
    lemma_masked_xor(h1[2], h2[2], h3[2]);
}

/// Headers that may follow each other share MPEG version, layer, sample rate,
/// frame size in samples and free-format status.
pub proof fn lemma_compare_same_stream_params(h1: Seq<u8>, h2: Seq<u8>)
    requires
        h1.len() == 4,
        h2.len() == 4,
        spec_compare(h1, h2),
    ensures
        spec_layer(h1) == spec_layer(h2),
        spec_is_mpeg1(h1) == spec_is_mpeg1(h2),
        spec_is_not_mpeg25(h1) == spec_is_not_mpeg25(h2),
        spec_sample_rate(h1) == spec_sample_rate(h2),
        spec_sample_rate_hz(h1) == spec_sample_rate_hz(h2),
        spec_frame_samples(h1) == spec_frame_samples(h2),
        spec_is_free_format(h1) == spec_is_free_format(h2),
{
    lemma_masked_xor(h1[1], h2[1], h2[1]);
    lemma_masked_xor(h1[2], h2[2], h2[2]);
}


/// The bitrate table is the standard one. For bitrate index `b` from 1 to 14:
/// MPEG-1 layer I gives `32 * b` kbit/s; MPEG-1 layer II 32, 48, 56, 64, 80, 96,
/// 112, 128, 160, 192, 224, 256, 320, 384; MPEG-1 layer III 32, 40, 48, 56, 64,
/// 80, 96, 112, 128, 160, 192, 224, 256, 320; MPEG-2 and MPEG-2.5 layer I 32, 48,
/// 56, 64, 80, 96, 112, 128, 144, 160, 176, 192, 224, 256; MPEG-2 and MPEG-2.5
/// layers II and III 8, 16, 24, 32, 40, 48, 56, 64, 80, 96, 112, 128, 144, 160.
/// Index 0 (free format) gives 0.
pub proof fn lemma_bitrate_table(h: Seq<u8>)
    requires
        h.len() == 4,
        (h[1] >> 1u8) & 3u8 != 0,
        h[2] >> 4u8 != 15,
    ensures
        ({
            let mpeg1 = h[1] & 8u8 != 0;
            let layer = (h[1] >> 1u8) & 3u8;
            let b = (h[2] >> 4u8) as int;
            let kbps = spec_bitrate_kbps(h) as int;
            &&& b == 0 ==> kbps == 0
            &&& 1 <= b <= 14 && mpeg1 && layer == 3 ==> kbps == 32 * b
            &&& 1 <= b <= 14 && mpeg1 && layer == 2 ==> kbps == seq![
                32int, 48, 56, 64, 80, 96, 112, 128, 160, 192, 224, 256, 320, 384][b - 1]
            &&& 1 <= b <= 14 && mpeg1 && layer == 1 ==> kbps == seq![
                32int, 40, 48, 56, 64, 80, 96, 112, 128, 160, 192, 224, 256, 320][b - 1]
            &&& 1 <= b <= 14 && !mpeg1 && layer == 3 ==> kbps == seq![
                32int, 48, 56, 64, 80, 96, 112, 128, 144, 160, 176, 192, 224, 256][b - 1]
            &&& 1 <= b <= 14 && !mpeg1 && layer != 3 ==> kbps == seq![
                8int, 16, 24, 32, 40, 48, 56, 64, 80, 96, 112, 128, 144, 160][b - 1]
        }),
{
    lemma_field_relations(h[1], h[2], h[3]);
    let b = (h[2] >> 4u8) as int;
    assert(0 <= b < 15);
    let m: int = if spec_is_mpeg1(h) { 1 } else { 0 };
    assert(spec_is_mpeg1(h) == (h[1] & 8u8 != 0));
    let row = halfrate_row(m, spec_layer(h) - 1);
    if b == 0 {
    } else if b == 1 {
    } else if b == 2 {
    } else if b == 3 {
    } else if b == 4 {
    } else if b == 5 {
    } else if b == 6 {
    } else if b == 7 {
    } else if b == 8 {
    } else if b == 9 {
    } else if b == 10 {
    } else if b == 11 {
    } else if b == 12 {
    } else if b == 13 {
    } else {
    }
}

/// Within one MPEG version and layer the bitrate grows strictly with the bitrate
/// index: no two indices give the same rate.
pub proof fn lemma_bitrate_increasing(h1: Seq<u8>, h2: Seq<u8>)
    requires
        h1.len() == 4,
        h2.len() == 4,
        h1[1] & 0x0Eu8 == h2[1] & 0x0Eu8,
        (h1[1] >> 1u8) & 3u8 != 0,
        h1[2] >> 4u8 < h2[2] >> 4u8,
        h2[2] >> 4u8 != 15,
    ensures
        spec_bitrate_kbps(h1) < spec_bitrate_kbps(h2),
{
    let a = h1[1];
    let c = h2[1];
    let d = h2[2];
    assert(a & 0x0Eu8 == c & 0x0Eu8 ==> (a & 8u8 != 0) == (c & 8u8 != 0) && (a >> 1u8) & 3u8 == (c >> 1u8) & 3u8)
        by (bit_vector);
    assert(d >> 4u8 <= 15) by (bit_vector);
    lemma_field_relations(h1[1], h1[2], h1[3]);
    lemma_field_relations(h2[1], h2[2], h2[3]);
    let m: int = if spec_is_mpeg1(h1) { 1 } else { 0 };
    let row = halfrate_row(m, spec_layer(h1) - 1);
    assert(forall|k: int| 0 <= k < 14 ==> #[trigger] row[k] < row[k + 1]);
    lemma_row_increasing(row, spec_bitrate(h1) as int, spec_bitrate(h2) as int);
}

proof fn lemma_row_increasing(row: Seq<u8>, i: int, j: int)
    requires
        row.len() == 15,
        forall|k: int| 0 <= k < 14 ==> #[trigger] row[k] < row[k + 1],
        0 <= i < j < 15,
    ensures
        row[i] < row[j],
    decreases j - i,
{
    assert(row[j - 1] < row[j]);
    if i < j - 1 {
        lemma_row_increasing(row, i, j - 1);
    }
}

/// Samples per frame: 384 in layer I, 1152 in layer II whatever the version,
/// 1152 in MPEG-1 layer III and 576 in MPEG-2 and MPEG-2.5 layer III. Only in
/// layer III does the version matter.
pub proof fn lemma_frame_samples_by_layer(h: Seq<u8>)
    requires
        h.len() == 4,
    ensures
        (h[1] >> 1u8) & 3u8 == 3 ==> spec_frame_samples(h) == 384,
        (h[1] >> 1u8) & 3u8 == 2 ==> spec_frame_samples(h) == 1152,
        (h[1] >> 1u8) & 3u8 == 1 && h[1] & 8u8 != 0 ==> spec_frame_samples(h) == 1152,
        (h[1] >> 1u8) & 3u8 == 1 && h[1] & 8u8 == 0 ==> spec_frame_samples(h) == 576,
{
    lemma_field_relations(h[1], h[2], h[3]);
}

/// A header is valid exactly when byte 0 is all ones, byte 1 carries the
/// MPEG-1/MPEG-2 sync (top four bits set) or is MPEG-2.5 (0xE2 or 0xE3), the
/// layer code is any of 1, 2 or 3, the bitrate index is not 15 and the
/// sample-rate index is not 3.
pub proof fn lemma_valid_iff(h: Seq<u8>)
    requires
        h.len() == 4,
    ensures
        spec_is_valid(h) == (h[0] == 0xff && (h[1] >= 0xf0 || h[1] == 0xe2 || h[1] == 0xe3) && (h[1] >> 1u8)
            & 3u8 != 0 && h[2] < 0xf0 && (h[2] >> 2u8) & 3u8 != 3),
{
    let a = h[1];
    let b = h[2];
    assert((a & 0xF0u8 == 0xf0u8) == (a >= 0xf0) && (a & 0xFEu8 == 0xe2u8) == (a == 0xe2 || a == 0xe3))
        by (bit_vector);
    assert((b >> 4u8 != 15) == (b < 0xf0)) by (bit_vector);
}

/// Validity does not depend on byte 3, on the protection bit or on the padding
/// and private bits: headers that differ only there are both valid or both not.
pub proof fn lemma_valid_ignores_flags(h1: Seq<u8>, h2: Seq<u8>)
    requires
        h1.len() == 4,
        h2.len() == 4,
        h1[0] == h2[0],
        h1[1] & 0xFEu8 == h2[1] & 0xFEu8,
        h1[2] & 0xFCu8 == h2[2] & 0xFCu8,
    ensures
        spec_is_valid(h1) == spec_is_valid(h2),
{
    lemma_valid_iff(h1);
    lemma_valid_iff(h2);
    let a = h1[1];
    let c = h2[1];
    let b = h1[2];
    let d = h2[2];
    assert(a & 0xFEu8 == c & 0xFEu8 ==> (a >= 0xf0) == (c >= 0xf0) && (a == 0xe2 || a == 0xe3) == (c == 0xe2
        || c == 0xe3) && (a >> 1u8) & 3u8 == (c >> 1u8) & 3u8) by (bit_vector);
    assert(b & 0xFCu8 == d & 0xFCu8 ==> (b < 0xf0) == (d < 0xf0) && (b >> 2u8) & 3u8 == (d >> 2u8) & 3u8)
        by (bit_vector);
}

/// The sample rates of the standard: MPEG-1 44100, 48000 and 32000 Hz for
/// sample-rate index 0, 1 and 2; MPEG-2 half of those, MPEG-2.5 a quarter.
pub proof fn lemma_sample_rate_table(h: Seq<u8>)
    requires
        h.len() == 4,
        (h[2] >> 2u8) & 3u8 != 3,
    ensures
        ({
            let base = seq![44100int, 48000, 32000][((h[2] >> 2u8) & 3u8) as int];
            let hz = spec_sample_rate_hz(h) as int;
            &&& h[1] & 0x18u8 == 0x18u8 ==> hz == base
            &&& h[1] & 0x18u8 == 0x10u8 ==> hz == base / 2
            &&& h[1] & 0x18u8 == 0 ==> hz == base / 4
        }),
{
    lemma_field_relations(h[1], h[2], h[3]);
    let a = h[1];
    assert((a & 0x18u8 == 0x18u8 ==> a & 8u8 != 0 && a & 0x10u8 != 0) && (a & 0x18u8 == 0x10u8 ==> a & 8u8 == 0
        && a & 0x10u8 != 0) && (a & 0x18u8 == 0 ==> a & 8u8 == 0 && a & 0x10u8 == 0)) by (bit_vector);
    let b2 = h[2];
    assert((b2 >> 2u8) & 3u8 != 3u8 ==> (b2 >> 2u8) & 3u8 < 3u8) by (bit_vector);
    let hz = hz_table();
    assert(hz[0] == 44100 && hz[1] == 48000 && hz[2] == 32000);
    let b0 = 44100u32;
    let b1 = 48000u32;
    let b2 = 32000u32;
    assert(b0 >> 0u32 >> 0u32 == 44100 && b0 >> 1u32 >> 0u32 == 22050 && b0 >> 1u32 >> 1u32 == 11025 && b1 >> 0u32
        >> 0u32 == 48000 && b1 >> 1u32 >> 0u32 == 24000 && b1 >> 1u32 >> 1u32 == 12000 && b2 >> 0u32 >> 0u32
        == 32000 && b2 >> 1u32 >> 0u32 == 16000 && b2 >> 1u32 >> 1u32 == 8000) by (bit_vector)
        requires
            b0 == 44100u32,
            b1 == 48000u32,
            b2 == 32000u32,
    ;
}

/// The frame length in bytes is the frame's duration times its bitrate: for a
/// header with a bitrate (not free format), `samples * kbps * 1000 / 8` bits per
/// second over the sample rate, rounded down; in layer I rounded down to a whole
/// 4-byte slot.
pub proof fn lemma_frame_bytes_from_rates(h: Seq<u8>)
    requires
        h.len() == 4,
        spec_has_bitrate(h),
        spec_sample_rate(h) != 3,
        spec_bitrate_kbps(h) != 0,
    ensures
        ({
            let bits_x_hz = spec_frame_samples(h) * spec_bitrate_kbps(h) * 125;
            let hz = spec_sample_rate_hz(h) as int;
            let fb = spec_raw_frame_bytes(h);
            let slot: int = if (h[1] >> 1u8) & 3u8 == 3 { 4 } else { 1 };
            &&& fb % slot == 0
            &&& fb * hz <= bits_x_hz < (fb + slot) * hz
        }),
{
    lemma_field_relations(h[1], h[2], h[3]);
    lemma_valid_rates_in_range(h);
    let x = spec_frame_samples(h) * spec_bitrate_kbps(h) * 125;
    let hz = spec_sample_rate_hz(h) as int;
    let q = x / hz;
    assert(q * hz <= x < (q + 1) * hz) by (nonlinear_arith)
        requires
            hz > 0,
            q == x / hz,
            x >= 0,
    ;
    if spec_is_layer_1(h) {
        let fb = q - q % 4;
        assert(fb * hz <= q * hz && (q + 1) * hz <= (fb + 4) * hz) by (nonlinear_arith)
            requires
                hz > 0,
                fb == q - q % 4,
                q >= 0,
        ;
    }
}

/// A header with a sample-rate field lies between 8000 and 48000 Hz.
proof fn lemma_valid_rates_in_range(h: Seq<u8>)
    requires
        h.len() == 4,
        spec_sample_rate(h) != 3,
    ensures
        8000 <= spec_sample_rate_hz(h) <= 48000,
{
    let b2 = h[2];
    assert((b2 >> 2u8) & 3u8 != 3u8 ==> (b2 >> 2u8) & 3u8 < 3u8) by (bit_vector);
    let a: u32 = if spec_is_mpeg1(h) { 0 } else { 1 };
    let b: u32 = if spec_is_not_mpeg25(h) { 0 } else { 1 };
    let base = hz_table()[spec_sample_rate(h) as int];
    assert(32000 <= base <= 48000 && a <= 1 && b <= 1 ==> 8000 <= (base >> a) >> b <= 48000) by (bit_vector);
}

/// The sample-rate number that selects the band tables counts the three rates of
/// MPEG-2.5 first, then those of MPEG-2, then those of MPEG-1.
pub proof fn lemma_my_sample_rate(h: Seq<u8>)
    requires
        h.len() == 4,
    ensures
        ({
            let sr = ((h[2] >> 2u8) & 3u8) as int;
            let v = h[1] & 0x18u8;
            &&& v == 0x18u8 ==> spec_my_sample_rate(h) == sr + 6
            &&& v == 0x10u8 ==> spec_my_sample_rate(h) == sr + 3
            &&& v == 0 ==> spec_my_sample_rate(h) == sr
        }),
{
    let a = h[1];
    assert((a & 0x18u8 == 0x18u8 ==> (a >> 3u8) & 1u8 == 1 && (a >> 4u8) & 1u8 == 1) && (a & 0x18u8 == 0x10u8
        ==> (a >> 3u8) & 1u8 == 0 && (a >> 4u8) & 1u8 == 1) && (a & 0x18u8 == 0 ==> (a >> 3u8) & 1u8 == 0 && (a
        >> 4u8) & 1u8 == 0)) by (bit_vector);
}

/// Padding adds one 4-byte slot in layer I and one byte in layers II and III,
/// when the padding bit (bit 1 of byte 2) is set, and nothing otherwise.
pub proof fn lemma_padding_by_layer(h: Seq<u8>)
    requires
        h.len() == 4,
    ensures
        (h[2] >> 1u8) & 1u8 == 0 ==> spec_padding(h) == 0,
        (h[2] >> 1u8) & 1u8 == 1 && (h[1] >> 1u8) & 3u8 == 3 ==> spec_padding(h) == 4,
        (h[2] >> 1u8) & 1u8 == 1 && (h[1] >> 1u8) & 3u8 != 3 ==> spec_padding(h) == 1,
{
    lemma_field_relations(h[1], h[2], h[3]);
    let b = h[2];
    assert(((b >> 1u8) & 1u8 == 0) == (b & 2u8 == 0)) by (bit_vector);
}

} // verus!
