//! Scale-factor band tables of layer III, one row per sample-rate index.
use vstd::prelude::*;

verus! {

/// Which kind of block a band table describes.
#[derive(Clone, Copy, Debug, PartialEq, Eq, Structural)]
pub enum SfbKind {
    /// Long blocks.
    Long,
    /// Short blocks.
    Short,
    /// Mixed blocks: long bands at the low end, short ones above.
    Mixed,
}

/// A row of the scale-factor band tables: the block kind and the sample-rate index (0 to 7).
#[derive(Clone, Copy, Debug, PartialEq, Eq, Structural)]
pub struct SfbTable {
    pub kind: SfbKind,
    pub sr_idx: u8,
}
/// The widths of the long-block scale-factor bands, for sample-rate index `sr`.
pub open spec fn long_widths(sr: int) -> Seq<u8> {
    if sr == 0 {
        seq![6u8, 6, 6, 6, 6, 6, 8, 10, 12, 14, 16, 20, 24, 28, 32, 38, 46, 52, 60, 68, 58, 54, 0]
    } else if sr == 1 {
        seq![12u8, 12, 12, 12, 12, 12, 16, 20, 24, 28, 32, 40, 48, 56, 64, 76, 90, 2, 2, 2, 2, 2, 0]
    } else if sr == 2 {
        seq![6u8, 6, 6, 6, 6, 6, 8, 10, 12, 14, 16, 20, 24, 28, 32, 38, 46, 52, 60, 68, 58, 54, 0]
    } else if sr == 3 {
        seq![6u8, 6, 6, 6, 6, 6, 8, 10, 12, 14, 16, 18, 22, 26, 32, 38, 46, 54, 62, 70, 76, 36, 0]
    } else if sr == 4 {
        seq![6u8, 6, 6, 6, 6, 6, 8, 10, 12, 14, 16, 20, 24, 28, 32, 38, 46, 52, 60, 68, 58, 54, 0]
    } else if sr == 5 {
        seq![4u8, 4, 4, 4, 4, 4, 6, 6, 8, 8, 10, 12, 16, 20, 24, 28, 34, 42, 50, 54, 76, 158, 0]
    } else if sr == 6 {
        seq![4u8, 4, 4, 4, 4, 4, 6, 6, 6, 8, 10, 12, 16, 18, 22, 28, 34, 40, 46, 54, 54, 192, 0]
    } else {
        seq![4u8, 4, 4, 4, 4, 4, 6, 6, 8, 10, 12, 16, 20, 24, 30, 38, 46, 56, 68, 84, 102, 26, 0]
    }
}
/// The widths of the short-block scale-factor bands, three windows each, for sample-rate index `sr`.
pub open spec fn short_widths(sr: int) -> Seq<u8> {
    if sr == 0 {
        seq![4u8, 4, 4, 4, 4, 4, 4, 4, 4, 6, 6, 6, 8, 8, 8, 10, 10, 10, 12, 12, 12, 14, 14, 14, 18, 18, 18, 24, 24, 24, 30, 30, 30, 40, 40, 40, 18, 18, 18, 0]
    } else if sr == 1 {
        seq![8u8, 8, 8, 8, 8, 8, 8, 8, 8, 12, 12, 12, 16, 16, 16, 20, 20, 20, 24, 24, 24, 28, 28, 28, 36, 36, 36, 2, 2, 2, 2, 2, 2, 2, 2, 2, 26, 26, 26, 0]
    } else if sr == 2 {
        seq![4u8, 4, 4, 4, 4, 4, 4, 4, 4, 6, 6, 6, 6, 6, 6, 8, 8, 8, 10, 10, 10, 14, 14, 14, 18, 18, 18, 26, 26, 26, 32, 32, 32, 42, 42, 42, 18, 18, 18, 0]
    } else if sr == 3 {
        seq![4u8, 4, 4, 4, 4, 4, 4, 4, 4, 6, 6, 6, 8, 8, 8, 10, 10, 10, 12, 12, 12, 14, 14, 14, 18, 18, 18, 24, 24, 24, 32, 32, 32, 44, 44, 44, 12, 12, 12, 0]
    } else if sr == 4 {
        seq![4u8, 4, 4, 4, 4, 4, 4, 4, 4, 6, 6, 6, 8, 8, 8, 10, 10, 10, 12, 12, 12, 14, 14, 14, 18, 18, 18, 24, 24, 24, 30, 30, 30, 40, 40, 40, 18, 18, 18, 0]
    } else if sr == 5 {
        seq![4u8, 4, 4, 4, 4, 4, 4, 4, 4, 4, 4, 4, 6, 6, 6, 8, 8, 8, 10, 10, 10, 12, 12, 12, 14, 14, 14, 18, 18, 18, 22, 22, 22, 30, 30, 30, 56, 56, 56, 0]
    } else if sr == 6 {
        seq![4u8, 4, 4, 4, 4, 4, 4, 4, 4, 4, 4, 4, 6, 6, 6, 6, 6, 6, 10, 10, 10, 12, 12, 12, 14, 14, 14, 16, 16, 16, 20, 20, 20, 26, 26, 26, 66, 66, 66, 0]
    } else {
        seq![4u8, 4, 4, 4, 4, 4, 4, 4, 4, 4, 4, 4, 6, 6, 6, 8, 8, 8, 12, 12, 12, 16, 16, 16, 20, 20, 20, 26, 26, 26, 34, 34, 34, 42, 42, 42, 12, 12, 12, 0]
    }
}
/// The widths of the bands of a mixed block: long bands first, then short ones, for sample-rate index `sr`.
pub open spec fn mixed_widths(sr: int) -> Seq<u8> {
    if sr == 0 {
        seq![6u8, 6, 6, 6, 6, 6, 6, 6, 6, 8, 8, 8, 10, 10, 10, 12, 12, 12, 14, 14, 14, 18, 18, 18, 24, 24, 24, 30, 30, 30, 40, 40, 40, 18, 18, 18, 0, 0, 0, 0]
    } else if sr == 1 {
        seq![12u8, 12, 12, 4, 4, 4, 8, 8, 8, 12, 12, 12, 16, 16, 16, 20, 20, 20, 24, 24, 24, 28, 28, 28, 36, 36, 36, 2, 2, 2, 2, 2, 2, 2, 2, 2, 26, 26, 26, 0]
    } else if sr == 2 {
        seq![6u8, 6, 6, 6, 6, 6, 6, 6, 6, 6, 6, 6, 8, 8, 8, 10, 10, 10, 14, 14, 14, 18, 18, 18, 26, 26, 26, 32, 32, 32, 42, 42, 42, 18, 18, 18, 0, 0, 0, 0]
    } else if sr == 3 {
        seq![6u8, 6, 6, 6, 6, 6, 6, 6, 6, 8, 8, 8, 10, 10, 10, 12, 12, 12, 14, 14, 14, 18, 18, 18, 24, 24, 24, 32, 32, 32, 44, 44, 44, 12, 12, 12, 0, 0, 0, 0]
    } else if sr == 4 {
        seq![6u8, 6, 6, 6, 6, 6, 6, 6, 6, 8, 8, 8, 10, 10, 10, 12, 12, 12, 14, 14, 14, 18, 18, 18, 24, 24, 24, 30, 30, 30, 40, 40, 40, 18, 18, 18, 0, 0, 0, 0]
    } else if sr == 5 {
        seq![4u8, 4, 4, 4, 4, 4, 6, 6, 4, 4, 4, 6, 6, 6, 8, 8, 8, 10, 10, 10, 12, 12, 12, 14, 14, 14, 18, 18, 18, 22, 22, 22, 30, 30, 30, 56, 56, 56, 0, 0]
    } else if sr == 6 {
        seq![4u8, 4, 4, 4, 4, 4, 6, 6, 4, 4, 4, 6, 6, 6, 6, 6, 6, 10, 10, 10, 12, 12, 12, 14, 14, 14, 16, 16, 16, 20, 20, 20, 26, 26, 26, 66, 66, 66, 0, 0]
    } else {
        seq![4u8, 4, 4, 4, 4, 4, 6, 6, 4, 4, 4, 6, 6, 6, 8, 8, 8, 12, 12, 12, 16, 16, 16, 20, 20, 20, 26, 26, 26, 34, 34, 34, 42, 42, 42, 12, 12, 12, 0, 0]
    }
}
/// The widths listed by a table row.
pub open spec fn sfb_widths(t: SfbTable) -> Seq<u8> {
    match t.kind {
        SfbKind::Long => long_widths(t.sr_idx as int),
        SfbKind::Short => short_widths(t.sr_idx as int),
        SfbKind::Mixed => mixed_widths(t.sr_idx as int),
    }
}

impl SfbTable {
    /// The band widths of this row.
    pub fn widths(&self) -> (r: Vec<u8>)
        requires
            self.sr_idx < 8,
        ensures
            r@ == sfb_widths(*self),
    {
        match self.kind {
            SfbKind::Long => match self.sr_idx {
                0 => vec![6u8, 6, 6, 6, 6, 6, 8, 10, 12, 14, 16, 20, 24, 28, 32, 38, 46, 52, 60, 68, 58, 54, 0],
                1 => vec![12u8, 12, 12, 12, 12, 12, 16, 20, 24, 28, 32, 40, 48, 56, 64, 76, 90, 2, 2, 2, 2, 2, 0],
                2 => vec![6u8, 6, 6, 6, 6, 6, 8, 10, 12, 14, 16, 20, 24, 28, 32, 38, 46, 52, 60, 68, 58, 54, 0],
                3 => vec![6u8, 6, 6, 6, 6, 6, 8, 10, 12, 14, 16, 18, 22, 26, 32, 38, 46, 54, 62, 70, 76, 36, 0],
                4 => vec![6u8, 6, 6, 6, 6, 6, 8, 10, 12, 14, 16, 20, 24, 28, 32, 38, 46, 52, 60, 68, 58, 54, 0],
                5 => vec![4u8, 4, 4, 4, 4, 4, 6, 6, 8, 8, 10, 12, 16, 20, 24, 28, 34, 42, 50, 54, 76, 158, 0],
                6 => vec![4u8, 4, 4, 4, 4, 4, 6, 6, 6, 8, 10, 12, 16, 18, 22, 28, 34, 40, 46, 54, 54, 192, 0],
                _ => vec![4u8, 4, 4, 4, 4, 4, 6, 6, 8, 10, 12, 16, 20, 24, 30, 38, 46, 56, 68, 84, 102, 26, 0],
            },
            SfbKind::Short => match self.sr_idx {
                0 => vec![4u8, 4, 4, 4, 4, 4, 4, 4, 4, 6, 6, 6, 8, 8, 8, 10, 10, 10, 12, 12, 12, 14, 14, 14, 18, 18, 18, 24, 24, 24, 30, 30, 30, 40, 40, 40, 18, 18, 18, 0],
                1 => vec![8u8, 8, 8, 8, 8, 8, 8, 8, 8, 12, 12, 12, 16, 16, 16, 20, 20, 20, 24, 24, 24, 28, 28, 28, 36, 36, 36, 2, 2, 2, 2, 2, 2, 2, 2, 2, 26, 26, 26, 0],
                2 => vec![4u8, 4, 4, 4, 4, 4, 4, 4, 4, 6, 6, 6, 6, 6, 6, 8, 8, 8, 10, 10, 10, 14, 14, 14, 18, 18, 18, 26, 26, 26, 32, 32, 32, 42, 42, 42, 18, 18, 18, 0],
                3 => vec![4u8, 4, 4, 4, 4, 4, 4, 4, 4, 6, 6, 6, 8, 8, 8, 10, 10, 10, 12, 12, 12, 14, 14, 14, 18, 18, 18, 24, 24, 24, 32, 32, 32, 44, 44, 44, 12, 12, 12, 0],
                4 => vec![4u8, 4, 4, 4, 4, 4, 4, 4, 4, 6, 6, 6, 8, 8, 8, 10, 10, 10, 12, 12, 12, 14, 14, 14, 18, 18, 18, 24, 24, 24, 30, 30, 30, 40, 40, 40, 18, 18, 18, 0],
                5 => vec![4u8, 4, 4, 4, 4, 4, 4, 4, 4, 4, 4, 4, 6, 6, 6, 8, 8, 8, 10, 10, 10, 12, 12, 12, 14, 14, 14, 18, 18, 18, 22, 22, 22, 30, 30, 30, 56, 56, 56, 0],
                6 => vec![4u8, 4, 4, 4, 4, 4, 4, 4, 4, 4, 4, 4, 6, 6, 6, 6, 6, 6, 10, 10, 10, 12, 12, 12, 14, 14, 14, 16, 16, 16, 20, 20, 20, 26, 26, 26, 66, 66, 66, 0],
                _ => vec![4u8, 4, 4, 4, 4, 4, 4, 4, 4, 4, 4, 4, 6, 6, 6, 8, 8, 8, 12, 12, 12, 16, 16, 16, 20, 20, 20, 26, 26, 26, 34, 34, 34, 42, 42, 42, 12, 12, 12, 0],
            },
            SfbKind::Mixed => match self.sr_idx {
                0 => vec![6u8, 6, 6, 6, 6, 6, 6, 6, 6, 8, 8, 8, 10, 10, 10, 12, 12, 12, 14, 14, 14, 18, 18, 18, 24, 24, 24, 30, 30, 30, 40, 40, 40, 18, 18, 18, 0, 0, 0, 0],
                1 => vec![12u8, 12, 12, 4, 4, 4, 8, 8, 8, 12, 12, 12, 16, 16, 16, 20, 20, 20, 24, 24, 24, 28, 28, 28, 36, 36, 36, 2, 2, 2, 2, 2, 2, 2, 2, 2, 26, 26, 26, 0],
                2 => vec![6u8, 6, 6, 6, 6, 6, 6, 6, 6, 6, 6, 6, 8, 8, 8, 10, 10, 10, 14, 14, 14, 18, 18, 18, 26, 26, 26, 32, 32, 32, 42, 42, 42, 18, 18, 18, 0, 0, 0, 0],
                3 => vec![6u8, 6, 6, 6, 6, 6, 6, 6, 6, 8, 8, 8, 10, 10, 10, 12, 12, 12, 14, 14, 14, 18, 18, 18, 24, 24, 24, 32, 32, 32, 44, 44, 44, 12, 12, 12, 0, 0, 0, 0],
                4 => vec![6u8, 6, 6, 6, 6, 6, 6, 6, 6, 8, 8, 8, 10, 10, 10, 12, 12, 12, 14, 14, 14, 18, 18, 18, 24, 24, 24, 30, 30, 30, 40, 40, 40, 18, 18, 18, 0, 0, 0, 0],
                5 => vec![4u8, 4, 4, 4, 4, 4, 6, 6, 4, 4, 4, 6, 6, 6, 8, 8, 8, 10, 10, 10, 12, 12, 12, 14, 14, 14, 18, 18, 18, 22, 22, 22, 30, 30, 30, 56, 56, 56, 0, 0],
                6 => vec![4u8, 4, 4, 4, 4, 4, 6, 6, 4, 4, 4, 6, 6, 6, 6, 6, 6, 10, 10, 10, 12, 12, 12, 14, 14, 14, 16, 16, 16, 20, 20, 20, 26, 26, 26, 66, 66, 66, 0, 0],
                _ => vec![4u8, 4, 4, 4, 4, 4, 6, 6, 4, 4, 4, 6, 6, 6, 8, 8, 8, 12, 12, 12, 16, 16, 16, 20, 20, 20, 26, 26, 26, 34, 34, 34, 42, 42, 42, 12, 12, 12, 0, 0],
            },
        }
    }
}

/// The sum of the widths of `s` from position `i` on.
pub open spec fn width_sum(s: Seq<u8>, i: int) -> int
    decreases s.len() - i,
{
    if i < 0 || i >= s.len() {
        0
    } else {
        s[i] + width_sum(s, i + 1)
    }
}

#[verifier::rlimit(40)]
#[verifier::spinoff_prover]
proof fn lemma_long_tables_cover_granule(r: int)
    requires
        0 <= r < 8,
    ensures
        width_sum(long_widths(r), 0) == 576,
{
    if r == 0 {
        assert(width_sum(long_widths(0), 0) == 576) by {
            reveal_with_fuel(width_sum, 41);
        }
    } else if r == 1 {
        assert(width_sum(long_widths(1), 0) == 576) by {
            reveal_with_fuel(width_sum, 41);
        }
    } else if r == 2 {
        assert(width_sum(long_widths(2), 0) == 576) by {
            reveal_with_fuel(width_sum, 41);
        }
    } else if r == 3 {
        assert(width_sum(long_widths(3), 0) == 576) by {
            reveal_with_fuel(width_sum, 41);
        }
    } else if r == 4 {
        assert(width_sum(long_widths(4), 0) == 576) by {
            reveal_with_fuel(width_sum, 41);
        }
    } else if r == 5 {
        assert(width_sum(long_widths(5), 0) == 576) by {
            reveal_with_fuel(width_sum, 41);
        }
    } else if r == 6 {
        assert(width_sum(long_widths(6), 0) == 576) by {
            reveal_with_fuel(width_sum, 41);
        }
    } else if r == 7 {
        assert(width_sum(long_widths(7), 0) == 576) by {
            reveal_with_fuel(width_sum, 41);
        }
    }
}

#[verifier::rlimit(40)]
#[verifier::spinoff_prover]
proof fn lemma_short_tables_cover_granule(r: int)
    requires
        0 <= r < 8,
    ensures
        width_sum(short_widths(r), 0) == 576,
{
    if r == 0 {
        assert(width_sum(short_widths(0), 0) == 576) by {
            reveal_with_fuel(width_sum, 41);
        }
    } else if r == 1 {
        assert(width_sum(short_widths(1), 0) == 576) by {
            reveal_with_fuel(width_sum, 41);
        }
    } else if r == 2 {
        assert(width_sum(short_widths(2), 0) == 576) by {
            reveal_with_fuel(width_sum, 41);
        }
    } else if r == 3 {
        assert(width_sum(short_widths(3), 0) == 576) by {
            reveal_with_fuel(width_sum, 41);
        }
    } else if r == 4 {
        assert(width_sum(short_widths(4), 0) == 576) by {
            reveal_with_fuel(width_sum, 41);
        }
    } else if r == 5 {
        assert(width_sum(short_widths(5), 0) == 576) by {
            reveal_with_fuel(width_sum, 41);
        }
    } else if r == 6 {
        assert(width_sum(short_widths(6), 0) == 576) by {
            reveal_with_fuel(width_sum, 41);
        }
    } else if r == 7 {
        assert(width_sum(short_widths(7), 0) == 576) by {
            reveal_with_fuel(width_sum, 41);
        }
    }
}

#[verifier::rlimit(40)]
#[verifier::spinoff_prover]
proof fn lemma_mixed_tables_cover_granule(r: int)
    requires
        0 <= r < 8,
    ensures
        width_sum(mixed_widths(r), 0) == 576,
{
    if r == 0 {
        assert(width_sum(mixed_widths(0), 0) == 576) by {
            reveal_with_fuel(width_sum, 41);
        }
    } else if r == 1 {
        assert(width_sum(mixed_widths(1), 0) == 576) by {
            reveal_with_fuel(width_sum, 41);
        }
    } else if r == 2 {
        assert(width_sum(mixed_widths(2), 0) == 576) by {
            reveal_with_fuel(width_sum, 41);
        }
    } else if r == 3 {
        assert(width_sum(mixed_widths(3), 0) == 576) by {
            reveal_with_fuel(width_sum, 41);
        }
    } else if r == 4 {
        assert(width_sum(mixed_widths(4), 0) == 576) by {
            reveal_with_fuel(width_sum, 41);
        }
    } else if r == 5 {
        assert(width_sum(mixed_widths(5), 0) == 576) by {
            reveal_with_fuel(width_sum, 41);
        }
    } else if r == 6 {
        assert(width_sum(mixed_widths(6), 0) == 576) by {
            reveal_with_fuel(width_sum, 41);
        }
    } else if r == 7 {
        assert(width_sum(mixed_widths(7), 0) == 576) by {
            reveal_with_fuel(width_sum, 41);
        }
    }
}

/// Every band table, long, short (three windows per band) or mixed, covers the
/// 576 samples of a granule exactly.
pub proof fn lemma_band_tables_cover_granule(t: SfbTable)
    requires
        t.sr_idx < 8,
    ensures
        width_sum(sfb_widths(t), 0) == 576,
{
    lemma_long_tables_cover_granule(t.sr_idx as int);
    lemma_short_tables_cover_granule(t.sr_idx as int);
    lemma_mixed_tables_cover_granule(t.sr_idx as int);
}

} // verus!
