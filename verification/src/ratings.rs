//! The bait rating grid: one rating byte per (bait, day) cell, read at a
//! per-bait stride.  The as-shipped data reads at stride six, which
//! misaligns rows against the seven-byte layout; the corrected reading uses
//! stride seven.  The stride is a first-class, caller-visible choice, since
//! it reproduces a real layout discrepancy between builds.

use vstd::prelude::*;
use crate::image::Rom;
use crate::image::RomError;
use crate::image::Version;

verus! {

/// Base offset of the rating grid.
pub const RATING_BASE: usize = 0x1571C;

/// First bait identifier of the grid.
pub const BAIT_FIRST: usize = 0x71;

/// Last bait identifier of the grid, inclusive.
pub const BAIT_LAST: usize = 0xB9;

/// Number of baits in the grid.
pub const BAIT_COUNT: usize = 73;

/// Rated days per bait: one less than the seven period slots.
pub const RATING_DAYS: usize = 6;

/// The per-bait stride: six as shipped, seven in the corrected reading.
pub open spec fn rating_stride(fix_bug: bool) -> int {
    if fix_bug {
        7
    } else {
        6
    }
}

/// Offset of the rating byte of (`bait`, `day`), with `bait` the raw bait
/// identifier.
pub open spec fn rating_off(fix_bug: bool, bait: int, day: int) -> int {
    RATING_BASE + bait * rating_stride(fix_bug) + day
}

/// The whole grid lies inside the image exactly when its very last cell
/// does: every other cell sits at a smaller offset.
pub open spec fn ratings_in(d: Seq<u8>, fix_bug: bool) -> bool {
    rating_off(fix_bug, BAIT_LAST as int, RATING_DAYS as int - 1) < d.len()
}

impl Rom {
    /// Read the rating grid: one row per bait from 0x71 through 0xB9, six
    /// rating bytes per row, in bait-ascending, day-ascending order.  Only
    /// the first image variant has a known rating grid.
    pub fn bait_ratings(&self, fix_bug: bool) -> (r: Result<Vec<Vec<u8>>, RomError>)
        ensures
            self.version == Version::Jp ==> r == Err::<Vec<Vec<u8>>, RomError>(
                RomError::UnsupportedVariant,
            ),
            self.version == Version::Us ==> ({
                let d = self.active_data();
                &&& (r is Ok <==> ratings_in(d, fix_bug))
                &&& match r {
                    Ok(v) => {
                        &&& v@.len() == BAIT_COUNT
                        &&& forall|b: int|
                            0 <= b < BAIT_COUNT ==> #[trigger] v@[b]@.len() == RATING_DAYS
                        &&& forall|b: int, x: int|
                            0 <= b < BAIT_COUNT && 0 <= x < RATING_DAYS ==> #[trigger] v@[b]@[x]
                                == d[rating_off(fix_bug, BAIT_FIRST + b, x)]
                    },
                    Err(e) => e == RomError::OutOfBounds,
                }
            }),
    {
        if self.version == Version::Jp {
            return Err(RomError::UnsupportedVariant);
        }
        let ghost d = self.active_data();
        let stride: usize = if fix_bug {
            7
        } else {
            6
        };
        let limit = RATING_BASE + BAIT_LAST * stride + (RATING_DAYS - 1);
        if limit >= self.active().len() {
            return Err(RomError::OutOfBounds);
        }
        let mut grid: Vec<Vec<u8>> = Vec::new();
        let mut b: usize = 0;
        while b < BAIT_COUNT
            invariant
                self.version == Version::Us,
                d == self.active_data(),
                stride == rating_stride(fix_bug),
                limit == rating_off(fix_bug, BAIT_LAST as int, RATING_DAYS as int - 1),
                limit < d.len(),
                grid@.len() == b,
                b <= BAIT_COUNT,
                forall|t: int| 0 <= t < b ==> #[trigger] grid@[t]@.len() == RATING_DAYS,
                forall|t: int, x: int|
                    0 <= t < b && 0 <= x < RATING_DAYS ==> #[trigger] grid@[t]@[x] == d[rating_off(
                        fix_bug,
                        BAIT_FIRST + t,
                        x,
                    )],
            decreases BAIT_COUNT - b,
        {
            let mut row: Vec<u8> = Vec::new();
            let mut x: usize = 0;
            proof {
                assert((BAIT_FIRST + b) * stride <= BAIT_LAST * stride) by (nonlinear_arith)
                    requires
                        b < BAIT_COUNT,
                        BAIT_FIRST + BAIT_COUNT - 1 == BAIT_LAST,
                        stride == 6 || stride == 7,
                ;
            }
            while x < RATING_DAYS
                invariant
                    self.version == Version::Us,
                    d == self.active_data(),
                    stride == rating_stride(fix_bug),
                    limit == rating_off(fix_bug, BAIT_LAST as int, RATING_DAYS as int - 1),
                    limit < d.len(),
                    b < BAIT_COUNT,
                    (BAIT_FIRST + b) * stride <= BAIT_LAST * stride,
                    row@.len() == x,
                    x <= RATING_DAYS,
                    forall|t: int|
                        0 <= t < x ==> #[trigger] row@[t] == d[rating_off(
                            fix_bug,
                            BAIT_FIRST + b,
                            t,
                        )],
                decreases RATING_DAYS - x,
            {
                let off = RATING_BASE + (BAIT_FIRST + b) * stride + x;
                let cell = self.get_u8(off);
                row.push(cell);
                x = x + 1;
            }
            grid.push(row);
            b = b + 1;
        }
        Ok(grid)
    }
}

} // verus!
