//! Weight-table decoding.  Each weight is a 16-bit word whose hexadecimal
//! digits are re-read as a decimal numeral: the word 0x1234 denotes the
//! weight 1234.  This reinterpretation is a quirk of the source data, kept
//! exactly; a hexadecimal digit above nine has no decimal reading and is
//! reported as a malformed encoding.

use vstd::prelude::*;
use crate::image::word_at;
use crate::image::word_in;
use crate::image::Rom;
use crate::image::RomError;
use crate::image::Version;

verus! {

/// Number of weight rows, one per named period, the bonus slot included.
pub const WEIGHT_ROWS: usize = 7;

/// Number of fisher slots in every weight row.
pub const FISHERS: usize = 10;

/// Base of the row-pointer table of each image variant.
pub open spec fn weight_base(v: Version) -> int {
    match v {
        Version::Us => 0x17D2,
        Version::Jp => 0x17CE,
    }
}

/// All four hexadecimal digits of the word are valid decimal digits.
pub open spec fn weight_encoding_valid(w: u16) -> bool {
    &&& (w as int) % 16 <= 9
    &&& ((w as int) / 16) % 16 <= 9
    &&& ((w as int) / 256) % 16 <= 9
    &&& ((w as int) / 4096) % 16 <= 9
}

/// The weight a word denotes: its hexadecimal digits read as a decimal
/// numeral.
pub open spec fn decimal_reparse(w: u16) -> u16 {
    (((w as int) / 4096) % 16 * 1000 + ((w as int) / 256) % 16 * 100 + ((w as int) / 16) % 16
        * 10 + (w as int) % 16) as u16
}

/// The pointer to weight row `day` lies inside the image.
pub open spec fn row_ptr_in(d: Seq<u8>, v: Version, day: int) -> bool {
    word_in(d, weight_base(v) + 2 * day)
}

/// Offset of weight row `day`.
pub open spec fn row_off(d: Seq<u8>, v: Version, day: int) -> int {
    word_at(d, weight_base(v) + 2 * day) as int
}

/// Word `x` of weight row `day` lies inside the image.
pub open spec fn cell_in(d: Seq<u8>, v: Version, day: int, x: int) -> bool {
    word_in(d, row_off(d, v, day) + 2 * x)
}

/// Word `x` of weight row `day`.
pub open spec fn cell_word(d: Seq<u8>, v: Version, day: int, x: int) -> u16 {
    word_at(d, row_off(d, v, day) + 2 * x)
}

/// The decoded weight row of `day`: each word re-read as a decimal
/// numeral.
pub open spec fn weight_row_value(d: Seq<u8>, v: Version, day: int) -> Seq<u16> {
    Seq::new(FISHERS as nat, |x: int| decimal_reparse(cell_word(d, v, day, x)))
}

/// Every read of the weight-table decode stays inside the image.
pub open spec fn weights_wf(d: Seq<u8>, v: Version) -> bool {
    &&& forall|day: int| 0 <= day < WEIGHT_ROWS ==> #[trigger] row_ptr_in(d, v, day)
    &&& forall|day: int, x: int|
        0 <= day < WEIGHT_ROWS && 0 <= x < FISHERS ==> #[trigger] cell_in(d, v, day, x)
}

/// Every weight word of the table has a decimal reading.
pub open spec fn weights_valid(d: Seq<u8>, v: Version) -> bool {
    forall|day: int, x: int|
        0 <= day < WEIGHT_ROWS && 0 <= x < FISHERS ==> weight_encoding_valid(
            #[trigger] cell_word(d, v, day, x),
        )
}

/// Re-read a weight word's hexadecimal digits as a decimal numeral.
pub fn hex_as_decimal(w: u16) -> (r: Result<u16, RomError>)
    ensures
        r is Ok <==> weight_encoding_valid(w),
        r is Ok ==> r == Ok::<u16, RomError>(decimal_reparse(w)) && decimal_reparse(w) <= 9999,
        !weight_encoding_valid(w) ==> r == Err::<u16, RomError>(
            RomError::MalformedWeightEncoding,
        ),
{
    let n0 = w % 16;
    let n1 = (w / 16) % 16;
    let n2 = (w / 256) % 16;
    let n3 = (w / 4096) % 16;
    if n0 <= 9 && n1 <= 9 && n2 <= 9 && n3 <= 9 {
        Ok(n3 * 1000 + n2 * 100 + n1 * 10 + n0)
    } else {
        Err(RomError::MalformedWeightEncoding)
    }
}

impl Rom {
    /// Decode the seven weight rows of the active image: resolve each row
    /// pointer, read the ten weight words of the row, and re-read each as a
    /// decimal numeral.  All reads are bounds-checked before any word is
    /// re-read, so an out-of-range table wins over a malformed word.
    pub fn decode_weights(&self) -> (r: Result<Vec<Vec<u16>>, RomError>)
        ensures
            ({
                let d = self.active_data();
                let v = self.version;
                &&& (r is Ok <==> weights_wf(d, v) && weights_valid(d, v))
                &&& (r == Err::<Vec<Vec<u16>>, RomError>(RomError::OutOfBounds) <==> !weights_wf(
                    d,
                    v,
                ))
                &&& (r == Err::<Vec<Vec<u16>>, RomError>(RomError::MalformedWeightEncoding)
                    <==> weights_wf(d, v) && !weights_valid(d, v))
                &&& match r {
                    Ok(rows) => {
                        &&& rows@.len() == WEIGHT_ROWS
                        &&& forall|day: int| 0 <= day < WEIGHT_ROWS ==> #[trigger] rows@[day]@.len() == FISHERS
                        &&& forall|day: int, x: int|
                            0 <= day < WEIGHT_ROWS && 0 <= x < FISHERS ==> rows@[day]@[x]
                                == decimal_reparse(#[trigger] cell_word(d, v, day, x))
                    },
                    Err(e) => e == RomError::OutOfBounds || e
                        == RomError::MalformedWeightEncoding,
                }
            }),
    {
        let ghost d = self.active_data();
        let ghost v = self.version;
        let base: usize = match self.version {
            Version::Us => 0x17D2,
            Version::Jp => 0x17CE,
        };
        let mut raw: Vec<Vec<u16>> = Vec::new();
        let mut day: usize = 0;
        while day < WEIGHT_ROWS
            invariant
                d == self.active_data(),
                v == self.version,
                base == weight_base(v),
                raw@.len() == day,
                day <= WEIGHT_ROWS,
                forall|t: int| 0 <= t < day ==> #[trigger] row_ptr_in(d, v, t),
                forall|t: int, x: int|
                    0 <= t < day && 0 <= x < FISHERS ==> #[trigger] cell_in(d, v, t, x),
                forall|t: int| 0 <= t < day ==> #[trigger] raw@[t]@.len() == FISHERS,
                forall|t: int, x: int|
                    0 <= t < day && 0 <= x < FISHERS ==> raw@[t]@[x] == #[trigger] cell_word(
                        d,
                        v,
                        t,
                        x,
                    ),
            decreases WEIGHT_ROWS - day,
        {
            let ptr = match self.try_word(base + 2 * day) {
                Some(w) => w,
                None => {
                    proof {
                        assert(!row_ptr_in(d, v, day as int));
                    }
                    return Err(RomError::OutOfBounds);
                },
            };
            proof {
                assert(ptr as int == row_off(d, v, day as int));
            }
            let mut row: Vec<u16> = Vec::new();
            let mut x: usize = 0;
            while x < FISHERS
                invariant
                    d == self.active_data(),
                    v == self.version,
                    day < WEIGHT_ROWS,
                    ptr as int == row_off(d, v, day as int),
                    row@.len() == x,
                    x <= FISHERS,
                    forall|t: int| 0 <= t < x ==> #[trigger] cell_in(d, v, day as int, t),
                    forall|t: int|
                        0 <= t < x ==> row@[t] == #[trigger] cell_word(d, v, day as int, t),
                decreases FISHERS - x,
            {
                let w = match self.try_word(ptr as usize + 2 * x) {
                    Some(w) => w,
                    None => {
                        proof {
                            assert(!cell_in(d, v, day as int, x as int));
                        }
                        return Err(RomError::OutOfBounds);
                    },
                };
                row.push(w);
                x = x + 1;
            }
            raw.push(row);
            day = day + 1;
        }
        let mut rows: Vec<Vec<u16>> = Vec::new();
        let mut day: usize = 0;
        while day < WEIGHT_ROWS
            invariant
                d == self.active_data(),
                v == self.version,
                weights_wf(d, v),
                raw@.len() == WEIGHT_ROWS,
                forall|t: int| 0 <= t < WEIGHT_ROWS ==> #[trigger] raw@[t]@.len() == FISHERS,
                forall|t: int, x: int|
                    0 <= t < WEIGHT_ROWS && 0 <= x < FISHERS ==> raw@[t]@[x] == #[trigger] cell_word(
                        d,
                        v,
                        t,
                        x,
                    ),
                rows@.len() == day,
                day <= WEIGHT_ROWS,
                forall|t: int, x: int|
                    0 <= t < day && 0 <= x < FISHERS ==> weight_encoding_valid(
                        #[trigger] cell_word(d, v, t, x),
                    ),
                forall|t: int| 0 <= t < day ==> #[trigger] rows@[t]@.len() == FISHERS,
                forall|t: int, x: int|
                    0 <= t < day && 0 <= x < FISHERS ==> rows@[t]@[x] == decimal_reparse(
                        #[trigger] cell_word(d, v, t, x),
                    ),
            decreases WEIGHT_ROWS - day,
        {
            let mut row: Vec<u16> = Vec::new();
            let mut x: usize = 0;
            while x < FISHERS
                invariant
                    d == self.active_data(),
                    v == self.version,
                    weights_wf(d, v),
                    day < WEIGHT_ROWS,
                    raw@.len() == WEIGHT_ROWS,
                    forall|t: int| 0 <= t < WEIGHT_ROWS ==> #[trigger] raw@[t]@.len() == FISHERS,
                    forall|t: int, u: int|
                        0 <= t < WEIGHT_ROWS && 0 <= u < FISHERS ==> raw@[t]@[u]
                            == #[trigger] cell_word(d, v, t, u),
                    row@.len() == x,
                    x <= FISHERS,
                    forall|t: int|
                        0 <= t < x ==> weight_encoding_valid(
                            #[trigger] cell_word(d, v, day as int, t),
                        ),
                    forall|t: int|
                        0 <= t < x ==> row@[t] == decimal_reparse(
                            #[trigger] cell_word(d, v, day as int, t),
                        ),
                decreases FISHERS - x,
            {
                let w = raw[day][x];
                match hex_as_decimal(w) {
                    Ok(value) => {
                        row.push(value);
                    },
                    Err(e) => {
                        proof {
                            assert(!weight_encoding_valid(cell_word(d, v, day as int, x as int)));
                            assert(!weights_valid(d, v));
                        }
                        return Err(e);
                    },
                }
                x = x + 1;
            }
            rows.push(row);
            day = day + 1;
        }
        proof {
            assert(weights_valid(d, v));
        }
        Ok(rows)
    }
}

} // verus!
