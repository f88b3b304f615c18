//! The offset-table decoder: a root pointer selects the area table, each
//! area entry selects a sub-area table, each sub-area slot above the
//! sentinel floor starts a run of spot words whose high bytes are the
//! reportable identifiers.

use vstd::prelude::*;
use crate::image::word_at;
use crate::image::word_in;
use crate::image::Rom;
use crate::image::RomError;
use crate::image::Version;

verus! {

/// Offset of the root pointer that selects the area table.
pub const ROOT_OFFSET: usize = 0xD90B;

/// Number of areas in the area table.
pub const AREA_COUNT: usize = 31;

/// Upper bound on the sub-area slots scanned per area.
pub const SUB_AREA_SLOTS: usize = 16;

/// A sub-area slot at or below this floor ends the scan of its area.
pub const SPOT_FLOOR: u16 = 0xD800;

/// Base of the area table, read through the root pointer.
pub open spec fn stage_of(d: Seq<u8>) -> int {
    word_at(d, ROOT_OFFSET as int) as int
}

/// Slot `i` of the sub-area table at `base` holds a usable spot offset.
pub open spec fn slot_live(d: Seq<u8>, base: int, i: int) -> bool {
    &&& word_in(d, base + 2 * i)
    &&& word_at(d, base + 2 * i) > SPOT_FLOOR
}

/// Index of the first slot at or after `i` that does not hold a usable
/// spot offset, capped at sixteen.
pub open spec fn scan_len_from(d: Seq<u8>, base: int, i: int) -> int
    decreases 16 - i,
{
    if i >= 16 {
        16
    } else if !slot_live(d, base, i) {
        i
    } else {
        scan_len_from(d, base, i + 1)
    }
}

/// Number of accepted sub-area slots of the table at `base`.
pub open spec fn scan_len(d: Seq<u8>, base: int) -> int {
    scan_len_from(d, base, 0)
}

/// The scan of the table at `base` ends inside the image: either all
/// sixteen slots are usable, or the first unusable slot is a sentinel that
/// could itself be read, not a read past the end of the image.
pub open spec fn scan_wf(d: Seq<u8>, base: int) -> bool {
    scan_len(d, base) < 16 ==> word_in(d, base + 2 * scan_len(d, base))
}

/// How many identifier words are listed from `start` up to `end`: one word
/// is always read, then one more every two bytes while still short of
/// `end`.
pub open spec fn id_count(start: int, end: int) -> int {
    if end - start <= 2 {
        1
    } else {
        (end - start + 1) / 2
    }
}

/// The reportable identifier is the high byte of the word at `off`.
pub open spec fn spot_id(d: Seq<u8>, off: int) -> u8 {
    (word_at(d, off) / 256) as u8
}

/// The identifiers listed between two spot offsets.
pub open spec fn ids_spec(d: Seq<u8>, start: int, end: int) -> Seq<u8> {
    Seq::new(id_count(start, end) as nat, |k: int| spot_id(d, start + 2 * k))
}

/// The `k`-th identifier word of a run starting at `start` lies inside the
/// image.
pub open spec fn id_word_in(d: Seq<u8>, start: int, k: int) -> bool {
    word_in(d, start + 2 * k)
}

/// Every identifier word between the two offsets lies inside the image.
pub open spec fn ids_wf(d: Seq<u8>, start: int, end: int) -> bool {
    forall|k: int| 0 <= k < id_count(start, end) ==> #[trigger] id_word_in(d, start, k)
}

/// Base of the sub-area table of `area`.
pub open spec fn sub_base(d: Seq<u8>, stage: int, area: int) -> int {
    word_at(d, stage + 2 * area) as int
}

/// Number of accepted sub-areas of `area`.
pub open spec fn sub_count(d: Seq<u8>, stage: int, area: int) -> int {
    scan_len(d, sub_base(d, stage, area))
}

/// First spot offset of sub-area `j` of `area`.
pub open spec fn spot_start(d: Seq<u8>, stage: int, area: int, j: int) -> int {
    word_at(d, sub_base(d, stage, area) + 2 * j) as int
}

/// Where sub-area `j` of `area` ends: at the next accepted spot offset; for
/// the last sub-area, at the next area's sub-area table base, except that
/// the final area has no next area and uses a fixed width of three words.
pub open spec fn spot_end(d: Seq<u8>, stage: int, area: int, j: int) -> int {
    if j + 1 < sub_count(d, stage, area) {
        spot_start(d, stage, area, j + 1)
    } else if area != 30 {
        word_at(d, stage + 2 * area + 2) as int
    } else {
        spot_start(d, stage, area, j) + 6
    }
}

/// The identifier lists of all sub-areas of `area`.
pub open spec fn area_spots(d: Seq<u8>, stage: int, area: int) -> Seq<Seq<u8>> {
    Seq::new(
        sub_count(d, stage, area) as nat,
        |j: int|
            ids_spec(
                d,
                spot_start(d, stage, area, j),
                spot_end(d, stage, area, j),
            ),
    )
}

/// Every read that decoding `area` makes stays inside the image.
pub open spec fn area_wf(d: Seq<u8>, stage: int, area: int) -> bool {
    &&& word_in(d, stage + 2 * area)
    &&& scan_wf(d, sub_base(d, stage, area))
    &&& (sub_count(d, stage, area) > 0 && area != 30 ==> word_in(d, stage + 2 * area + 2))
    &&& forall|j: int|
        0 <= j < sub_count(d, stage, area) ==> ids_wf(
            d,
            spot_start(d, stage, area, j),
            spot_end(d, stage, area, j),
        )
}

/// Every read of the whole spot-listing decode stays inside the image.
pub open spec fn spots_wf(d: Seq<u8>) -> bool {
    &&& word_in(d, ROOT_OFFSET as int)
    &&& forall|a: int| 0 <= a < AREA_COUNT ==> area_wf(d, stage_of(d), a)
}

/// The decoded spot listing: for each area, for each sub-area, the spot
/// identifiers in resolution order.
pub open spec fn spots_value(d: Seq<u8>) -> Seq<Seq<Seq<u8>>> {
    Seq::new(AREA_COUNT as nat, |a: int| area_spots(d, stage_of(d), a))
}

impl Rom {
    /// Scan the sub-area table at `base`: collect slot words while they
    /// exceed the sentinel floor.  The scan never visits more than sixteen
    /// slots, and stops early at the first sentinel.
    pub fn scan_sub_area(&self, base: u16) -> (r: Result<Vec<u16>, RomError>)
        ensures
            ({
                let d = self.active_data();
                match r {
                    Ok(v) => {
                        &&& scan_wf(d, base as int)
                        &&& v@.len() == scan_len(d, base as int)
                        &&& v@.len() <= 16
                        &&& forall|k: int|
                            0 <= k < v@.len() ==> v@[k] == word_at(d, base as int + 2 * k)
                                && v@[k] > SPOT_FLOOR
                        &&& (v@.len() < 16 ==> word_at(d, base as int + 2 * v@.len()) <= SPOT_FLOOR)
                    },
                    Err(e) => {
                        &&& e == RomError::OutOfBounds
                        &&& !scan_wf(d, base as int)
                    },
                }
            }),
    {
        let ghost d = self.active_data();
        let mut offs: Vec<u16> = Vec::new();
        let mut i: usize = 0;
        let mut scanning = true;
        while scanning && i < 16
            invariant
                d == self.active_data(),
                i <= 16,
                offs@.len() == i,
                forall|k: int|
                    0 <= k < i ==> slot_live(d, base as int, k)
                        && offs@[k] == word_at(d, base as int + 2 * k),
                scanning ==> scan_len(d, base as int) == scan_len_from(d, base as int, i as int),
                !scanning ==> i < 16 && scan_len(d, base as int) == i
                    && word_in(d, base as int + 2 * i)
                    && word_at(d, base as int + 2 * i) <= SPOT_FLOOR,
            decreases 16 - i + (if scanning { 1int } else { 0int }),
        {
            match self.try_word(base as usize + 2 * i) {
                None => {
                    proof {
                        assert(!slot_live(d, base as int, i as int));
                        assert(scan_len_from(d, base as int, i as int) == i);
                    }
                    return Err(RomError::OutOfBounds);
                },
                Some(w) => {
                    if w > SPOT_FLOOR {
                        proof {
                            assert(slot_live(d, base as int, i as int));
                            assert(scan_len_from(d, base as int, i as int) == scan_len_from(
                                d,
                                base as int,
                                i + 1,
                            ));
                        }
                        offs.push(w);
                        i = i + 1;
                    } else {
                        proof {
                            assert(!slot_live(d, base as int, i as int));
                            assert(scan_len_from(d, base as int, i as int) == i);
                        }
                        scanning = false;
                    }
                },
            }
        }
        Ok(offs)
    }

    /// Read the identifier run between two spot offsets: the word at
    /// `start` is always read, then one word every two bytes while still
    /// short of `end`.
    pub fn read_ids(&self, start: usize, end: usize) -> (r: Result<Vec<u8>, RomError>)
        requires
            start < 0x20000,
            end <= 0x20000,
        ensures
            ({
                let d = self.active_data();
                match r {
                    Ok(v) => ids_wf(d, start as int, end as int) && v@ == ids_spec(
                        d,
                        start as int,
                        end as int,
                    ),
                    Err(e) => e == RomError::OutOfBounds && !ids_wf(d, start as int, end as int),
                }
            }),
    {
        let ghost d = self.active_data();
        let ghost n = id_count(start as int, end as int);
        let first = match self.try_word(start) {
            Some(w) => w,
            None => {
                proof {
                    assert(!id_word_in(d, start as int, 0));
                    assert(id_count(start as int, end as int) >= 1);
                }
                return Err(RomError::OutOfBounds);
            },
        };
        let mut ids: Vec<u8> = Vec::new();
        ids.push((first / 256) as u8);
        let mut cur: usize = start + 2;
        while cur < end
            invariant
                d == self.active_data(),
                start < 0x20000,
                end <= 0x20000,
                n == id_count(start as int, end as int),
                cur == start + 2 * ids@.len(),
                1 <= ids@.len() <= n,
                ids@.len() >= 2 ==> start + 2 * (ids@.len() - 1) < end,
                forall|k: int| 0 <= k < ids@.len() ==> #[trigger] id_word_in(d, start as int, k),
                forall|k: int|
                    0 <= k < ids@.len() ==> ids@[k] == spot_id(d, start as int + 2 * k),
            decreases end + 2 - cur,
        {
            let w = match self.try_word(cur) {
                Some(w) => w,
                None => {
                    proof {
                        assert(!id_word_in(d, start as int, ids@.len() as int));
                        assert(ids@.len() < n);
                    }
                    return Err(RomError::OutOfBounds);
                },
            };
            ids.push((w / 256) as u8);
            cur = cur + 2;
        }
        proof {
            assert(ids@.len() == n);
            assert(ids@ =~= ids_spec(d, start as int, end as int));
        }
        Ok(ids)
    }

    /// Decode one area: resolve its sub-area table, scan the accepted spot
    /// offsets, and read each sub-area's identifier run.
    pub fn decode_area(&self, stage: u16, area: usize) -> (r: Result<Vec<Vec<u8>>, RomError>)
        requires
            area < AREA_COUNT,
        ensures
            ({
                let d = self.active_data();
                match r {
                    Ok(v) => area_wf(d, stage as int, area as int) && v.deep_view() == area_spots(
                        d,
                        stage as int,
                        area as int,
                    ),
                    Err(e) => e == RomError::OutOfBounds && !area_wf(d, stage as int, area as int),
                }
            }),
    {
        let ghost d = self.active_data();
        let sb = match self.try_word(stage as usize + 2 * area) {
            Some(w) => w,
            None => {
                return Err(RomError::OutOfBounds);
            },
        };
        let offs = match self.scan_sub_area(sb) {
            Ok(v) => v,
            Err(e) => {
                return Err(e);
            },
        };
        let m = offs.len();
        let mut subs: Vec<Vec<u8>> = Vec::new();
        let mut j: usize = 0;
        while j < m
            invariant
                d == self.active_data(),
                area < AREA_COUNT,
                word_in(d, stage as int + 2 * area),
                sb == word_at(d, stage as int + 2 * area),
                scan_wf(d, sb as int),
                m == offs@.len(),
                m == sub_count(d, stage as int, area as int),
                m <= 16,
                forall|k: int|
                    0 <= k < m ==> offs@[k] == word_at(d, sb as int + 2 * k),
                subs@.len() == j,
                j <= m,
                forall|t: int|
                    0 <= t < j ==> ids_wf(
                        d,
                        spot_start(d, stage as int, area as int, t),
                        spot_end(d, stage as int, area as int, t),
                    ),
                forall|t: int|
                    0 <= t < j ==> subs@[t]@ == ids_spec(
                        d,
                        spot_start(d, stage as int, area as int, t),
                        spot_end(d, stage as int, area as int, t),
                    ),
                area != 30 && m > 0 && j == m ==> word_in(d, stage as int + 2 * area + 2),
            decreases m - j,
        {
            let start = offs[j] as usize;
            proof {
                assert(start as int == spot_start(d, stage as int, area as int, j as int));
            }
            let end: usize = if j + 1 < m {
                offs[j + 1] as usize
            } else if area != 30 {
                match self.try_word(stage as usize + 2 * area + 2) {
                    Some(w) => w as usize,
                    None => {
                        return Err(RomError::OutOfBounds);
                    },
                }
            } else {
                start + 6
            };
            proof {
                assert(end as int == spot_end(d, stage as int, area as int, j as int));
            }
            let ids = match self.read_ids(start, end) {
                Ok(v) => v,
                Err(e) => {
                    return Err(e);
                },
            };
            subs.push(ids);
            j = j + 1;
        }
        proof {
            assert forall|t: int| 0 <= t < subs@.len() implies subs@[t].deep_view() == subs@[t]@ by {
                assert(subs@[t].deep_view() =~= subs@[t]@);
            }
            assert(subs.deep_view() =~= area_spots(d, stage as int, area as int));
        }
        Ok(subs)
    }

    /// Decode the full spot listing of the active image: thirty-one areas,
    /// each a list of sub-areas, each a run of spot identifiers.  Only the
    /// first image variant has a known spot table.
    pub fn decode_spots(&self) -> (r: Result<Vec<Vec<Vec<u8>>>, RomError>)
        ensures
            self.version == Version::Jp ==> r == Err::<Vec<Vec<Vec<u8>>>, RomError>(
                RomError::UnsupportedVariant,
            ),
            self.version == Version::Us ==> ({
                let d = self.active_data();
                &&& (r is Ok <==> spots_wf(d))
                &&& match r {
                    Ok(v) => v.deep_view() == spots_value(d),
                    Err(e) => e == RomError::OutOfBounds,
                }
            }),
    {
        if self.version == Version::Jp {
            return Err(RomError::UnsupportedVariant);
        }
        let ghost d = self.active_data();
        let stage = match self.try_word(ROOT_OFFSET) {
            Some(w) => w,
            None => {
                return Err(RomError::OutOfBounds);
            },
        };
        let mut areas: Vec<Vec<Vec<u8>>> = Vec::new();
        let mut area: usize = 0;
        while area < AREA_COUNT
            invariant
                self.version == Version::Us,
                d == self.active_data(),
                word_in(d, ROOT_OFFSET as int),
                stage as int == stage_of(d),
                areas@.len() == area,
                area <= AREA_COUNT,
                forall|a: int| 0 <= a < area ==> area_wf(d, stage_of(d), a),
                forall|a: int|
                    0 <= a < area ==> areas@[a].deep_view() == area_spots(d, stage_of(d), a),
            decreases AREA_COUNT - area,
        {
            match self.decode_area(stage, area) {
                Ok(sub) => {
                    areas.push(sub);
                },
                Err(e) => {
                    return Err(e);
                },
            }
            area = area + 1;
        }
        proof {
            assert(areas.deep_view() =~= spots_value(d));
        }
        Ok(areas)
    }
}

} // verus!
