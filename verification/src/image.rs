//! The in-memory data images and the primitive reads every table decoder
//! goes through: single bytes at absolute offsets, and little-endian 16-bit
//! words at offsets biased into the table bank.

use vstd::prelude::*;

verus! {

/// Which of the two supported data images is active.
#[derive(Clone, Copy, Debug, PartialEq, Eq, Structural)]
pub enum Version {
    Us,
    Jp,
}

/// Why a decode gave up.  Every decoder is total over its inputs: a read
/// past the end of the active image or a weight word that is not a decimal
/// numeral is reported, never followed by partial output.
#[derive(Clone, Copy, Debug, PartialEq, Eq, Structural)]
pub enum RomError {
    /// A computed offset fell outside the active image buffer.
    OutOfBounds,
    /// The requested report is not implemented for the active image variant.
    UnsupportedVariant,
    /// A resolved weight word has a hexadecimal digit above nine, so it
    /// cannot be re-read as a decimal numeral.
    MalformedWeightEncoding,
}

impl Version {
    /// Index of this variant's buffer in a two-buffer collection.
    pub open spec fn index(self) -> int {
        match self {
            Version::Us => 0,
            Version::Jp => 1,
        }
    }

    pub fn offset(&self) -> (r: usize)
        ensures
            r == self.index(),
    {
        match self {
            Version::Us => 0,
            Version::Jp => 1,
        }
    }
}

/// Chained-table reads are encoded relative to a different base than raw
/// byte reads: offsets below 0x10000 are moved up into the 0x10000 bank,
/// offsets already in that bank stay where they are.
pub open spec fn biased(off: int) -> int {
    if off < 0x10000 {
        off + 0x10000
    } else {
        off
    }
}

/// A 16-bit word read at `off` stays inside `d`.  Every offset a decoder
/// computes lies below 0x20000: a table pointer is itself a 16-bit word and
/// only small fixed steps are added to it.
pub open spec fn word_in(d: Seq<u8>, off: int) -> bool {
    &&& 0 <= off < 0x20000
    &&& biased(off) + 1 < d.len()
}

/// The little-endian 16-bit word at the biased offset.
pub open spec fn word_at(d: Seq<u8>, off: int) -> u16 {
    ((d[biased(off) + 1] as int) * 256 + (d[biased(off)] as int)) as u16
}

/// Holds the raw bytes of both supported data images and remembers which
/// one is active.  The buffers are loaded once and never change; switching
/// the active variant is the only mutation.
pub struct Rom {
    pub us: Vec<u8>,
    pub jp: Vec<u8>,
    pub version: Version,
}

impl Rom {
    /// The bytes of the active image.
    pub open spec fn active_data(self) -> Seq<u8> {
        match self.version {
            Version::Us => self.us@,
            Version::Jp => self.jp@,
        }
    }

    pub fn new(us: Vec<u8>, jp: Vec<u8>) -> (r: Rom)
        ensures
            r.us@ == us@,
            r.jp@ == jp@,
            r.version == Version::Us,
    {
        Rom { us, jp, version: Version::Us }
    }

    pub fn active(&self) -> (r: &Vec<u8>)
        ensures
            r@ == self.active_data(),
    {
        match self.version {
            Version::Us => &self.us,
            Version::Jp => &self.jp,
        }
    }

    pub fn set_version(&mut self, version: Version)
        ensures
            final(self).version == version,
            final(self).us@ == old(self).us@,
            final(self).jp@ == old(self).jp@,
    {
        self.version = version;
    }

    /// Raw byte read at an absolute offset in the active image.
    pub fn get_u8(&self, offset: usize) -> (r: u8)
        requires
            offset < self.active_data().len(),
        ensures
            r == self.active_data()[offset as int],
    {
        let data = self.active();
        data[offset]
    }

    /// Little-endian word read at a biased offset, for callers that have
    /// already established the read is in bounds.
    pub fn make_u16(&self, offset: usize) -> (r: u16)
        requires
            word_in(self.active_data(), offset as int),
        ensures
            r == word_at(self.active_data(), offset as int),
    {
        let b = if offset < 0x10000 {
            offset + 0x10000
        } else {
            offset
        };
        let data = self.active();
        let lo = data[b];
        let hi = data[b + 1];
        (hi as u16) * 256 + (lo as u16)
    }

    /// Bounds-checked little-endian word read at a biased offset.
    pub fn try_word(&self, offset: usize) -> (r: Option<u16>)
        requires
            offset < 0x20000,
        ensures
            r is Some <==> word_in(self.active_data(), offset as int),
            r is Some ==> r == Some(word_at(self.active_data(), offset as int)),
    {
        let b = if offset < 0x10000 {
            offset + 0x10000
        } else {
            offset
        };
        let data = self.active();
        if b + 1 < data.len() {
            let lo = data[b];
            let hi = data[b + 1];
            Some((hi as u16) * 256 + (lo as u16))
        } else {
            None
        }
    }
}

} // verus!
