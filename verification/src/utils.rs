//! The distance threshold and the side-tagged origin index.

use vstd::prelude::*;
use crate::error::Error;

verus! {

/// A distance threshold in `0..=254`.
#[derive(Debug, Clone, Copy, PartialEq, Eq, PartialOrd, Structural)]
pub struct MaxDistance(u8);

impl View for MaxDistance {
    type V = nat;

    /// The threshold as a number.
    closed spec fn view(&self) -> nat {
        if self.0 <= 254 {
            self.0 as nat
        } else {
            254
        }
    }
}

impl MaxDistance {
    /// The largest threshold there is.
    pub const LIMIT: u8 = 254;

    /// The byte held is a threshold.
    #[verifier::type_invariant]
    closed spec fn in_range(self) -> bool {
        self.0 <= MaxDistance::LIMIT
    }

    /// No threshold is above the limit.
    pub proof fn lemma_bounded(self)
        ensures
            self@ <= MaxDistance::LIMIT,
    {
    }

    /// The threshold as a byte.
    pub fn as_u8(&self) -> (d: u8)
        ensures
            d == self@,
            d <= MaxDistance::LIMIT,
    {
        proof {
            use_type_invariant(self);
        }
        self.0
    }

    /// The threshold as a machine word.
    pub fn as_usize(&self) -> (d: usize)
        ensures
            d == self@,
            d <= MaxDistance::LIMIT,
    {
        proof {
            use_type_invariant(self);
        }
        self.0 as usize
    }
}

/// What `try_from` makes of a byte: a threshold, unless the byte is 255.
impl vstd::std_specs::convert::TryFromSpecImpl<u8> for MaxDistance {
    open spec fn obeys_try_from_spec() -> bool {
        true
    }

    closed spec fn try_from_spec(value: u8) -> Result<MaxDistance, Error> {
        if value == 255 {
            Err(Error::MaxDistCapped)
        } else {
            Ok(MaxDistance(value))
        }
    }
}

impl TryFrom<u8> for MaxDistance {
    type Error = Error;

    /// Accepts every byte but 255 as a threshold.
    fn try_from(value: u8) -> (r: Result<MaxDistance, Error>)
        ensures
            value == 255 ==> r == Err::<MaxDistance, Error>(Error::MaxDistCapped),
            value != 255 ==> r.is_ok() && r.unwrap()@ == value,
    {
        if value == u8::MAX {
            Err(Error::MaxDistCapped)
        } else {
            Ok(MaxDistance(value))
        }
    }
}

/// The word that stands for an index on one side: the index itself for the
/// query, the index with the top bit set for the reference.
pub open spec fn tag_word(value: u32, is_ref: bool) -> u32 {
    if is_ref {
        (value + 0x8000_0000) as u32
    } else {
        value
    }
}

/// An origin index of at most 31 bits with the side it stands on in the top
/// bit: clear for the query, set for the reference.
#[derive(Debug, Clone, Copy, PartialEq, Eq, PartialOrd, Ord, Structural)]
pub struct CrossIndex(u32);

impl View for CrossIndex {
    type V = (u32, bool);

    /// The index and whether it stands on the reference side.
    open spec fn view(&self) -> (u32, bool) {
        ((self.word() % 0x8000_0000) as u32, self.word() >= 0x8000_0000)
    }
}

impl CrossIndex {
    /// The largest index a side can hold.
    pub const MAX: usize = 0x7fff_ffff;

    /// The tagged word itself, by which records are ordered.
    pub closed spec fn word(self) -> u32 {
        self.0
    }

    /// Tags an index with its side.
    pub fn from(value: u32, is_ref: bool) -> (ci: CrossIndex)
        requires
            value <= CrossIndex::MAX,
        ensures
            ci.word() == tag_word(value, is_ref),
            ci@ == (value, is_ref),
    {
        assert(value <= 0x7fff_ffffu32 ==> (value | 0x8000_0000u32) == value + 0x8000_0000u32)
            by (bit_vector);
        if is_ref {
            CrossIndex(value | 0x8000_0000u32)
        } else {
            CrossIndex(value)
        }
    }

    /// Whether the index stands on the reference side.
    pub fn is_ref(&self) -> (b: bool)
        ensures
            b == self@.1,
    {
        let word = self.0;
        assert((word & 0x8000_0000u32 == 0x8000_0000u32) == (word >= 0x8000_0000u32))
            by (bit_vector);
        word & 0x8000_0000u32 == 0x8000_0000u32
    }

    /// The index without its tag.
    pub fn get_value(&self) -> (value: u32)
        ensures
            value == self@.0,
            value <= CrossIndex::MAX,
    {
        let word = self.0;
        assert(word & 0x7fff_ffffu32 == word % 0x8000_0000u32) by (bit_vector);
        word & 0x7fff_ffffu32
    }

    /// The tagged word, as it is stored in a variant-index record.
    pub fn to_word(&self) -> (w: u32)
        ensures
            w == self.word(),
    {
        self.0
    }

    /// Reads a tagged word back.
    pub fn from_word(w: u32) -> (ci: CrossIndex)
        ensures
            ci.word() == w,
    {
        CrossIndex(w)
    }
}

} // verus!
