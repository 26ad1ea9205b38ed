//! Word-level helpers for the packed index buffer of a palette array.
//!
//! A 64-bit word holds `64 / bpi` lanes of `bpi` bits each, where `bpi`
//! (bits-per-index) is 4, 8 or 16. Lane `l` occupies bits
//! `l * bpi .. (l + 1) * bpi` of the word.

use vstd::prelude::*;

verus! {

/// The mask selecting the low `bpi` bits, for `bpi` in {4, 8, 16}.
pub open spec fn lane_bits(bpi: u64) -> u64 {
    if bpi == 4 {
        0xFu64
    } else if bpi == 8 {
        0xFFu64
    } else if bpi == 16 {
        0xFFFFu64
    } else {
        0u64
    }
}

/// Lanes per 64-bit word, for `bpi` in {4, 8, 16}.
pub open spec fn lanes_per_word(bpi: u64) -> u64 {
    if bpi == 4 {
        16u64
    } else if bpi == 8 {
        8u64
    } else if bpi == 16 {
        4u64
    } else {
        0u64
    }
}

/// Bit offset of lane `lane` in a word.
pub open spec fn lane_shift(lane: u64, bpi: u64) -> u64 {
    (lane * bpi) as u64
}

/// The value stored in lane `lane` of `word`.
pub open spec fn lane_of(word: u64, lane: u64, bpi: u64) -> u64 {
    (word >> lane_shift(lane, bpi)) & lane_bits(bpi)
}

/// `word` with lane `lane` replaced by `v`, all other lanes unchanged.
pub open spec fn with_lane(word: u64, lane: u64, bpi: u64, v: u64) -> u64 {
    (word & !(lane_bits(bpi) << lane_shift(lane, bpi))) | (v << lane_shift(lane, bpi))
}

/// Every lane value fits under the lane mask.
pub proof fn lemma_lane_of_bound(word: u64, lane: u64, bpi: u64)
    by (bit_vector)
    ensures
        lane_of(word, lane, bpi) <= lane_bits(bpi),
{
}

/// Writing one lane yields that value there and leaves the others alone.
pub proof fn lemma_with_lane(word: u64, lane: u64, bpi: u64, v: u64)
    by (bit_vector)
    requires
        bpi == 4 || bpi == 8 || bpi == 16,
        lane < lanes_per_word(bpi),
        v <= lane_bits(bpi),
    ensures
        lane_of(with_lane(word, lane, bpi, v), lane, bpi) == v,
        forall|l2: u64|
            l2 < lanes_per_word(bpi) && l2 != lane ==> lane_of(with_lane(word, lane, bpi, v), l2, bpi)
                == lane_of(word, l2, bpi),
{
}

/// Every lane of the zero word is zero.
pub proof fn lemma_zero_word(lane: u64, bpi: u64)
    by (bit_vector)
    ensures
        lane_of(0u64, lane, bpi) == 0u64,
{
}

/// Read the value of lane `lane` of `word`.
pub fn get_lane(word: u64, lane: u64, bpi: u64) -> (r: u64)
    requires
        bpi == 4 || bpi == 8 || bpi == 16,
        lane < lanes_per_word(bpi),
    ensures
        r == lane_of(word, lane, bpi),
        r <= lane_bits(bpi),
{
    let mask: u64 = if bpi == 4 {
        0xF
    } else if bpi == 8 {
        0xFF
    } else {
        0xFFFF
    };
    let sh: u64 = lane * bpi;
    let r = (word >> sh) & mask;
    proof {
        lemma_lane_of_bound(word, lane, bpi);
    }
    r
}

/// Return `word` with lane `lane` set to `v`.
pub fn set_lane(word: u64, lane: u64, bpi: u64, v: u64) -> (r: u64)
    requires
        bpi == 4 || bpi == 8 || bpi == 16,
        lane < lanes_per_word(bpi),
        v <= lane_bits(bpi),
    ensures
        r == with_lane(word, lane, bpi, v),
        lane_of(r, lane, bpi) == v,
        forall|l2: u64|
            l2 < lanes_per_word(bpi) && l2 != lane ==> lane_of(r, l2, bpi) == lane_of(
                word,
                l2,
                bpi,
            ),
{
    let mask: u64 = if bpi == 4 {
        0xF
    } else if bpi == 8 {
        0xFF
    } else {
        0xFFFF
    };
    let sh: u64 = lane * bpi;
    let r = (word & !(mask << sh)) | (v << sh);
    proof {
        lemma_with_lane(word, lane, bpi, v);
    }
    r
}

} // verus!
