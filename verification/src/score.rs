//! Scores as bit patterns of IEEE 754 binary32 values, and their order.
//!
//! A score travels through the library as the `u32` that holds its bits. The
//! order of two scores is decided on the bits alone; a sum of two scores is
//! left to the caller, who hands in the addition.

use vstd::prelude::*;

verus! {

/// The bits of positive zero.
pub const ZERO: u32 = 0x0000_0000;

/// The bits of negative infinity.
pub const NEG_INFINITY: u32 = 0xff80_0000;

/// The bits with which an exponent of all ones and an empty fraction is told
/// from a number, once the sign is taken off.
pub const INFINITE_MAGNITUDE: u32 = 0x7f80_0000;

/// The bit that holds the sign.
pub const SIGN: u32 = 0x8000_0000;

/// The bits of a score without its sign.
pub open spec fn magnitude(bits: u32) -> int {
    if bits >= SIGN {
        bits - SIGN
    } else {
        bits as int
    }
}

/// Whether the bits hold no number at all.
pub open spec fn is_nan(bits: u32) -> bool {
    magnitude(bits) > INFINITE_MAGNITUDE
}

/// Whether the bits hold a number that is neither infinity.
pub open spec fn is_finite(bits: u32) -> bool {
    magnitude(bits) < INFINITE_MAGNITUDE
}

/// The place of a number in the order of all numbers; both zeros share a place.
pub open spec fn rank(bits: u32) -> int {
    if bits >= SIGN {
        -magnitude(bits)
    } else {
        magnitude(bits)
    }
}

/// `a > b`, which never holds when either side is no number.
pub open spec fn exceeds(a: u32, b: u32) -> bool {
    !is_nan(a) && !is_nan(b) && rank(a) > rank(b)
}

/// Decides `a > b`.
pub fn greater(a: u32, b: u32) -> (r: bool)
    ensures
        r == exceeds(a, b),
{
    let mag_a: u32 = if a >= SIGN {
        a - SIGN
    } else {
        a
    };
    let mag_b: u32 = if b >= SIGN {
        b - SIGN
    } else {
        b
    };
    if mag_a > INFINITE_MAGNITUDE || mag_b > INFINITE_MAGNITUDE {
        false
    } else if a >= SIGN {
        b >= SIGN && mag_a < mag_b
    } else {
        if b >= SIGN {
            mag_a > 0 || mag_b > 0
        } else {
            mag_a > mag_b
        }
    }
}

/// Decides whether a score is neither infinite nor without a number.
pub fn finite(a: u32) -> (r: bool)
    ensures
        r == is_finite(a),
{
    if a >= SIGN {
        a - SIGN < INFINITE_MAGNITUDE
    } else {
        a < INFINITE_MAGNITUDE
    }
}

/// Decides whether a score holds no number.
pub fn nan(a: u32) -> (r: bool)
    ensures
        r == is_nan(a),
{
    if a >= SIGN {
        a - SIGN > INFINITE_MAGNITUDE
    } else {
        a > INFINITE_MAGNITUDE
    }
}

/// The first of the greatest scores, among those above `floor`.
pub open spec fn first_best(scores: Seq<u32>, floor: u32) -> Option<int>
    decreases scores.len(),
{
    if scores.len() == 0 {
        None
    } else {
        let before = first_best(scores.drop_last(), floor);
        let top = match before {
            Some(i) => scores[i],
            None => floor,
        };
        if exceeds(scores.last(), top) {
            Some(scores.len() - 1)
        } else {
            before
        }
    }
}

/// The index of the first of the greatest scores above `floor`, or 0.
pub open spec fn best_index(scores: Seq<u32>, floor: u32) -> int {
    match first_best(scores, floor) {
        Some(i) => i,
        None => 0,
    }
}

/// The greatest score above `floor`, or `floor` itself.
pub open spec fn best_score(scores: Seq<u32>, floor: u32) -> u32 {
    match first_best(scores, floor) {
        Some(i) => scores[i],
        None => floor,
    }
}

/// What the search finds: nothing when no score is above the floor, and
/// otherwise a score above the floor that no other exceeds, the earliest one
/// of its rank.
pub proof fn lemma_first_best(scores: Seq<u32>, floor: u32)
    requires
        !is_nan(floor),
    ensures
        match first_best(scores, floor) {
            Some(i) => {
                &&& 0 <= i < scores.len()
                &&& exceeds(scores[i], floor)
                &&& forall|j: int| 0 <= j < scores.len() ==> !exceeds(#[trigger] scores[j], scores[i])
                &&& forall|j: int| 0 <= j < i ==> !(!is_nan(#[trigger] scores[j]) && rank(scores[j]) >= rank(scores[i]))
            },
            None => forall|j: int| 0 <= j < scores.len() ==> !exceeds(#[trigger] scores[j], floor),
        },
    decreases scores.len(),
{
    if scores.len() > 0 {
        let init = scores.drop_last();
        lemma_first_best(init, floor);
        assert forall|j: int| 0 <= j < init.len() implies init[j] == scores[j] by {}
        assert(scores.last() == scores[scores.len() - 1]);
        match first_best(init, floor) {
            Some(i) => {
                assert(init[i] == scores[i]);
            },
            None => {},
        }
        if first_best(scores, floor) == Some(scores.len() - 1) {
            let top = scores.last();
            assert forall|j: int| 0 <= j < scores.len() implies !exceeds(#[trigger] scores[j], top) by {
                if j < init.len() {
                    assert(init[j] == scores[j]);
                }
            }
            assert forall|j: int| 0 <= j < init.len() implies !(!is_nan(#[trigger] scores[j])
                && rank(scores[j]) >= rank(top)) by {
                assert(init[j] == scores[j]);
            }
        } else {
            assert(first_best(scores, floor) == first_best(init, floor));
            assert forall|j: int| 0 <= j < init.len() implies scores[j] == #[trigger] init[j] by {}
        }
    }
}

/// Extends a search by one score.
pub proof fn lemma_first_best_push(scores: Seq<u32>, next: u32, floor: u32)
    ensures
        first_best(scores.push(next), floor) == (if exceeds(next, best_score(scores, floor)) {
            Some(scores.len() as int)
        } else {
            first_best(scores, floor)
        }),
        best_score(scores.push(next), floor) == (if exceeds(next, best_score(scores, floor)) {
            next
        } else {
            best_score(scores, floor)
        }),
        match first_best(scores, floor) {
            Some(i) => 0 <= i < scores.len(),
            None => true,
        },
    decreases scores.len(),
{
    if scores.len() > 0 {
        lemma_first_best_push(scores.drop_last(), scores.last(), floor);
        assert(scores.drop_last().push(scores.last()) =~= scores);
    }
    assert(scores.push(next).drop_last() =~= scores);
}

/// Finds the first of the greatest scores in `scores[start..end]` above the
/// floor, as an offset from `start`; 0 when none is above it.
pub fn best_in_range(scores: &[u32], start: usize, end: usize, floor: u32) -> (r: usize)
    requires
        start <= end <= scores@.len(),
    ensures
        r as int == best_index(scores@.subrange(start as int, end as int), floor),
{
    let mut best: usize = 0;
    let mut best_v: u32 = floor;
    let mut i: usize = start;
    assert(scores@.subrange(start as int, start as int) =~= Seq::<u32>::empty());
    while i < end
        invariant
            start <= i <= end <= scores@.len(),
            best as int == best_index(scores@.subrange(start as int, i as int), floor),
            best_v == best_score(scores@.subrange(start as int, i as int), floor),
        decreases end - i,
    {
        let v: u32 = scores[i];
        proof {
            let seen = scores@.subrange(start as int, i as int);
            lemma_first_best_push(seen, v, floor);
            assert(seen.push(v) =~= scores@.subrange(start as int, i + 1));
        }
        if greater(v, best_v) {
            best_v = v;
            best = i - start;
        }
        i = i + 1;
    }
    best
}

} // verus!
