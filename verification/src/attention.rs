//! What attention looks at: the slices of a projection, the length of an input, and
//! the sliding window and its cached masks.

use std::collections::HashMap;

use vstd::prelude::*;

use crate::config::ModelConfig;
use crate::score;
use crate::text;

verus! {

/// Where query, key and value stand in a projection: the first column of each, and
/// its number of columns.
#[derive(Debug, Clone, Copy)]
pub struct QkvSlices {
    pub q_start: usize,
    pub q_len: usize,
    pub k_start: usize,
    pub k_len: usize,
    pub v_start: usize,
    pub v_len: usize,
}

/// Where query, key and value stand in a projection of all in one.
pub fn qkv_slices(config: &ModelConfig) -> (r: QkvSlices)
    requires
        config.countable(),
    ensures
        r.q_start == 0,
        r.q_len == config.q_rows(),
        r.k_start == r.q_start + r.q_len,
        r.k_len == config.kv_rows(),
        r.v_start == r.k_start + r.k_len,
        r.v_len == config.kv_rows(),
        r.v_start + r.v_len == config.qkv_rows(),
{
    proof {
        config.law_rows_add_up();
    }
    let nq: usize = config.num_attention_heads;
    let nkv: usize = config.num_key_value_heads;
    let d: usize = config.head_dim;
    QkvSlices {
        q_start: 0,
        q_len: nq * d,
        k_start: nq * d,
        k_len: nkv * d,
        v_start: (nq + nkv) * d,
        v_len: nkv * d,
    }
}

/// How many query heads share a key and value head.
pub fn query_group(config: &ModelConfig) -> (r: usize)
    requires
        config.num_key_value_heads > 0,
    ensures
        r == config.num_attention_heads / config.num_key_value_heads,
{
    config.num_attention_heads / config.num_key_value_heads
}

/// The greatest number of positions that are prepared.
pub const MAX_POSITIONS: usize = 16384;

/// The number of positions that are prepared for a model made for `wanted`.
pub fn table_positions(wanted: usize) -> (r: usize)
    ensures
        r == (if wanted < MAX_POSITIONS {
            wanted
        } else {
            MAX_POSITIONS
        }),
{
    if wanted < MAX_POSITIONS {
        wanted
    } else {
        MAX_POSITIONS
    }
}

/// What is said of an input that is too long.
pub open spec fn too_long(tokens: nat, positions: nat) -> Seq<char> {
    "input is "@ + text::decimal(tokens) + " tokens but RoPE table is sized for "@ + text::decimal(
        positions,
    ) + "; raise the cap in build_yarn_rope or chunk the input"@
}

/// Refuses an input with more tokens than there are positions.
pub fn check_length(tokens: usize, positions: usize) -> (r: Result<(), String>)
    ensures
        match r {
            Ok(_) => tokens <= positions,
            Err(message) => tokens > positions && message@ == too_long(
                tokens as nat,
                positions as nat,
            ),
        },
{
    if tokens <= positions {
        return Ok(());
    }
    let mut message = "input is ".to_owned();
    message.append(text::write_decimal(tokens).as_str());
    message.append(" tokens but RoPE table is sized for ");
    message.append(text::write_decimal(positions).as_str());
    message.append("; raise the cap in build_yarn_rope or chunk the input");
    Err(message)
}

/// Token `i` looks at token `j`: they are no further apart than the window.
pub open spec fn looks_at(i: int, j: int, window: int) -> bool {
    i - window <= j <= i + window
}

/// What the mask adds to the score between two tokens: nothing where the one looks at
/// the other, and otherwise minus infinity.
pub open spec fn mask_at(i: int, j: int, window: int) -> u32 {
    if looks_at(i, j, window) {
        score::ZERO
    } else {
        score::NEG_INFINITY
    }
}

/// Row `i` stands within a square of rows.
proof fn lemma_row_in_square(i: int, t: int)
    requires
        0 <= i < t,
    ensures
        0 <= i * t,
        i * t + t <= t * t,
{
    assert(0 <= i * t) by (nonlinear_arith)
        requires
            0 <= i,
            0 <= t,
    ;
    assert((i + 1) * t == i * t + t) by (nonlinear_arith);
    assert((i + 1) * t <= t * t) by (nonlinear_arith)
        requires
            i + 1 <= t,
            0 <= t,
    ;
}

/// Scores are the sliding-window mask of `t` tokens, row by row.
pub open spec fn is_sliding_mask(mask: Seq<u32>, t: int, window: int) -> bool {
    &&& mask.len() == t * t
    &&& forall|i: int, j: int|
        #![trigger mask_at(i, j, window)]
        0 <= i < t && 0 <= j < t ==> mask[i * t + j] == mask_at(i, j, window)
}

/// The sliding-window mask of `t` tokens, row by row: each token looks at those no
/// further than `window` before and behind it.
pub fn bidirectional_sliding_mask(t: usize, window: usize) -> (mask: Vec<u32>)
    requires
        t * t <= usize::MAX,
    ensures
        is_sliding_mask(mask@, t as int, window as int),
{
    let mut mask: Vec<u32> = Vec::with_capacity(t * t);
    let mut i: usize = 0;
    while i < t
        invariant
            i <= t,
            t * t <= usize::MAX,
            mask@.len() == i * t,
            forall|a: int, b: int|
                #![trigger mask_at(a, b, window as int)]
                0 <= a < i && 0 <= b < t ==> mask@[a * t + b] == mask_at(a, b, window as int),
        decreases t - i,
    {
        let lo: usize = if i > window {
            i - window
        } else {
            0
        };
        let hi: usize = if window < t - 1 - i {
            i + window
        } else {
            t - 1
        };
        let ghost done = mask@;
        proof {
            lemma_row_in_square(i as int, t as int);
        }
        let mut j: usize = 0;
        while j < t
            invariant
                i < t,
                j <= t,
                lo == (if i > window {
                    i - window
                } else {
                    0
                }),
                hi == (if window < t - 1 - i {
                    i + window
                } else {
                    t - 1
                }),
                done.len() == i * t,
                mask@.len() == i * t + j,
                mask@.take(i * t) == done,
                forall|b: int|
                    #![trigger mask_at(i as int, b, window as int)]
                    0 <= b < j ==> mask@[i * t + b] == mask_at(i as int, b, window as int),
            decreases t - j,
        {
            let ghost had = mask@;
            if j < lo || j > hi {
                mask.push(score::NEG_INFINITY);
            } else {
                mask.push(score::ZERO);
            }
            assert(mask@.take(i * t) =~= had.take(i * t));
            j = j + 1;
        }
        proof {
            assert((i + 1) * t == i * t + t) by (nonlinear_arith);
            assert forall|a: int, b: int|
                #![trigger mask_at(a, b, window as int)]
                0 <= a < i + 1 && 0 <= b < t implies mask@[a * t + b] == mask_at(
                a,
                b,
                window as int,
            ) by {
                if a < i {
                    lemma_row_before(a, b, i as int, t as int);
                    assert(mask@.take(i * t)[a * t + b] == done[a * t + b]);
                }
            }
        }
        i = i + 1;
    }
    mask
}

/// An entry of an earlier row stands before a later row.
proof fn lemma_row_before(a: int, b: int, i: int, t: int)
    requires
        0 <= a < i,
        0 <= b < t,
    ensures
        0 <= a * t + b < i * t,
{
    assert(0 <= a * t) by (nonlinear_arith)
        requires
            0 <= a,
            0 <= t,
    ;
    assert((a + 1) * t <= i * t) by (nonlinear_arith)
        requires
            a + 1 <= i,
            0 <= t,
    ;
    assert((a + 1) * t == a * t + t) by (nonlinear_arith);
}

/// A token looks at itself, and at those that look at it.
pub proof fn law_window_is_bidirectional(i: int, j: int, window: int)
    requires
        0 <= window,
    ensures
        looks_at(i, i, window),
        looks_at(i, j, window) == looks_at(j, i, window),
        mask_at(i, j, window) == mask_at(j, i, window),
{
}

/// The memory that cached masks may take.
pub const MASK_CACHE_MAX_BYTES: usize = 2_147_483_648;

/// The memory that the mask of `t` tokens takes, or the greatest number where that is
/// more.
pub open spec fn mask_size(t: int) -> int {
    if t * t * 4 > usize::MAX {
        usize::MAX as int
    } else {
        t * t * 4
    }
}

/// The memory that the mask of `t` tokens takes, or the greatest number where that is
/// more.
pub fn mask_bytes(t: usize) -> (r: usize)
    ensures
        r == mask_size(t as int),
{
    match t.checked_mul(t) {
        Some(square) => if square > usize::MAX / 4 {
            usize::MAX
        } else {
            square * 4
        },
        None => {
            assert(t * t * 4 > usize::MAX);
            usize::MAX
        },
    }
}

/// The memory that the masks of these numbers of tokens take.
pub open spec fn total_size(lengths: Set<usize>) -> int
    decreases lengths.len(),
{
    if lengths.finite() && lengths.len() > 0 {
        let t = lengths.choose();
        mask_size(t as int) + total_size(lengths.remove(t))
    } else {
        0
    }
}

/// One of the masks takes its share of the memory.
proof fn lemma_total_without(lengths: Set<usize>, t: usize)
    requires
        lengths.finite(),
        lengths.contains(t),
    ensures
        total_size(lengths) == mask_size(t as int) + total_size(lengths.remove(t)),
    decreases lengths.len(),
{
    let first = lengths.choose();
    if t != first {
        lemma_total_without(lengths.remove(first), t);
        lemma_total_without(lengths.remove(t), first);
        assert(lengths.remove(first).remove(t) =~= lengths.remove(t).remove(first));
    }
}

/// One more mask takes so much more memory.
pub(crate) proof fn lemma_total_with(lengths: Set<usize>, t: usize)
    requires
        lengths.finite(),
        !lengths.contains(t),
    ensures
        total_size(lengths.insert(t)) == total_size(lengths) + mask_size(t as int),
{
    lemma_total_without(lengths.insert(t), t);
    assert(lengths.insert(t).remove(t) =~= lengths);
}

/// Masks that are kept by their number of tokens, within a bound on memory.
pub struct MaskCache<M> {
    masks: HashMap<usize, M>,
    bytes: usize,
}

impl<M> View for MaskCache<M> {
    type V = Map<usize, M>;

    closed spec fn view(&self) -> Map<usize, M> {
        self.masks@
    }
}

/// A cache after a mask of `t` tokens was made. A mask that is larger than the bound
/// is not kept, and nothing is dropped for it. Where the mask would take the cache
/// past the bound, all that was kept is dropped. A mask that is there already stays.
pub open spec fn kept_after<M>(before: Map<usize, M>, t: usize, mask: M) -> Map<usize, M> {
    let size = mask_size(t as int);
    if size > MASK_CACHE_MAX_BYTES || before.contains_key(t) {
        before
    } else if total_size(before.dom()) + size > MASK_CACHE_MAX_BYTES {
        map![t => mask]
    } else {
        before.insert(t, mask)
    }
}

impl<M> MaskCache<M> {
    /// The memory is counted, and within the bound.
    #[verifier::type_invariant]
    closed spec fn inv(self) -> bool {
        &&& self.bytes == total_size(self.masks@.dom())
        &&& self.bytes <= MASK_CACHE_MAX_BYTES
    }

    /// A cache that keeps nothing yet.
    pub fn new() -> (r: Self)
        ensures
            r@ == Map::<usize, M>::empty(),
    {
        let masks: HashMap<usize, M> = HashMap::new();
        assert(masks@.dom() =~= Set::empty());
        MaskCache { masks, bytes: 0 }
    }

    /// The memory that the kept masks take.
    pub fn cache_bytes(&self) -> (r: usize)
        ensures
            r == total_size(self@.dom()),
            r <= MASK_CACHE_MAX_BYTES,
    {
        proof {
            use_type_invariant(self);
        }
        self.bytes
    }

    /// The kept mask of `t` tokens.
    pub fn get(&self, t: usize) -> (r: Option<&M>)
        ensures
            match r {
                Some(mask) => self@.contains_key(t) && self@[t] == *mask,
                None => !self@.contains_key(t),
            },
    {
        broadcast use vstd::std_specs::hash::group_hash_axioms;

        self.masks.get(&t)
    }

    /// Hands over the mask of `t` tokens, to be kept if there is room for it.
    pub fn offer(&mut self, t: usize, mask: M)
        ensures
            final(self)@ == kept_after(old(self)@, t, mask),
    {
        broadcast use vstd::std_specs::hash::group_hash_axioms;

        proof {
            use_type_invariant(&*self);
        }
        let size: usize = mask_bytes(t);
        if size > MASK_CACHE_MAX_BYTES {
            return;
        }
        if self.get(t).is_some() {
            return;
        }
        let mut masks: HashMap<usize, M> = HashMap::new();
        let mut bytes: usize = 0;
        assert(masks@.dom() =~= Set::empty());
        if self.bytes <= MASK_CACHE_MAX_BYTES - size {
            let none: HashMap<usize, M> = HashMap::new();
            assert(none@.dom() =~= Set::empty());
            let mut kept = MaskCache { masks: none, bytes: 0 };
            std::mem::swap(&mut kept, self);
            let MaskCache { masks: all, bytes: taken } = kept;
            masks = all;
            bytes = taken;
        }
        let ghost start = masks@;
        masks.insert(t, mask);
        proof {
            lemma_total_with(start.dom(), t);
            assert(masks@.dom() =~= start.dom().insert(t));
            assert(Map::<usize, M>::empty().insert(t, mask) =~= map![t => mask]);
        }
        *self = MaskCache { masks, bytes: bytes + size };
    }
}

/// What `build` may make of scores.
pub open spec fn made_by<M, E, B: FnOnce(Vec<u32>) -> Result<M, E>>(build: B) -> spec_fn(
    Seq<u32>,
    M,
) -> bool {
    |scores: Seq<u32>, mask: M|
        exists|given: Vec<u32>| given@ == scores && build.ensures((given,), Ok(mask))
}

/// A mask is a copy of one that is made of the sliding-window mask of `t` tokens.
pub open spec fn is_right<M: Clone>(
    makes: spec_fn(Seq<u32>, M) -> bool,
    t: usize,
    window: usize,
    mask: M,
) -> bool {
    exists|scores: Seq<u32>, made: M| #[trigger]
        makes(scores, made) && is_sliding_mask(scores, t as int, window as int) && cloned(made, mask)
}

/// What asking a cache for the mask of `t` tokens comes to. A mask that is kept is
/// copied. Any other is made of the sliding-window mask, and handed over to be kept.
pub open spec fn asked<M: Clone>(
    makes: spec_fn(Seq<u32>, M) -> bool,
    t: usize,
    window: usize,
    before: Map<usize, M>,
    after: Map<usize, M>,
    answer: Option<M>,
) -> bool {
    if before.contains_key(t) {
        &&& after == before
        &&& answer matches Some(mask) && cloned(before[t], mask)
    } else {
        match answer {
            Some(mask) => exists|scores: Seq<u32>, made: M| #[trigger]
                makes(scores, made) && is_sliding_mask(scores, t as int, window as int) && cloned(
                    made,
                    mask,
                ) && after == kept_after(before, t, made),
            None => after == before,
        }
    }
}

/// The mask of `t` tokens: a copy of the one that is kept, or one that `build` makes of
/// the sliding-window mask.
pub fn cached_mask<M: Clone, E, B: FnOnce(Vec<u32>) -> Result<M, E>>(
    cache: &mut MaskCache<M>,
    t: usize,
    window: usize,
    build: B,
) -> (r: Result<M, E>)
    requires
        t * t <= usize::MAX,
        forall|scores: Vec<u32>| build.requires((scores,)),
    ensures
        asked(
            made_by(build),
            t,
            window,
            old(cache)@,
            final(cache)@,
            match r {
                Ok(mask) => Some(mask),
                Err(_) => None,
            },
        ),
        r matches Err(error) ==> exists|scores: Vec<u32>|
            is_sliding_mask(scores@, t as int, window as int) && #[trigger] build.ensures(
                (scores,),
                Err(error),
            ),
{
    if let Some(mask) = cache.get(t) {
        return Ok(mask.clone());
    }
    let scores = bidirectional_sliding_mask(t, window);
    let ghost given = scores;
    match build(scores) {
        Ok(mask) => {
            proof {
                assert(build.ensures((given,), Ok(mask)));
                assert(made_by::<M, E, B>(build)(given@, mask));
            }
            let copy = mask.clone();
            cache.offer(t, mask);
            Ok(copy)
        },
        Err(error) => {
            assert(build.ensures((given,), Err(error)));
            Err(error)
        },
    }
}

/// What a cache keeps is right, and within the bound.
pub open spec fn keeps_right_masks<M: Clone>(
    makes: spec_fn(Seq<u32>, M) -> bool,
    window: usize,
    kept: Map<usize, M>,
) -> bool {
    &&& kept.dom().finite()
    &&& total_size(kept.dom()) <= MASK_CACHE_MAX_BYTES
    &&& forall|t: usize| #[trigger]
        kept.contains_key(t) ==> exists|scores: Seq<u32>| #[trigger]
            makes(scores, kept[t]) && is_sliding_mask(scores, t as int, window as int)
}

/// A row of calls that ask a cache, which keeps nothing at first, for masks: whatever
/// lengths come, every answer is the mask of its length, whether it was kept or not,
/// and what the cache keeps takes no more memory than the bound.
pub proof fn law_every_answer_is_right<M: Clone>(
    makes: spec_fn(Seq<u32>, M) -> bool,
    window: usize,
    lengths: Seq<usize>,
    states: Seq<Map<usize, M>>,
    answers: Seq<Option<M>>,
    k: int,
)
    requires
        states.len() == lengths.len() + 1,
        answers.len() == lengths.len(),
        states[0] == Map::<usize, M>::empty(),
        forall|i: int|
            0 <= i < lengths.len() ==> asked(
                makes,
                #[trigger] lengths[i],
                window,
                states[i],
                states[i + 1],
                answers[i],
            ),
        0 <= k <= lengths.len(),
    ensures
        keeps_right_masks(makes, window, states[k]),
        k < lengths.len() ==> (answers[k] matches Some(mask) ==> is_right(
            makes,
            lengths[k],
            window,
            mask,
        )),
    decreases k,
{
    if k > 0 {
        law_every_answer_is_right(makes, window, lengths, states, answers, k - 1);
        let t = lengths[k - 1];
        let before = states[k - 1];
        let after = states[k];
        assert(asked(makes, t, window, before, after, answers[k - 1]));
        if !before.contains_key(t) && answers[k - 1] is Some {
            let mask = answers[k - 1]->0;
            let (scores, made) = choose|scores: Seq<u32>, made: M| #[trigger]
                makes(scores, made) && is_sliding_mask(scores, t as int, window as int) && cloned(
                    made,
                    mask,
                ) && after == kept_after(before, t, made);
            law_cache_stays_within_bound(before, t, made);
            assert forall|other: usize| #[trigger] after.contains_key(other) implies exists|
                scores: Seq<u32>,
            | #[trigger]
                makes(scores, after[other]) && is_sliding_mask(
                    scores,
                    other as int,
                    window as int,
                ) by {
                if other == t {
                    assert(makes(scores, after[other]));
                } else {
                    assert(before.contains_key(other));
                    assert(after[other] == before[other]);
                }
            }
        }
    }
    if k < lengths.len() {
        let t = lengths[k];
        assert(asked(makes, t, window, states[k], states[k + 1], answers[k]));
        if states[k].contains_key(t) {
            let scores = choose|scores: Seq<u32>| #[trigger]
                makes(scores, states[k][t]) && is_sliding_mask(
                    scores,
                    t as int,
                    window as int,
                );
            assert(makes(scores, states[k][t]));
        }
    }
}

/// What is kept stays within the bound, and a mask that is not larger than the bound is
/// there once it was made.
pub proof fn law_cache_stays_within_bound<M>(before: Map<usize, M>, t: usize, mask: M)
    requires
        before.dom().finite(),
        total_size(before.dom()) <= MASK_CACHE_MAX_BYTES,
    ensures
        kept_after(before, t, mask).dom().finite(),
        total_size(kept_after(before, t, mask).dom()) <= MASK_CACHE_MAX_BYTES,
        mask_size(t as int) <= MASK_CACHE_MAX_BYTES ==> kept_after(before, t, mask).contains_key(t),
        mask_size(t as int) > MASK_CACHE_MAX_BYTES ==> kept_after(before, t, mask) == before,
        forall|other: usize|
            other != t && #[trigger] kept_after(before, t, mask).contains_key(other)
                ==> before.contains_key(other) && kept_after(before, t, mask)[other]
                == before[other],
{
    if !before.contains_key(t) {
        lemma_total_with(before.dom(), t);
        lemma_total_with(Set::empty(), t);
        assert(before.insert(t, mask).dom() =~= before.dom().insert(t));
        assert(map![t => mask].dom() =~= Set::empty().insert(t));
    }
}

} // verus!
