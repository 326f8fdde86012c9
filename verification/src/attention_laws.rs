//! Which tokens look at which, what the masks take, and how the model's rows are counted.

use vstd::prelude::*;

use crate::attention;
use crate::config::ModelConfig;
use crate::text;

verus! {

/// A token looks at the tokens up to `window` in front of it and up to `window` behind it,
/// and at none further off: there the mask adds nothing, and elsewhere negative infinity.
pub proof fn law_window_on_both_sides(mask: Seq<u32>, t: int, window: int, i: int, j: int)
    requires
        attention::is_sliding_mask(mask, t, window),
        0 <= i < t,
        0 <= j < t,
    ensures
        mask.len() == t * t,
        i - j <= window && j - i <= window ==> mask[i * t + j] == 0,
        i - j > window || j - i > window ==> mask[i * t + j] == 0xff80_0000,
{
    assert(mask[i * t + j] == attention::mask_at(i, j, window));
}

/// How many of the `n` scores from one on are zero.
pub open spec fn zeros(scores: Seq<u32>, from: int, n: int) -> int
    decreases n,
{
    if n <= 0 {
        0
    } else if scores[from + n - 1] == 0 {
        zeros(scores, from, n - 1) + 1
    } else {
        zeros(scores, from, n - 1)
    }
}

proof fn lemma_zeros(mask: Seq<u32>, t: int, window: int, i: int, n: int)
    requires
        attention::is_sliding_mask(mask, t, window),
        0 <= window,
        0 <= i < t,
        0 <= n <= t,
    ensures
        ({
            let low = if i > window {
                i - window
            } else {
                0
            };
            zeros(mask, i * t, n) == (if n <= low {
                0
            } else if n <= i + window + 1 {
                n - low
            } else {
                i + window + 1 - low
            })
        }),
    decreases n,
{
    if n > 0 {
        lemma_zeros(mask, t, window, i, n - 1);
        law_window_on_both_sides(mask, t, window, i, n - 1);
    }
}

/// A token looks at itself, at as many tokens in front of it as there are up to `window`,
/// and at as many behind it.
pub proof fn law_tokens_in_the_window(mask: Seq<u32>, t: int, window: int, i: int)
    requires
        attention::is_sliding_mask(mask, t, window),
        0 <= window,
        0 <= i < t,
    ensures
        zeros(mask, i * t, t) == 1 + (if i < window {
            i
        } else {
            window
        }) + (if t - 1 - i < window {
            t - 1 - i
        } else {
            window
        }),
{
    lemma_zeros(mask, t, window, i, t);
}

/// A mask takes four bytes for each pair of tokens, as far as that can be counted. Masks
/// take together what each of them takes.
pub proof fn law_memory_of_masks(t: usize, lengths: Set<usize>)
    requires
        lengths.finite(),
    ensures
        4 * (t * t) <= usize::MAX ==> attention::mask_size(t as int) == 4 * (t * t),
        4 * (t * t) > usize::MAX ==> attention::mask_size(t as int) == usize::MAX,
        attention::total_size(Set::empty()) == 0,
        !lengths.contains(t) ==> attention::total_size(lengths.insert(t)) == attention::total_size(
            lengths,
        ) + attention::mask_size(t as int),
{
    assert(t * t * 4 == 4 * (t * t)) by (nonlinear_arith);
    if !lengths.contains(t) {
        attention::lemma_total_with(lengths, t);
    }
}

/// What a cache keeps when a mask is made. A mask that it has stays as it is, with all
/// others. A mask of more than two gibibytes changes nothing. Any other is kept: with all
/// that was there, where both take no more than two gibibytes, and otherwise alone.
pub proof fn law_what_a_cache_keeps<M>(before: Map<usize, M>, t: usize, mask: M)
    ensures
        ({
            let after = attention::kept_after(before, t, mask);
            let size = attention::mask_size(t as int);
            let all = attention::total_size(before.dom()) + size;
            &&& before.contains_key(t) ==> after == before
            &&& size > 2147483648 ==> after == before
            &&& !before.contains_key(t) && size <= 2147483648 ==> {
                &&& after.contains_key(t) && after[t] == mask
                &&& all <= 2147483648 ==> forall|other: usize|
                    other != t ==> (#[trigger] after.contains_key(other) <==> before.contains_key(
                        other,
                    )) && (before.contains_key(other) ==> after[other] == before[other])
                &&& all > 2147483648 ==> forall|other: usize|
                    other != t ==> !#[trigger] after.contains_key(other)
            }
        }),
{
}

/// Each head has `head_dim` rows: those of the queries first, then those of the keys, then
/// those of the values, of which there are as many as of the keys.
pub proof fn law_rows_of_heads(config: ModelConfig)
    ensures
        config.q_rows() == config.num_attention_heads * config.head_dim,
        config.kv_rows() == config.num_key_value_heads * config.head_dim,
        config.qkv_rows() == config.num_attention_heads * config.head_dim
            + config.num_key_value_heads * config.head_dim + config.num_key_value_heads
            * config.head_dim,
{
    config.law_rows_add_up();
}

/// The table of positions ends at 16384, and what a text that is too long is told.
pub proof fn law_longest_text(tokens: nat, positions: nat)
    ensures
        attention::MAX_POSITIONS == 16384,
        attention::too_long(tokens, positions) == "input is "@ + text::decimal(tokens)
            + " tokens but RoPE table is sized for "@ + text::decimal(positions)
            + "; raise the cap in build_yarn_rope or chunk the input"@,
{
}

} // verus!
