//! What holds of every decoded label sequence.

use vstd::prelude::*;

use crate::labels::LabelInfo;
use crate::score;
use crate::viterbi;
use crate::viterbi::{StepScores, ViterbiBiases, FORBIDDEN, REACHABLE};

verus! {

/// A label sequence in which every span is opened, goes on under one span label
/// and is closed.
pub open spec fn well_formed(info: LabelInfo, path: Seq<int>) -> bool {
    &&& path.len() > 0
    &&& forall|t: int| 0 <= t < path.len() ==> 0 <= #[trigger] path[t] < info.classes()
    &&& viterbi::may_start(info, path[0])
    &&& viterbi::may_end(info, path.last())
    &&& forall|t: int|
        0 <= t < path.len() - 1 ==> viterbi::may_follow(info, #[trigger] path[t], path[t + 1])
}

/// A number below positive infinity.
pub open spec fn number(v: u32) -> bool {
    !score::is_nan(v) && score::rank(v) < score::INFINITE_MAGNITUDE
}

/// A number that is not above another.
pub open spec fn at_most(v: u32, bound: u32) -> bool {
    number(v) && score::rank(v) <= score::rank(bound)
}

/// A NaN, or a number that is not above another.
pub open spec fn nan_or_at_most(v: u32, bound: u32) -> bool {
    score::is_nan(v) || at_most(v, bound)
}

/// What rounded addition of binary32 values does: a NaN on either side gives a NaN.
/// Numbers below positive infinity give a number, greater sides never give a smaller
/// sum, and zero adds nothing.
pub open spec fn rounds(sum: spec_fn(u32, u32) -> u32) -> bool {
    &&& forall|x: u32, y: u32|
        score::is_nan(x) || score::is_nan(y) ==> score::is_nan(#[trigger] sum(x, y))
    &&& forall|x: u32, y: u32| number(x) && number(y) ==> !score::is_nan(#[trigger] sum(x, y))
    &&& forall|w: u32, x: u32, y: u32, z: u32|
        #![trigger sum(w, y), sum(x, z)]
        at_most(w, x) && at_most(y, z) && number(x) && number(z) ==> score::rank(sum(w, y))
            <= score::rank(sum(x, z))
    &&& forall|x: u32| number(x) ==> score::rank(#[trigger] sum(x, score::ZERO)) == score::rank(x)
    &&& forall|x: u32| number(x) ==> score::rank(#[trigger] sum(score::ZERO, x)) == score::rank(x)
}

/// Biases that are numbers, none of them above a bound.
pub open spec fn biases_at_most(biases: ViterbiBiases, top: u32) -> bool {
    &&& at_most(biases.transition_bias_background_stay, top)
    &&& at_most(biases.transition_bias_background_to_start, top)
    &&& at_most(biases.transition_bias_inside_to_continue, top)
    &&& at_most(biases.transition_bias_inside_to_end, top)
    &&& at_most(biases.transition_bias_end_to_background, top)
    &&& at_most(biases.transition_bias_end_to_start, top)
}

/// Log-probabilities, that is numbers not above zero, negative infinity among them; and
/// NaNs, where a model fails.
pub open spec fn log_probabilities(values: Seq<u32>) -> bool {
    forall|k: int| 0 <= k < values.len() ==> nan_or_at_most(#[trigger] values[k], score::ZERO)
}

/// The most that biases up to `top` add in `t` steps.
pub open spec fn peak(sum: spec_fn(u32, u32) -> u32, top: u32, t: int) -> u32
    decreases t,
{
    if t <= 0 {
        score::ZERO
    } else {
        sum(peak(sum, top, t - 1), top)
    }
}

/// The greater of two scores.
pub open spec fn higher(a: u32, b: u32) -> u32 {
    if score::rank(a) < score::rank(b) {
        b
    } else {
        a
    }
}

/// The most that a path with something forbidden on it can score after `t` steps.
pub open spec fn lifted(sum: spec_fn(u32, u32) -> u32, top: u32, t: int) -> u32
    decreases t,
{
    if t <= 0 {
        FORBIDDEN
    } else {
        higher(sum(lifted(sum, top, t - 1), top), sum(peak(sum, top, t - 1), FORBIDDEN))
    }
}

/// Biases up to `top` cannot make up, over `seq_len` tokens, for something forbidden:
/// what they add stays below infinity, and a path with something forbidden on it does
/// not come to score as one that is reachable.
pub open spec fn stays_forbidden(sum: spec_fn(u32, u32) -> u32, top: u32, seq_len: int) -> bool {
    &&& number(top)
    &&& score::rank(top) >= 0
    &&& forall|t: int| 0 <= t < seq_len ==> number(#[trigger] peak(sum, top, t))
    &&& !score::exceeds(lifted(sum, top, seq_len - 1), REACHABLE)
    &&& !score::exceeds(sum(peak(sum, top, seq_len - 1), FORBIDDEN), REACHABLE)
}

/// What holds of the bounds up to token `t`.
proof fn lemma_bounds(sum: spec_fn(u32, u32) -> u32, top: u32, t: int)
    requires
        rounds(sum),
        number(top),
        score::rank(top) >= 0,
        0 <= t,
        forall|k: int| 0 <= k <= t ==> number(#[trigger] peak(sum, top, k)),
    ensures
        0 <= score::rank(peak(sum, top, t)),
        number(lifted(sum, top, t)),
        score::rank(FORBIDDEN) <= score::rank(lifted(sum, top, t)) <= score::rank(
            peak(sum, top, t),
        ),
    decreases t,
{
    assert(number(score::ZERO));
    assert(number(FORBIDDEN));
    if t > 0 {
        lemma_bounds(sum, top, t - 1);
        let p = peak(sum, top, t - 1);
        let l = lifted(sum, top, t - 1);
        assert(number(p));
        assert(number(peak(sum, top, t)));
        assert(score::rank(sum(p, top)) >= score::rank(sum(p, score::ZERO)));
        assert(score::rank(sum(l, top)) <= score::rank(sum(p, top)));
        assert(score::rank(sum(p, FORBIDDEN)) <= score::rank(sum(p, top)));
        assert(score::rank(sum(p, FORBIDDEN)) >= score::rank(sum(score::ZERO, FORBIDDEN)));
    }
}

/// Every step score is a number, none above the bound.
proof fn lemma_steps_at_most(info: LabelInfo, biases: ViterbiBiases, top: u32, prev: int, next: int)
    requires
        info.wf(),
        number(top),
        score::rank(top) >= 0,
        biases_at_most(biases, top),
        0 <= prev < info.classes(),
        0 <= next < info.classes(),
    ensures
        at_most(viterbi::step_scores(info, biases).step[prev][next], top),
        !viterbi::may_follow(info, prev, next) ==> viterbi::step_scores(
            info,
            biases,
        ).step[prev][next] == FORBIDDEN,
{
    assert(viterbi::step_scores(info, biases).step[prev][next] == viterbi::step_score(
        info,
        biases,
        prev,
        next,
    ));
}

/// A row of the matrix lies within it.
proof fn lemma_entry_in_bounds(t: int, c: int, rows: int, width: int)
    requires
        0 <= t < rows,
        0 <= c < width,
    ensures
        0 <= t * width + c < rows * width,
{
    assert(0 <= t * width) by (nonlinear_arith)
        requires
            0 <= t,
            0 <= width,
    ;
    assert(t * width + width <= rows * width) by (nonlinear_arith)
        requires
            t + 1 <= rows,
            0 <= width,
    ;
}

/// What the laws ask of the input of decoding.
pub open spec fn bounded(
    sum: spec_fn(u32, u32) -> u32,
    info: LabelInfo,
    biases: ViterbiBiases,
    top: u32,
    log_probs: Seq<u32>,
    seq_len: int,
) -> bool {
    &&& info.wf()
    &&& rounds(sum)
    &&& biases_at_most(biases, top)
    &&& stays_forbidden(sum, top, seq_len)
    &&& log_probabilities(log_probs)
    &&& 0 < seq_len
    &&& log_probs.len() >= seq_len * info.classes()
}

/// The numbers among the scores of a column of the lattice are not above what biases
/// add.
proof fn lemma_column_at_most(
    sum: spec_fn(u32, u32) -> u32,
    info: LabelInfo,
    biases: ViterbiBiases,
    top: u32,
    log_probs: Seq<u32>,
    seq_len: int,
    t: int,
)
    requires
        bounded(sum, info, biases, top, log_probs, seq_len),
        0 <= t < seq_len,
    ensures
        ({
            let column = viterbi::column_at(
                sum,
                viterbi::step_scores(info, biases),
                log_probs,
                t,
            );
            &&& column.len() == info.classes()
            &&& forall|c: int|
                0 <= c < column.len() ==> nan_or_at_most(#[trigger] column[c], peak(sum, top, t))
        }),
    decreases t,
{
    let m = viterbi::step_scores(info, biases);
    let column = viterbi::column_at(sum, m, log_probs, t);
    let bound = peak(sum, top, t);
    assert(number(bound));
    assert(number(score::ZERO));
    assert(number(FORBIDDEN));
    lemma_bounds(sum, top, t);
    assert forall|c: int| 0 <= c < column.len() implies nan_or_at_most(
        #[trigger] column[c],
        bound,
    ) by {
        lemma_entry_in_bounds(t, c, seq_len, m.classes);
        let entry = log_probs[t * m.classes + c];
        assert(nan_or_at_most(entry, score::ZERO));
        if t == 0 {
            assert(column[c] == sum(log_probs[c], m.start[c]));
            assert(nan_or_at_most(log_probs[c], score::ZERO));
            assert(at_most(m.start[c], score::ZERO));
            assert(score::rank(sum(score::ZERO, score::ZERO)) == 0);
        } else {
            let before = viterbi::column_at(sum, m, log_probs, t - 1);
            lemma_column_at_most(sum, info, biases, top, log_probs, seq_len, t - 1);
            lemma_best_step(sum, info, biases, top, log_probs, seq_len, t, c);
            let best = score::best_score(viterbi::incoming(sum, m, before, c), FORBIDDEN);
            assert(column[c] == sum(best, entry));
            if !score::is_nan(entry) {
                assert(score::rank(sum(best, entry)) <= score::rank(sum(best, score::ZERO)));
            }
        }
    }
}

/// The best step out of a column scores a number that is not above what biases add, and
/// no step scores above it.
proof fn lemma_best_step(
    sum: spec_fn(u32, u32) -> u32,
    info: LabelInfo,
    biases: ViterbiBiases,
    top: u32,
    log_probs: Seq<u32>,
    seq_len: int,
    t: int,
    next: int,
)
    requires
        bounded(sum, info, biases, top, log_probs, seq_len),
        0 < t < seq_len,
        0 <= next < info.classes(),
        ({
            let before = viterbi::column_at(
                sum,
                viterbi::step_scores(info, biases),
                log_probs,
                t - 1,
            );
            &&& before.len() == info.classes()
            &&& forall|c: int|
                0 <= c < before.len() ==> nan_or_at_most(
                    #[trigger] before[c],
                    peak(sum, top, t - 1),
                )
        }),
    ensures
        ({
            let m = viterbi::step_scores(info, biases);
            let before = viterbi::column_at(sum, m, log_probs, t - 1);
            let steps = viterbi::incoming(sum, m, before, next);
            let best = score::best_score(steps, FORBIDDEN);
            &&& at_most(best, peak(sum, top, t))
            &&& forall|prev: int|
                0 <= prev < info.classes() ==> nan_or_at_most(#[trigger] steps[prev], best)
        }),
{
    let m = viterbi::step_scores(info, biases);
    let before = viterbi::column_at(sum, m, log_probs, t - 1);
    let steps = viterbi::incoming(sum, m, before, next);
    let best = score::best_score(steps, FORBIDDEN);
    let bound = peak(sum, top, t);
    let p = peak(sum, top, t - 1);
    assert(number(bound));
    assert(number(p));
    assert(number(FORBIDDEN));
    lemma_bounds(sum, top, t);
    score::lemma_first_best(steps, FORBIDDEN);
    assert forall|prev: int| 0 <= prev < info.classes() implies nan_or_at_most(
        #[trigger] steps[prev],
        bound,
    ) by {
        lemma_steps_at_most(info, biases, top, prev, next);
        assert(nan_or_at_most(before[prev], p));
        assert(steps[prev] == sum(before[prev], m.step[prev][next]));
        if !score::is_nan(before[prev]) {
            assert(score::rank(sum(before[prev], m.step[prev][next])) <= score::rank(sum(p, top)));
        }
    }
    assert forall|prev: int| 0 <= prev < info.classes() implies nan_or_at_most(
        #[trigger] steps[prev],
        best,
    ) by {
        assert(nan_or_at_most(steps[prev], bound));
        match score::first_best(steps, FORBIDDEN) {
            Some(i) => {
                assert(!score::exceeds(steps[prev], steps[i]));
            },
            None => {
                assert(!score::exceeds(steps[prev], FORBIDDEN));
            },
        }
    }
}

/// A class is live at a token: its score is above that of every path with something
/// forbidden on it.
spec fn live(
    sum: spec_fn(u32, u32) -> u32,
    info: LabelInfo,
    biases: ViterbiBiases,
    top: u32,
    log_probs: Seq<u32>,
    t: int,
    c: int,
) -> bool {
    score::exceeds(
        viterbi::column_at(sum, viterbi::step_scores(info, biases), log_probs, t)[c],
        lifted(sum, top, t),
    )
}

/// A live class is reached by an allowed step from a live class.
proof fn lemma_live_step(
    sum: spec_fn(u32, u32) -> u32,
    info: LabelInfo,
    biases: ViterbiBiases,
    top: u32,
    log_probs: Seq<u32>,
    seq_len: int,
    t: int,
    c: int,
)
    requires
        bounded(sum, info, biases, top, log_probs, seq_len),
        0 < t < seq_len,
        0 <= c < info.classes(),
        live(sum, info, biases, top, log_probs, t, c),
    ensures
        ({
            let m = viterbi::step_scores(info, biases);
            let before = viterbi::column_at(sum, m, log_probs, t - 1);
            let prev = viterbi::predecessor(sum, m, log_probs, t, c);
            &&& 0 <= prev < info.classes()
            &&& viterbi::may_follow(info, prev, c)
            &&& live(sum, info, biases, top, log_probs, t - 1, prev)
            &&& score::best_score(viterbi::incoming(sum, m, before, c), FORBIDDEN) == sum(
                before[prev],
                m.step[prev][c],
            )
        }),
{
    let m = viterbi::step_scores(info, biases);
    let before = viterbi::column_at(sum, m, log_probs, t - 1);
    let column = viterbi::column_at(sum, m, log_probs, t);
    let steps = viterbi::incoming(sum, m, before, c);
    let best = score::best_score(steps, FORBIDDEN);
    let prev = viterbi::predecessor(sum, m, log_probs, t, c);
    let p = peak(sum, top, t - 1);
    let l = lifted(sum, top, t - 1);
    lemma_entry_in_bounds(t, c, seq_len, m.classes);
    lemma_column_at_most(sum, info, biases, top, log_probs, seq_len, t - 1);
    lemma_best_step(sum, info, biases, top, log_probs, seq_len, t, c);
    lemma_bounds(sum, top, t - 1);
    lemma_bounds(sum, top, t);
    score::lemma_first_best(steps, FORBIDDEN);
    let entry = log_probs[t * m.classes + c];
    assert(nan_or_at_most(entry, score::ZERO));
    assert(number(peak(sum, top, t)));
    assert(number(score::ZERO) && number(FORBIDDEN));
    assert(column[c] == sum(best, entry));
    assert(at_most(entry, score::ZERO));
    assert(score::rank(sum(best, entry)) <= score::rank(sum(best, score::ZERO)));
    assert(score::rank(best) > score::rank(lifted(sum, top, t)));
    assert(score::first_best(steps, FORBIDDEN) is Some);
    assert(steps[prev] == sum(before[prev], m.step[prev][c]));
    lemma_steps_at_most(info, biases, top, prev, c);
    assert(number(p));
    assert(nan_or_at_most(before[prev], p));
    assert(at_most(before[prev], p));
    if !viterbi::may_follow(info, prev, c) {
        assert(score::rank(sum(before[prev], FORBIDDEN)) <= score::rank(sum(p, FORBIDDEN)));
        assert(false);
    }
    if score::rank(before[prev]) <= score::rank(l) {
        assert(score::rank(sum(before[prev], m.step[prev][c])) <= score::rank(sum(l, top)));
        assert(false);
    }
}

/// The best path to a live class opens and goes on as the label set allows, and has the
/// score that the lattice holds for the class.
proof fn lemma_live_path(
    sum: spec_fn(u32, u32) -> u32,
    info: LabelInfo,
    biases: ViterbiBiases,
    top: u32,
    log_probs: Seq<u32>,
    seq_len: int,
    t: int,
    c: int,
)
    requires
        bounded(sum, info, biases, top, log_probs, seq_len),
        0 <= t < seq_len,
        0 <= c < info.classes(),
        live(sum, info, biases, top, log_probs, t, c),
    ensures
        ({
            let m = viterbi::step_scores(info, biases);
            let path = viterbi::best_path_to(sum, m, log_probs, t, c);
            &&& path.len() == t + 1
            &&& path.last() == c
            &&& forall|k: int| 0 <= k <= t ==> 0 <= #[trigger] path[k] < info.classes()
            &&& viterbi::may_start(info, path[0])
            &&& forall|k: int|
                0 <= k < t ==> viterbi::may_follow(info, #[trigger] path[k], path[k + 1])
            &&& path_score_to(sum, m, log_probs, path, t) == viterbi::column_at(
                sum,
                m,
                log_probs,
                t,
            )[c]
        }),
    decreases t,
{
    let m = viterbi::step_scores(info, biases);
    let path = viterbi::best_path_to(sum, m, log_probs, t, c);
    lemma_entry_in_bounds(t, c, seq_len, m.classes);
    if t == 0 {
        if !viterbi::may_start(info, c) {
            assert(m.start[c] == FORBIDDEN);
            assert(nan_or_at_most(log_probs[c], score::ZERO));
            assert(number(score::ZERO) && number(FORBIDDEN));
            assert(score::rank(sum(log_probs[c], FORBIDDEN)) <= score::rank(
                sum(score::ZERO, FORBIDDEN),
            ));
            assert(false);
        }
    } else {
        let prev = viterbi::predecessor(sum, m, log_probs, t, c);
        lemma_live_step(sum, info, biases, top, log_probs, seq_len, t, c);
        lemma_live_path(sum, info, biases, top, log_probs, seq_len, t - 1, prev);
        let init = viterbi::best_path_to(sum, m, log_probs, t - 1, prev);
        assert(path == init.push(c));
        assert forall|k: int| 0 <= k < t implies viterbi::may_follow(
            info,
            #[trigger] path[k],
            path[k + 1],
        ) by {
            assert(path[k] == init[k]);
            if k == t - 1 {
                assert(path[k] == prev);
            } else {
                assert(path[k + 1] == init[k + 1]);
            }
        }
        assert forall|k: int| 0 <= k <= t implies 0 <= #[trigger] path[k] < info.classes() by {
            if k < t {
                assert(path[k] == init[k]);
            }
        }
        assert(path[0] == init[0]);
        lemma_score_of_prefix(sum, m, log_probs, init, path, t - 1);
        assert(path[t - 1] == prev);
    }
}

/// The score of a label sequence up to token `t`, summed from left to right.
pub open spec fn path_score_to(
    sum: spec_fn(u32, u32) -> u32,
    m: StepScores,
    log_probs: Seq<u32>,
    path: Seq<int>,
    t: int,
) -> u32
    decreases t,
{
    if t <= 0 {
        sum(log_probs[path[0]], m.start[path[0]])
    } else {
        sum(
            sum(path_score_to(sum, m, log_probs, path, t - 1), m.step[path[t - 1]][path[t]]),
            log_probs[t * m.classes + path[t]],
        )
    }
}

/// The score of a whole label sequence.
pub open spec fn path_score(
    sum: spec_fn(u32, u32) -> u32,
    m: StepScores,
    log_probs: Seq<u32>,
    path: Seq<int>,
) -> u32 {
    sum(path_score_to(sum, m, log_probs, path, path.len() - 1), m.end[path.last()])
}

/// Sequences that begin alike score alike.
proof fn lemma_score_of_prefix(
    sum: spec_fn(u32, u32) -> u32,
    m: StepScores,
    log_probs: Seq<u32>,
    a: Seq<int>,
    b: Seq<int>,
    t: int,
)
    requires
        0 <= t < a.len(),
        t < b.len(),
        forall|k: int| 0 <= k <= t ==> #[trigger] a[k] == b[k],
    ensures
        path_score_to(sum, m, log_probs, a, t) == path_score_to(sum, m, log_probs, b, t),
    decreases t,
{
    assert(a[t] == b[t]);
    if t > 0 {
        assert(a[t - 1] == b[t - 1]);
        lemma_score_of_prefix(sum, m, log_probs, a, b, t - 1);
    }
}

/// When a path is reachable, the best final score is above half the forbidden
/// one.
proof fn lemma_best_final(finals: Seq<u32>)
    requires
        viterbi::any_reachable(finals),
    ensures
        ({
            let last = score::best_index(finals, score::NEG_INFINITY);
            &&& 0 <= last < finals.len()
            &&& score::exceeds(finals[last], REACHABLE)
            &&& forall|c: int|
                0 <= c < finals.len() ==> !score::exceeds(#[trigger] finals[c], finals[last])
        }),
{
    score::lemma_first_best(finals, score::NEG_INFINITY);
    let c = choose|c: int|
        0 <= c < finals.len() && score::is_finite(#[trigger] finals[c]) && score::exceeds(
            finals[c],
            REACHABLE,
        );
    assert(score::exceeds(finals[c], score::NEG_INFINITY));
}

/// A final score above half the forbidden one is that of a live class which may end.
proof fn lemma_live_end(
    sum: spec_fn(u32, u32) -> u32,
    info: LabelInfo,
    biases: ViterbiBiases,
    top: u32,
    log_probs: Seq<u32>,
    seq_len: int,
    c: int,
)
    requires
        bounded(sum, info, biases, top, log_probs, seq_len),
        0 <= c < info.classes(),
        score::exceeds(
            viterbi::final_scores(
                sum,
                viterbi::step_scores(info, biases),
                log_probs,
                seq_len,
            )[c],
            REACHABLE,
        ),
    ensures
        viterbi::may_end(info, c),
        live(sum, info, biases, top, log_probs, seq_len - 1, c),
{
    let m = viterbi::step_scores(info, biases);
    let column = viterbi::column_at(sum, m, log_probs, seq_len - 1);
    let finals = viterbi::final_scores(sum, m, log_probs, seq_len);
    let p = peak(sum, top, seq_len - 1);
    let l = lifted(sum, top, seq_len - 1);
    lemma_column_at_most(sum, info, biases, top, log_probs, seq_len, seq_len - 1);
    lemma_bounds(sum, top, seq_len - 1);
    assert(number(p));
    assert(number(score::ZERO) && number(FORBIDDEN));
    assert(nan_or_at_most(column[c], p));
    assert(finals[c] == sum(column[c], m.end[c]));
    if !viterbi::may_end(info, c) {
        assert(m.end[c] == FORBIDDEN);
        assert(score::rank(sum(column[c], FORBIDDEN)) <= score::rank(sum(p, FORBIDDEN)));
        assert(false);
    }
    assert(score::rank(sum(column[c], score::ZERO)) == score::rank(column[c]));
}

/// Decoding rejects malformed sequences: when a path is reachable, the decoded sequence
/// is well formed, whatever the biases, as long as they cannot make up for something
/// forbidden.
pub proof fn law_decoded_is_well_formed(
    sum: spec_fn(u32, u32) -> u32,
    info: LabelInfo,
    biases: ViterbiBiases,
    top: u32,
    log_probs: Seq<u32>,
    seq_len: int,
)
    requires
        bounded(sum, info, biases, top, log_probs, seq_len),
        viterbi::any_reachable(
            viterbi::final_scores(sum, viterbi::step_scores(info, biases), log_probs, seq_len),
        ),
    ensures
        well_formed(
            info,
            viterbi::decoded(sum, viterbi::step_scores(info, biases), log_probs, seq_len),
        ),
{
    let m = viterbi::step_scores(info, biases);
    let finals = viterbi::final_scores(sum, m, log_probs, seq_len);
    let last = score::best_index(finals, score::NEG_INFINITY);
    lemma_best_final(finals);
    lemma_live_end(sum, info, biases, top, log_probs, seq_len, last);
    lemma_live_path(sum, info, biases, top, log_probs, seq_len, seq_len - 1, last);
}

/// A label sequence for `seq_len` tokens.
pub open spec fn is_path(classes: int, seq_len: int, path: Seq<int>) -> bool {
    &&& path.len() == seq_len
    &&& forall|t: int| 0 <= t < seq_len ==> 0 <= #[trigger] path[t] < classes
}

/// No label sequence that scores a number scores above the lattice.
proof fn lemma_lattice_bounds_paths(
    sum: spec_fn(u32, u32) -> u32,
    info: LabelInfo,
    biases: ViterbiBiases,
    top: u32,
    log_probs: Seq<u32>,
    seq_len: int,
    path: Seq<int>,
    t: int,
)
    requires
        bounded(sum, info, biases, top, log_probs, seq_len),
        is_path(info.classes() as int, seq_len, path),
        0 <= t < seq_len,
    ensures
        ({
            let m = viterbi::step_scores(info, biases);
            let scored = path_score_to(sum, m, log_probs, path, t);
            let highest = viterbi::column_at(sum, m, log_probs, t)[path[t]];
            score::is_nan(scored) || (number(highest) && at_most(scored, highest))
        }),
    decreases t,
{
    let m = viterbi::step_scores(info, biases);
    let column = viterbi::column_at(sum, m, log_probs, t);
    let c = path[t];
    lemma_entry_in_bounds(t, c, seq_len, m.classes);
    lemma_column_at_most(sum, info, biases, top, log_probs, seq_len, t);
    assert(nan_or_at_most(column[c], peak(sum, top, t)));
    assert(number(peak(sum, top, t)));
    if score::is_nan(path_score_to(sum, m, log_probs, path, t)) {
    } else if t > 0 {
        let prev = path[t - 1];
        let before = viterbi::column_at(sum, m, log_probs, t - 1);
        let steps = viterbi::incoming(sum, m, before, c);
        let best = score::best_score(steps, FORBIDDEN);
        let scored = path_score_to(sum, m, log_probs, path, t - 1);
        lemma_lattice_bounds_paths(sum, info, biases, top, log_probs, seq_len, path, t - 1);
        lemma_column_at_most(sum, info, biases, top, log_probs, seq_len, t - 1);
        lemma_best_step(sum, info, biases, top, log_probs, seq_len, t, c);
        lemma_steps_at_most(info, biases, top, prev, c);
        assert(nan_or_at_most(before[prev], peak(sum, top, t - 1)));
        assert(number(peak(sum, top, t - 1)));
        assert(steps[prev] == sum(before[prev], m.step[prev][c]));
        assert(nan_or_at_most(steps[prev], best));
        let stepped = sum(scored, m.step[prev][c]);
        assert(!score::is_nan(stepped) && !score::is_nan(scored));
        assert(score::rank(stepped) <= score::rank(steps[prev]));
        assert(at_most(stepped, best));
        let entry = log_probs[t * m.classes + c];
        assert(nan_or_at_most(entry, score::ZERO));
        assert(number(score::ZERO));
        assert(score::rank(sum(stepped, entry)) <= score::rank(sum(best, entry)));
    } else {
        assert(nan_or_at_most(log_probs[c], score::ZERO));
        assert(number(score::ZERO) && number(FORBIDDEN));
    }
}

/// No label sequence that scores a number scores above the final score of its last class.
proof fn lemma_final_bounds_path(
    sum: spec_fn(u32, u32) -> u32,
    info: LabelInfo,
    biases: ViterbiBiases,
    top: u32,
    log_probs: Seq<u32>,
    seq_len: int,
    path: Seq<int>,
)
    requires
        bounded(sum, info, biases, top, log_probs, seq_len),
        is_path(info.classes() as int, seq_len, path),
    ensures
        ({
            let m = viterbi::step_scores(info, biases);
            let finals = viterbi::final_scores(sum, m, log_probs, seq_len);
            let scored = path_score(sum, m, log_probs, path);
            score::is_nan(scored) || (number(finals[path.last()]) && at_most(
                scored,
                finals[path.last()],
            ))
        }),
{
    let m = viterbi::step_scores(info, biases);
    let last = path[seq_len - 1];
    let column = viterbi::column_at(sum, m, log_probs, seq_len - 1);
    let finals = viterbi::final_scores(sum, m, log_probs, seq_len);
    let p = peak(sum, top, seq_len - 1);
    lemma_lattice_bounds_paths(sum, info, biases, top, log_probs, seq_len, path, seq_len - 1);
    lemma_column_at_most(sum, info, biases, top, log_probs, seq_len, seq_len - 1);
    assert(nan_or_at_most(column[last], p));
    assert(number(p));
    assert(number(score::ZERO) && number(FORBIDDEN));
    assert(at_most(m.end[last], score::ZERO));
    assert(finals[last] == sum(column[last], m.end[last]));
    let scored = path_score_to(sum, m, log_probs, path, seq_len - 1);
    if !score::is_nan(path_score(sum, m, log_probs, path)) {
        assert(!score::is_nan(scored));
        assert(score::rank(sum(column[last], m.end[last])) <= score::rank(sum(p, score::ZERO)));
        assert(score::rank(sum(scored, m.end[last])) <= score::rank(
            sum(column[last], m.end[last]),
        ));
    }
}

/// Decoding finds a best sequence: a reachable decoded sequence is well formed, and no
/// other sequence scores above it.
pub proof fn law_decoded_is_best(
    sum: spec_fn(u32, u32) -> u32,
    info: LabelInfo,
    biases: ViterbiBiases,
    top: u32,
    log_probs: Seq<u32>,
    seq_len: int,
    other: Seq<int>,
)
    requires
        bounded(sum, info, biases, top, log_probs, seq_len),
        viterbi::any_reachable(
            viterbi::final_scores(sum, viterbi::step_scores(info, biases), log_probs, seq_len),
        ),
        is_path(info.classes() as int, seq_len, other),
    ensures
        ({
            let m = viterbi::step_scores(info, biases);
            let path = viterbi::decoded(sum, m, log_probs, seq_len);
            &&& well_formed(info, path)
            &&& !score::exceeds(
                path_score(sum, m, log_probs, other),
                path_score(sum, m, log_probs, path),
            )
        }),
{
    let m = viterbi::step_scores(info, biases);
    let path = viterbi::decoded(sum, m, log_probs, seq_len);
    let finals = viterbi::final_scores(sum, m, log_probs, seq_len);
    let last = score::best_index(finals, score::NEG_INFINITY);
    law_decoded_is_well_formed(sum, info, biases, top, log_probs, seq_len);
    lemma_best_final(finals);
    lemma_live_end(sum, info, biases, top, log_probs, seq_len, last);
    lemma_live_path(sum, info, biases, top, log_probs, seq_len, seq_len - 1, last);
    assert(path_score(sum, m, log_probs, path) == finals[last]);
    lemma_final_bounds_path(sum, info, biases, top, log_probs, seq_len, other);
    assert(!score::exceeds(finals[other.last()], finals[last])) by {
        assert(0 <= other[seq_len - 1] < info.classes());
    }
}

/// A reachable decoded sequence has as many labels as there are tokens, and scores a
/// number.
pub proof fn lemma_decoded_is_good(
    sum: spec_fn(u32, u32) -> u32,
    info: LabelInfo,
    biases: ViterbiBiases,
    top: u32,
    log_probs: Seq<u32>,
    seq_len: int,
)
    requires
        bounded(sum, info, biases, top, log_probs, seq_len),
        viterbi::any_reachable(
            viterbi::final_scores(sum, viterbi::step_scores(info, biases), log_probs, seq_len),
        ),
    ensures
        ({
            let m = viterbi::step_scores(info, biases);
            let path = viterbi::decoded(sum, m, log_probs, seq_len);
            &&& path.len() == seq_len
            &&& !score::is_nan(path_score(sum, m, log_probs, path))
        }),
{
    let m = viterbi::step_scores(info, biases);
    let finals = viterbi::final_scores(sum, m, log_probs, seq_len);
    let last = score::best_index(finals, score::NEG_INFINITY);
    let path = viterbi::decoded(sum, m, log_probs, seq_len);
    lemma_best_final(finals);
    lemma_live_end(sum, info, biases, top, log_probs, seq_len, last);
    lemma_live_path(sum, info, biases, top, log_probs, seq_len, seq_len - 1, last);
    assert(path_score(sum, m, log_probs, path) == finals[last]);
}

/// Decoding falls back to the best class of each token only where it must: when
/// some label sequence scores above half the forbidden score, a path is
/// reachable.
pub proof fn law_good_path_is_reachable(
    sum: spec_fn(u32, u32) -> u32,
    info: LabelInfo,
    biases: ViterbiBiases,
    top: u32,
    log_probs: Seq<u32>,
    seq_len: int,
    path: Seq<int>,
)
    requires
        bounded(sum, info, biases, top, log_probs, seq_len),
        is_path(info.classes() as int, seq_len, path),
        score::exceeds(
            path_score(sum, viterbi::step_scores(info, biases), log_probs, path),
            REACHABLE,
        ),
    ensures
        viterbi::any_reachable(
            viterbi::final_scores(sum, viterbi::step_scores(info, biases), log_probs, seq_len),
        ),
{
    let m = viterbi::step_scores(info, biases);
    let finals = viterbi::final_scores(sum, m, log_probs, seq_len);
    lemma_final_bounds_path(sum, info, biases, top, log_probs, seq_len, path);
    assert(0 <= path[seq_len - 1] < info.classes());
    assert(score::is_finite(finals[path.last()]));
}

/// Some label sequence has a finite score above half the forbidden score.
pub open spec fn some_path_is_good(
    sum: spec_fn(u32, u32) -> u32,
    m: StepScores,
    log_probs: Seq<u32>,
    seq_len: int,
) -> bool {
    exists|path: Seq<int>| #[trigger]
        is_path(m.classes, seq_len, path) && score::is_finite(path_score(sum, m, log_probs, path))
            && score::exceeds(path_score(sum, m, log_probs, path), REACHABLE)
}

/// Decoding falls back to the best class of each token exactly where it must: where no
/// label sequence has a finite score above half the forbidden score, as when every
/// log-probability is negative infinity or a NaN. Without tokens there are no labels.
pub proof fn law_falls_back_where_no_path_is_good(
    sum: spec_fn(u32, u32) -> u32,
    info: LabelInfo,
    biases: ViterbiBiases,
    top: u32,
    log_probs: Seq<u32>,
    seq_len: int,
)
    requires
        0 <= seq_len,
        seq_len > 0 ==> bounded(sum, info, biases, top, log_probs, seq_len),
    ensures
        ({
            let m = viterbi::step_scores(info, biases);
            let finals = viterbi::final_scores(sum, m, log_probs, seq_len);
            let decoded = viterbi::decoded(sum, m, log_probs, seq_len);
            &&& seq_len > 0 ==> (viterbi::any_reachable(finals) <==> some_path_is_good(
                sum,
                m,
                log_probs,
                seq_len,
            ))
            &&& seq_len > 0 && !some_path_is_good(sum, m, log_probs, seq_len) ==> decoded
                == Seq::new(seq_len as nat, |t: int| viterbi::row_best(log_probs, m.classes, t))
            &&& seq_len == 0 ==> decoded == Seq::<int>::empty()
        }),
{
    let m = viterbi::step_scores(info, biases);
    let finals = viterbi::final_scores(sum, m, log_probs, seq_len);
    if seq_len > 0 {
        if viterbi::any_reachable(finals) {
            let c = choose|c: int|
                0 <= c < finals.len() && score::is_finite(#[trigger] finals[c]) && score::exceeds(
                    finals[c],
                    REACHABLE,
                );
            lemma_live_end(sum, info, biases, top, log_probs, seq_len, c);
            lemma_live_path(sum, info, biases, top, log_probs, seq_len, seq_len - 1, c);
            let path = viterbi::best_path_to(sum, m, log_probs, seq_len - 1, c);
            assert(is_path(m.classes, seq_len, path));
            assert(path_score(sum, m, log_probs, path) == finals[c]);
        }
        if some_path_is_good(sum, m, log_probs, seq_len) {
            let path = choose|path: Seq<int>| #[trigger]
                is_path(m.classes, seq_len, path) && score::is_finite(
                    path_score(sum, m, log_probs, path),
                ) && score::exceeds(path_score(sum, m, log_probs, path), REACHABLE);
            law_good_path_is_reachable(sum, info, biases, top, log_probs, seq_len, path);
        }
    }
}

/// The score, up to token `t`, of a label sequence that starts at token `s`, and, where
/// that is not the first token, from the forbidden score.
pub open spec fn score_from(
    sum: spec_fn(u32, u32) -> u32,
    m: StepScores,
    log_probs: Seq<u32>,
    path: Seq<int>,
    s: int,
    t: int,
) -> u32
    decreases t,
{
    if t <= 0 {
        sum(log_probs[path[0]], m.start[path[0]])
    } else if t <= s {
        sum(FORBIDDEN, log_probs[t * m.classes + path[t]])
    } else {
        sum(
            sum(score_from(sum, m, log_probs, path, s, t - 1), m.step[path[t - 1]][path[t]]),
            log_probs[t * m.classes + path[t]],
        )
    }
}

/// A label sequence that starts over at token `s`, behind the first token and from the
/// forbidden score, has a finite score above half of it.
pub open spec fn restarts_well(
    sum: spec_fn(u32, u32) -> u32,
    m: StepScores,
    log_probs: Seq<u32>,
    seq_len: int,
    path: Seq<int>,
    s: int,
) -> bool {
    let scored = sum(score_from(sum, m, log_probs, path, s, seq_len - 1), m.end[path.last()]);
    &&& is_path(m.classes, seq_len, path)
    &&& 0 < s < seq_len
    &&& score::is_finite(scored)
    &&& score::exceeds(scored, REACHABLE)
}

/// Some label sequence that starts over from the forbidden score has a finite score above
/// half of it, as scores or biases of hundreds of millions can bring about.
pub open spec fn some_restart_is_good(
    sum: spec_fn(u32, u32) -> u32,
    m: StepScores,
    log_probs: Seq<u32>,
    seq_len: int,
) -> bool {
    exists|path: Seq<int>, s: int| #[trigger] restarts_well(sum, m, log_probs, seq_len, path, s)
}

/// A label sequence that ends in class `c` at token `t` has the score that the lattice
/// holds there.
spec fn traces(
    sum: spec_fn(u32, u32) -> u32,
    m: StepScores,
    log_probs: Seq<u32>,
    path: Seq<int>,
    s: int,
    t: int,
    c: int,
) -> bool {
    &&& is_path(m.classes, t + 1, path)
    &&& 0 <= s <= t
    &&& path[t] == c
    &&& score_from(sum, m, log_probs, path, s, t) == viterbi::column_at(sum, m, log_probs, t)[c]
}

/// Sequences that begin alike score alike, from the same token on.
proof fn lemma_score_from_prefix(
    sum: spec_fn(u32, u32) -> u32,
    m: StepScores,
    log_probs: Seq<u32>,
    a: Seq<int>,
    b: Seq<int>,
    s: int,
    t: int,
)
    requires
        0 <= t < a.len(),
        t < b.len(),
        forall|k: int| 0 <= k <= t ==> #[trigger] a[k] == b[k],
    ensures
        score_from(sum, m, log_probs, a, s, t) == score_from(sum, m, log_probs, b, s, t),
    decreases t,
{
    assert(a[t] == b[t]);
    if t > 0 {
        assert(a[t - 1] == b[t - 1]);
        lemma_score_from_prefix(sum, m, log_probs, a, b, s, t - 1);
    }
}

/// The score of a label sequence from its first token on.
proof fn lemma_score_from_start(
    sum: spec_fn(u32, u32) -> u32,
    m: StepScores,
    log_probs: Seq<u32>,
    path: Seq<int>,
    t: int,
)
    ensures
        score_from(sum, m, log_probs, path, 0, t) == path_score_to(sum, m, log_probs, path, t),
    decreases t,
{
    if t > 0 {
        lemma_score_from_start(sum, m, log_probs, path, t - 1);
    }
}

/// Every score of the lattice is that of a label sequence, whatever the addition and the
/// scores are.
proof fn lemma_lattice_traces(
    sum: spec_fn(u32, u32) -> u32,
    m: StepScores,
    log_probs: Seq<u32>,
    t: int,
    c: int,
)
    requires
        0 <= t,
        0 <= c < m.classes,
    ensures
        exists|path: Seq<int>, s: int| #[trigger] traces(sum, m, log_probs, path, s, t, c),
    decreases t,
{
    if t == 0 {
        let path = seq![c];
        assert(traces(sum, m, log_probs, path, 0, 0, c));
    } else {
        let before = viterbi::column_at(sum, m, log_probs, t - 1);
        let steps = viterbi::incoming(sum, m, before, c);
        score::lemma_first_best(steps, FORBIDDEN);
        match score::first_best(steps, FORBIDDEN) {
            Some(prev) => {
                lemma_lattice_traces(sum, m, log_probs, t - 1, prev);
                let (init, s) = choose|path: Seq<int>, s: int| #[trigger]
                    traces(sum, m, log_probs, path, s, t - 1, prev);
                let path = init.push(c);
                assert forall|k: int| 0 <= k < t + 1 implies 0 <= #[trigger] path[k] < m.classes by {
                    if k < t {
                        assert(path[k] == init[k]);
                    }
                }
                assert(path[t - 1] == init[t - 1]);
                lemma_score_from_prefix(sum, m, log_probs, init, path, s, t - 1);
                assert(traces(sum, m, log_probs, path, s, t, c));
            },
            None => {
                let path = Seq::new((t + 1) as nat, |k: int| c);
                assert(traces(sum, m, log_probs, path, t, t, c));
            },
        }
    }
}

/// Decoding falls back to the best class of each token where no label sequence has a
/// finite score above half the forbidden score, not even one that starts over from the
/// forbidden score. This holds of every addition, all biases and all scores. Without
/// tokens there are no labels.
pub proof fn law_falls_back_where_nothing_is_good(
    sum: spec_fn(u32, u32) -> u32,
    m: StepScores,
    log_probs: Seq<u32>,
    seq_len: int,
)
    requires
        m.wf(),
        0 <= seq_len,
        !some_path_is_good(sum, m, log_probs, seq_len),
        !some_restart_is_good(sum, m, log_probs, seq_len),
    ensures
        viterbi::decoded(sum, m, log_probs, seq_len) == Seq::new(
            seq_len as nat,
            |t: int| viterbi::row_best(log_probs, m.classes, t),
        ),
{
    let finals = viterbi::final_scores(sum, m, log_probs, seq_len);
    if seq_len == 0 {
        assert(viterbi::decoded(sum, m, log_probs, seq_len) =~= Seq::new(
            0,
            |t: int| viterbi::row_best(log_probs, m.classes, t),
        ));
    } else if viterbi::any_reachable(finals) {
        let c = choose|c: int|
            0 <= c < finals.len() && score::is_finite(#[trigger] finals[c]) && score::exceeds(
                finals[c],
                REACHABLE,
            );
        lemma_lattice_traces(sum, m, log_probs, seq_len - 1, c);
        let (path, s) = choose|path: Seq<int>, s: int| #[trigger]
            traces(sum, m, log_probs, path, s, seq_len - 1, c);
        assert(path.last() == c);
        if s == 0 {
            lemma_score_from_start(sum, m, log_probs, path, seq_len - 1);
            assert(is_path(m.classes, seq_len, path));
            assert(path_score(sum, m, log_probs, path) == finals[c]);
        } else {
            assert(restarts_well(sum, m, log_probs, seq_len, path, s));
        }
        assert(false);
    }
}

/// A NaN, or a number below positive infinity.
pub open spec fn nan_or_number(v: u32) -> bool {
    score::is_nan(v) || number(v)
}

/// No sum of the lattice overflows: neither what goes into it nor what it holds is
/// positive infinity.
pub open spec fn overflows_nowhere(
    sum: spec_fn(u32, u32) -> u32,
    m: StepScores,
    log_probs: Seq<u32>,
    seq_len: int,
) -> bool {
    &&& log_probs.len() >= seq_len * m.classes
    &&& forall|k: int| 0 <= k < log_probs.len() ==> nan_or_number(#[trigger] log_probs[k])
    &&& forall|c: int| 0 <= c < m.classes ==> number(#[trigger] m.start[c])
    &&& forall|c: int| 0 <= c < m.classes ==> number(#[trigger] m.end[c])
    &&& forall|p: int, c: int|
        0 <= p < m.classes && 0 <= c < m.classes ==> number(#[trigger] m.step[p][c])
    &&& forall|t: int, c: int|
        0 <= t < seq_len && 0 <= c < m.classes ==> nan_or_number(
            #[trigger] viterbi::column_at(sum, m, log_probs, t)[c],
        )
    &&& forall|t: int, p: int, c: int|
        0 <= t < seq_len && 0 <= p < m.classes && 0 <= c < m.classes ==> nan_or_number(
            #[trigger] sum(viterbi::column_at(sum, m, log_probs, t)[p], m.step[p][c]),
        )
    &&& forall|c: int|
        0 <= c < m.classes ==> nan_or_number(
            #[trigger] viterbi::final_scores(sum, m, log_probs, seq_len)[c],
        )
}

/// The best step into a class is a number, and not below the forbidden score or a step.
proof fn lemma_best_of_steps(steps: Seq<u32>)
    requires
        forall|k: int| 0 <= k < steps.len() ==> nan_or_number(#[trigger] steps[k]),
    ensures
        number(score::best_score(steps, FORBIDDEN)),
        at_most(FORBIDDEN, score::best_score(steps, FORBIDDEN)),
        forall|k: int|
            0 <= k < steps.len() ==> nan_or_at_most(
                #[trigger] steps[k],
                score::best_score(steps, FORBIDDEN),
            ),
{
    let best = score::best_score(steps, FORBIDDEN);
    assert(number(FORBIDDEN));
    score::lemma_first_best(steps, FORBIDDEN);
    assert forall|k: int| 0 <= k < steps.len() implies nan_or_at_most(#[trigger] steps[k], best) by {
        assert(nan_or_number(steps[k]));
        match score::first_best(steps, FORBIDDEN) {
            Some(i) => {
                assert(!score::exceeds(steps[k], steps[i]));
            },
            None => {
                assert(!score::exceeds(steps[k], FORBIDDEN));
            },
        }
    }
    if let Some(i) = score::first_best(steps, FORBIDDEN) {
        assert(nan_or_number(steps[i]));
    }
}

/// No label sequence that scores a number scores above the lattice, wherever it starts.
proof fn lemma_lattice_bounds_all(
    sum: spec_fn(u32, u32) -> u32,
    m: StepScores,
    log_probs: Seq<u32>,
    seq_len: int,
    path: Seq<int>,
    s: int,
    t: int,
)
    requires
        rounds(sum),
        overflows_nowhere(sum, m, log_probs, seq_len),
        is_path(m.classes, seq_len, path),
        0 <= s <= t < seq_len,
    ensures
        ({
            let scored = score_from(sum, m, log_probs, path, s, t);
            let highest = viterbi::column_at(sum, m, log_probs, t)[path[t]];
            score::is_nan(scored) || (number(highest) && at_most(scored, highest))
        }),
    decreases t,
{
    let c = path[t];
    let scored = score_from(sum, m, log_probs, path, s, t);
    let column = viterbi::column_at(sum, m, log_probs, t);
    lemma_entry_in_bounds(t, c, seq_len, m.classes);
    assert(nan_or_number(column[c]));
    if t > 0 && !score::is_nan(scored) {
        let before = viterbi::column_at(sum, m, log_probs, t - 1);
        let steps = viterbi::incoming(sum, m, before, c);
        let best = score::best_score(steps, FORBIDDEN);
        let entry = log_probs[t * m.classes + c];
        assert(nan_or_number(entry));
        assert(column[c] == sum(best, entry));
        assert forall|p: int| 0 <= p < steps.len() implies nan_or_number(#[trigger] steps[p]) by {
            assert(steps[p] == sum(before[p], m.step[p][c]));
        }
        lemma_best_of_steps(steps);
        if t <= s {
            assert(score::rank(sum(FORBIDDEN, entry)) <= score::rank(sum(best, entry)));
        } else {
            let prev = path[t - 1];
            let had = score_from(sum, m, log_probs, path, s, t - 1);
            let stepped = sum(had, m.step[prev][c]);
            lemma_lattice_bounds_all(sum, m, log_probs, seq_len, path, s, t - 1);
            assert(!score::is_nan(stepped) && !score::is_nan(had));
            assert(number(m.step[prev][c]));
            assert(steps[prev] == sum(before[prev], m.step[prev][c]));
            assert(score::rank(stepped) <= score::rank(steps[prev]));
            assert(nan_or_at_most(steps[prev], best));
            assert(at_most(stepped, best));
            assert(score::rank(sum(stepped, entry)) <= score::rank(sum(best, entry)));
        }
    }
}

/// Decoding does not fall back where it need not: when the sums do not overflow and some
/// label sequence has a finite score above half the forbidden score, be it one that starts
/// over from the forbidden score, a path is reachable.
pub proof fn law_decodes_where_something_is_good(
    sum: spec_fn(u32, u32) -> u32,
    m: StepScores,
    log_probs: Seq<u32>,
    seq_len: int,
)
    requires
        m.wf(),
        0 < seq_len,
        rounds(sum),
        overflows_nowhere(sum, m, log_probs, seq_len),
        some_path_is_good(sum, m, log_probs, seq_len) || some_restart_is_good(
            sum,
            m,
            log_probs,
            seq_len,
        ),
    ensures
        viterbi::any_reachable(viterbi::final_scores(sum, m, log_probs, seq_len)),
{
    let finals = viterbi::final_scores(sum, m, log_probs, seq_len);
    let last = seq_len - 1;
    let (path, s): (Seq<int>, int) = if some_restart_is_good(sum, m, log_probs, seq_len) {
        choose|path: Seq<int>, s: int| #[trigger]
            restarts_well(sum, m, log_probs, seq_len, path, s)
    } else {
        (
            choose|path: Seq<int>| #[trigger]
                is_path(m.classes, seq_len, path) && score::is_finite(
                    path_score(sum, m, log_probs, path),
                ) && score::exceeds(path_score(sum, m, log_probs, path), REACHABLE),
            0,
        )
    };
    lemma_score_from_start(sum, m, log_probs, path, last);
    let c = path[last];
    let column = viterbi::column_at(sum, m, log_probs, last);
    let had = score_from(sum, m, log_probs, path, s, last);
    let scored = sum(had, m.end[c]);
    assert(path.last() == c);
    assert(score::exceeds(scored, REACHABLE));
    lemma_lattice_bounds_all(sum, m, log_probs, seq_len, path, s, last);
    assert(!score::is_nan(had));
    assert(number(m.end[c]));
    assert(finals[c] == sum(column[c], m.end[c]));
    assert(nan_or_number(finals[c]));
    assert(score::rank(scored) <= score::rank(finals[c]));
    assert(score::is_finite(finals[c]));
}

/// Biases that are not above zero never make up for something forbidden, however many
/// tokens there are.
pub proof fn law_nonpositive_biases_stay_forbidden(sum: spec_fn(u32, u32) -> u32, seq_len: int)
    requires
        rounds(sum),
        0 < seq_len,
    ensures
        stays_forbidden(sum, score::ZERO, seq_len),
{
    assert forall|t: int| 0 <= t < seq_len implies number(#[trigger] peak(sum, score::ZERO, t)) by {
        lemma_nothing_is_added(sum, t);
    }
    lemma_nothing_is_added(sum, seq_len - 1);
    let p = peak(sum, score::ZERO, seq_len - 1);
    assert(number(FORBIDDEN));
    assert(score::rank(sum(p, FORBIDDEN)) <= score::rank(sum(score::ZERO, FORBIDDEN)));
}

proof fn lemma_nothing_is_added(sum: spec_fn(u32, u32) -> u32, t: int)
    requires
        rounds(sum),
        0 <= t,
    ensures
        number(peak(sum, score::ZERO, t)),
        score::rank(peak(sum, score::ZERO, t)) == 0,
        number(lifted(sum, score::ZERO, t)),
        score::rank(lifted(sum, score::ZERO, t)) == score::rank(FORBIDDEN),
    decreases t,
{
    assert(number(score::ZERO) && number(FORBIDDEN));
    if t > 0 {
        lemma_nothing_is_added(sum, t - 1);
        let p = peak(sum, score::ZERO, t - 1);
        let l = lifted(sum, score::ZERO, t - 1);
        assert(score::rank(sum(p, score::ZERO)) == 0);
        assert(score::rank(sum(l, score::ZERO)) == score::rank(FORBIDDEN));
        assert(score::rank(sum(p, FORBIDDEN)) <= score::rank(sum(score::ZERO, FORBIDDEN)));
        assert(score::rank(sum(score::ZERO, FORBIDDEN)) <= score::rank(sum(p, FORBIDDEN)));
        assert(!score::is_nan(sum(p, score::ZERO)));
        assert(!score::is_nan(sum(l, score::ZERO)));
    }
}

/// Biases of zero change nothing: every allowed step costs nothing, and every
/// other step is forbidden.
pub proof fn law_zero_biases_only_constrain(info: LabelInfo, prev: int, next: int)
    requires
        info.wf(),
        0 <= prev < info.classes(),
        0 <= next < info.classes(),
    ensures
        viterbi::step_scores(info, viterbi::no_biases()).step[prev][next] == (if viterbi::may_follow(
            info,
            prev,
            next,
        ) {
            score::ZERO
        } else {
            FORBIDDEN
        }),
{
}

} // verus!
