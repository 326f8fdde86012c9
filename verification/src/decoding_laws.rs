//! Which label sequences spell out spans, and that decoding finds the best of them.

use vstd::prelude::*;

use crate::labels::{Boundary, LabelInfo};
use crate::score;
use crate::viterbi;
use crate::viterbi::ViterbiBiases;
use crate::viterbi_laws;

verus! {

/// The steps that are allowed, by boundary. Behind a class that begins a span or goes on
/// with one, whatever its place in the span, comes one that goes on with it or ends it,
/// under the same span label. Behind any other comes the background, or the begin of a
/// span.
pub proof fn law_steps_by_boundary(info: LabelInfo, prev: int, next: int)
    requires
        info.wf(),
        0 <= prev < info.classes(),
        0 <= next < info.classes(),
    ensures
        ({
            let inside = prev != info.background_idx && (info.boundary@[prev] == Boundary::B
                || info.boundary@[prev] == Boundary::I);
            let same = match (info.span_label@[prev], info.span_label@[next]) {
                (Some(a), Some(b)) => a@ == b@,
                (None, None) => true,
                _ => false,
            };
            &&& inside ==> (viterbi::may_follow(info, prev, next) <==> same && (
            info.boundary@[next] == Boundary::I || info.boundary@[next] == Boundary::E))
            &&& !inside ==> (viterbi::may_follow(info, prev, next) <==> next == info.background_idx
                || info.boundary@[next] == Boundary::B || info.boundary@[next] == Boundary::S)
            &&& viterbi::may_start(info, next) <==> next == info.background_idx
                || info.boundary@[next] == Boundary::B || info.boundary@[next] == Boundary::S
            &&& viterbi::may_end(info, next) <==> next == info.background_idx
                || info.boundary@[next] == Boundary::E || info.boundary@[next] == Boundary::S
        }),
{
}

/// What starts, steps and ends cost: what is allowed costs nothing but the bias of its
/// kind, and what is not costs a thousand million.
pub proof fn law_step_costs(info: LabelInfo, biases: ViterbiBiases, prev: int, next: int)
    requires
        info.wf(),
        0 <= prev < info.classes(),
        0 <= next < info.classes(),
    ensures
        ({
            let m = viterbi::step_scores(info, biases);
            let cost = m.step[prev][next];
            let bg = info.background_idx as int;
            let b = info.boundary@[prev];
            let c = info.boundary@[next];
            let starts = c == Boundary::B || c == Boundary::S;
            let inside = prev != bg && (b == Boundary::B || b == Boundary::I);
            let behind = prev != bg && (b == Boundary::E || b == Boundary::S);
            &&& m.classes == info.id2label@.len()
            &&& m.start.len() == m.classes && m.end.len() == m.classes && m.step.len() == m.classes
            &&& m.step[prev].len() == m.classes
            &&& m.start[next] == (if next == bg || starts {
                0u32
            } else {
                0xce6e_6b28u32
            })
            &&& m.end[next] == (if next == bg || c == Boundary::E || c == Boundary::S {
                0u32
            } else {
                0xce6e_6b28u32
            })
            &&& !viterbi::may_follow(info, prev, next) ==> cost == 0xce6e_6b28u32
            &&& viterbi::may_follow(info, prev, next) ==> {
                &&& prev == bg && next == bg ==> cost == biases.transition_bias_background_stay
                &&& prev == bg && next != bg ==> cost == biases.transition_bias_background_to_start
                &&& inside && c == Boundary::I ==> cost == biases.transition_bias_inside_to_continue
                &&& inside && c == Boundary::E ==> cost == biases.transition_bias_inside_to_end
                &&& behind && next == bg ==> cost == biases.transition_bias_end_to_background
                &&& behind && next != bg ==> cost == biases.transition_bias_end_to_start
                &&& prev != bg && b == Boundary::Background ==> cost == 0u32
            }
        }),
{
}

/// What the biases are when nothing is said of them, and where a path counts as reached:
/// above half of what something forbidden costs.
pub proof fn law_score_constants()
    ensures
        viterbi::no_biases().transition_bias_background_stay == 0,
        viterbi::no_biases().transition_bias_background_to_start == 0,
        viterbi::no_biases().transition_bias_inside_to_continue == 0,
        viterbi::no_biases().transition_bias_inside_to_end == 0,
        viterbi::no_biases().transition_bias_end_to_background == 0,
        viterbi::no_biases().transition_bias_end_to_start == 0,
        viterbi::FORBIDDEN == 0xce6e_6b28,
        viterbi::REACHABLE + 0x80_0000 == viterbi::FORBIDDEN,
        score::ZERO == 0,
        score::NEG_INFINITY == 0xff80_0000,
{
}

/// The order of scores, on their bits: of two numbers without a sign the one with the
/// greater bits is greater, of two with a sign the one with the smaller bits, and one
/// without a sign is greater than one with a sign unless both are zero. What holds no
/// number is never greater, nor is anything greater than it.
pub proof fn law_order_on_bits(a: u32, b: u32)
    ensures
        score::is_nan(a) <==> 0x7f80_0000 < a % 0x8000_0000,
        score::is_finite(a) <==> a % 0x8000_0000 < 0x7f80_0000,
        score::is_nan(a) || score::is_nan(b) ==> !score::exceeds(a, b),
        !score::is_nan(a) && !score::is_nan(b) ==> {
            &&& a < 0x8000_0000 && b < 0x8000_0000 ==> (score::exceeds(a, b) <==> a > b)
            &&& a >= 0x8000_0000 && b >= 0x8000_0000 ==> (score::exceeds(a, b) <==> a < b)
            &&& a < 0x8000_0000 && b >= 0x8000_0000 ==> (score::exceeds(a, b) <==> a > 0 || b
                > 0x8000_0000)
            &&& a >= 0x8000_0000 && b < 0x8000_0000 ==> !score::exceeds(a, b)
            &&& score::rank(a) > score::rank(b) <==> score::exceeds(a, b)
        },
{
}

/// The best class of a token: no other of its scores is greater, each before it is
/// smaller or no number; and where no score is above negative infinity, the first class.
pub proof fn law_best_class_of_a_token(log_probs: Seq<u32>, classes: int, rows: int, t: int, j: int)
    requires
        0 <= t < rows,
        0 <= j < classes,
        rows * classes <= log_probs.len(),
    ensures
        ({
            let best = viterbi::row_best(log_probs, classes, t);
            let top = log_probs[t * classes + best];
            let own = log_probs[t * classes + j];
            &&& 0 <= best < classes
            &&& !score::exceeds(own, top)
            &&& j < best ==> score::exceeds(top, own) || score::is_nan(own)
            &&& best > 0 ==> score::exceeds(top, 0xff80_0000)
            &&& score::exceeds(own, 0xff80_0000) ==> !score::is_nan(top)
        }),
{
    let row = log_probs.subrange(t * classes, t * classes + classes);
    assert(0 <= t * classes && t * classes + classes <= rows * classes) by (nonlinear_arith)
        requires
            0 <= t < rows,
            0 <= classes,
    ;
    score::lemma_first_best(row, score::NEG_INFINITY);
    assert(row[j] == log_probs[t * classes + j]);
    let best = viterbi::row_best(log_probs, classes, t);
    assert(row[best] == log_probs[t * classes + best]);
    match score::first_best(row, score::NEG_INFINITY) {
        Some(i) => {
            assert(!score::exceeds(row[j], row[i]));
            if j < i {
                assert(!(!score::is_nan(row[j]) && score::rank(row[j]) >= score::rank(row[i])));
            }
        },
        None => {
            assert(!score::exceeds(row[j], score::NEG_INFINITY));
            assert(!score::exceeds(row[0], score::NEG_INFINITY));
        },
    }
}

/// Labels that stand for one whole thing: a background token, a span of one token, or a
/// span that is begun, gone on with and ended under one span label.
pub open spec fn is_whole(info: LabelInfo, path: Seq<int>) -> bool {
    ||| path.len() == 1 && (path[0] == info.background_idx || info.boundary@[path[0]]
        == Boundary::S)
    ||| {
        &&& path.len() >= 2
        &&& info.boundary@[path[0]] == Boundary::B
        &&& forall|t: int| 0 < t < path.len() - 1 ==> info.boundary@[#[trigger] path[t]] == Boundary::I
        &&& info.boundary@[path[path.len() - 1]] == Boundary::E
        &&& forall|t: int|
            0 <= t < path.len() ==> info.span_name(#[trigger] path[t]) == info.span_name(path[0])
    }
}

/// A label sequence that is one whole thing after the other.
pub open spec fn made_of_wholes(info: LabelInfo, path: Seq<int>) -> bool
    decreases path.len(),
{
    path.len() == 0 || exists|k: int|
        0 <= k < path.len() && is_whole(info, #[trigger] path.skip(k)) && made_of_wholes(
            info,
            path.take(k),
        )
}

/// The labels name classes, and the background class is one without a boundary.
pub open spec fn names_classes(info: LabelInfo, path: Seq<int>) -> bool {
    &&& info.wf()
    &&& info.background_idx < info.classes()
    &&& info.boundary@[info.background_idx as int] == Boundary::Background
    &&& forall|t: int| 0 <= t < path.len() ==> 0 <= #[trigger] path[t] < info.classes()
}

/// A label that goes on with a span or ends it lies behind the begin of that span.
proof fn lemma_span_begins(info: LabelInfo, path: Seq<int>, j: int) -> (k: int)
    requires
        names_classes(info, path),
        viterbi_laws::well_formed(info, path),
        0 <= j < path.len(),
        info.boundary@[path[j]] == Boundary::I || info.boundary@[path[j]] == Boundary::E,
    ensures
        0 <= k < j,
        info.boundary@[path[k]] == Boundary::B,
        forall|t: int| k < t < j ==> info.boundary@[#[trigger] path[t]] == Boundary::I,
        forall|t: int| k <= t <= j ==> info.span_name(#[trigger] path[t]) == info.span_name(path[k]),
    decreases j,
{
    assert(j > 0);
    assert(viterbi::may_follow(info, path[j - 1], path[j - 1 + 1]));
    if info.boundary@[path[j - 1]] == Boundary::B {
        j - 1
    } else {
        lemma_span_begins(info, path, j - 1)
    }
}

/// The label in front of a background token or of the begin of a span closes what it
/// belongs to.
proof fn lemma_closed_before(info: LabelInfo, path: Seq<int>, k: int)
    requires
        names_classes(info, path),
        viterbi_laws::well_formed(info, path),
        0 < k < path.len(),
        path[k] == info.background_idx || info.boundary@[path[k]] == Boundary::B
            || info.boundary@[path[k]] == Boundary::S,
    ensures
        viterbi_laws::well_formed(info, path.take(k)),
{
    let head = path.take(k);
    assert(viterbi::may_follow(info, path[k - 1], path[k - 1 + 1]));
    if k > 1 {
        assert(viterbi::may_follow(info, path[k - 2], path[k - 2 + 1]));
    }
    assert(head.last() == path[k - 1]);
    assert forall|t: int| 0 <= t < head.len() - 1 implies viterbi::may_follow(
        info,
        #[trigger] head[t],
        head[t + 1],
    ) by {
        assert(viterbi::may_follow(info, path[t], path[t + 1]));
    }
}

proof fn lemma_wholes_of_well_formed(info: LabelInfo, path: Seq<int>)
    requires
        names_classes(info, path),
        viterbi_laws::well_formed(info, path),
    ensures
        made_of_wholes(info, path),
    decreases path.len(),
{
    let last = path.len() - 1;
    let k: int = if path[last] == info.background_idx || info.boundary@[path[last]] == Boundary::S {
        last
    } else {
        lemma_span_begins(info, path, last)
    };
    let tail = path.skip(k);
    assert forall|t: int| 0 <= t < tail.len() implies #[trigger] tail[t] == path[k + t] by {}
    assert(is_whole(info, tail));
    if k > 0 {
        lemma_closed_before(info, path, k);
        lemma_wholes_of_well_formed(info, path.take(k));
    } else {
        assert(made_of_wholes(info, path.take(0)));
    }
    assert(is_whole(info, path.skip(k)) && made_of_wholes(info, path.take(k)));
}

proof fn lemma_well_formed_of_wholes(info: LabelInfo, path: Seq<int>)
    requires
        names_classes(info, path),
        path.len() > 0,
        made_of_wholes(info, path),
    ensures
        viterbi_laws::well_formed(info, path),
    decreases path.len(),
{
    let k = choose|k: int|
        0 <= k < path.len() && is_whole(info, #[trigger] path.skip(k)) && made_of_wholes(
            info,
            path.take(k),
        );
    let head = path.take(k);
    let tail = path.skip(k);
    assert forall|t: int| 0 <= t < tail.len() implies #[trigger] tail[t] == path[k + t] by {}
    assert(tail[0] == path[k]);
    assert(tail[tail.len() - 1] == path.last());
    if k > 0 {
        lemma_well_formed_of_wholes(info, head);
        assert(head.last() == path[k - 1]);
        assert(head[0] == path[0]);
    }
    assert forall|t: int| 0 <= t < path.len() - 1 implies viterbi::may_follow(
        info,
        #[trigger] path[t],
        path[t + 1],
    ) by {
        if t < k - 1 {
            assert(viterbi::may_follow(info, head[t], head[t + 1]));
        } else if t >= k {
            assert(tail[t - k] == path[t]);
            assert(tail[t + 1 - k] == path[t + 1]);
        }
    }
}

/// What is allowed is what spells out spans: a label sequence that starts, steps and ends
/// as allowed is one whole thing after the other, background tokens and spans of any
/// length and in any order; and every such sequence is allowed.
pub proof fn law_allowed_sequences_spell_out_spans(info: LabelInfo, path: Seq<int>)
    requires
        names_classes(info, path),
        path.len() > 0,
    ensures
        viterbi_laws::well_formed(info, path) <==> made_of_wholes(info, path),
{
    if viterbi_laws::well_formed(info, path) {
        lemma_wholes_of_well_formed(info, path);
    }
    if made_of_wholes(info, path) {
        lemma_well_formed_of_wholes(info, path);
    }
}

/// The scores that a label sequence picks, one of each token, added up from left to right.
pub open spec fn picked(
    sum: spec_fn(u32, u32) -> u32,
    log_probs: Seq<u32>,
    classes: int,
    path: Seq<int>,
    t: int,
) -> u32
    decreases t,
{
    if t <= 0 {
        log_probs[path[0]]
    } else {
        sum(picked(sum, log_probs, classes, path, t - 1), log_probs[t * classes + path[t]])
    }
}

/// Two scores are as great as each other, or neither is a number.
spec fn alike(a: u32, b: u32) -> bool {
    &&& score::is_nan(a) == score::is_nan(b)
    &&& !score::is_nan(a) ==> score::rank(a) == score::rank(b)
}

/// Without biases, an allowed sequence scores what it picks.
proof fn lemma_scores_what_it_picks(
    sum: spec_fn(u32, u32) -> u32,
    info: LabelInfo,
    log_probs: Seq<u32>,
    seq_len: int,
    path: Seq<int>,
    t: int,
)
    requires
        viterbi_laws::rounds(sum),
        names_classes(info, path),
        viterbi_laws::well_formed(info, path),
        viterbi_laws::log_probabilities(log_probs),
        path.len() == seq_len,
        log_probs.len() >= seq_len * info.classes(),
        0 <= t < seq_len,
    ensures
        ({
            let m = viterbi::step_scores(info, viterbi::no_biases());
            let scored = viterbi_laws::path_score_to(sum, m, log_probs, path, t);
            let plain = picked(sum, log_probs, info.classes() as int, path, t);
            &&& alike(scored, plain)
            &&& viterbi_laws::nan_or_at_most(plain, score::ZERO)
        }),
    decreases t,
{
    let m = viterbi::step_scores(info, viterbi::no_biases());
    let n = info.classes() as int;
    let c = path[t];
    assert(0 <= t * n && t * n + n <= seq_len * n) by (nonlinear_arith)
        requires
            0 <= t < seq_len,
            0 <= n,
    ;
    assert(viterbi_laws::number(score::ZERO));
    let entry = log_probs[t * n + c];
    assert(viterbi_laws::nan_or_at_most(entry, score::ZERO));
    if t == 0 {
        assert(m.start[c] == score::ZERO);
        assert(t * n == 0) by (nonlinear_arith)
            requires
                t == 0,
        ;
        assert(entry == log_probs[path[0]]);
        if !score::is_nan(entry) {
            assert(score::rank(sum(entry, score::ZERO)) == score::rank(entry));
            assert(!score::is_nan(sum(entry, score::ZERO)));
        } else {
            assert(score::is_nan(sum(entry, score::ZERO)));
        }
    } else {
        lemma_scores_what_it_picks(sum, info, log_probs, seq_len, path, t - 1);
        let prev = path[t - 1];
        assert(viterbi::may_follow(info, path[t - 1], path[t - 1 + 1]));
        let scored = viterbi_laws::path_score_to(sum, m, log_probs, path, t - 1);
        let plain = picked(sum, log_probs, n, path, t - 1);
        assert(m.step[prev][c] == score::ZERO);
        let stepped = sum(scored, score::ZERO);
        if score::is_nan(plain) {
            assert(score::is_nan(stepped));
            assert(score::is_nan(sum(stepped, entry)));
            assert(score::is_nan(sum(plain, entry)));
        } else {
            assert(viterbi_laws::number(scored));
            assert(score::rank(stepped) == score::rank(scored));
            assert(!score::is_nan(stepped));
            assert(viterbi_laws::at_most(stepped, plain) && viterbi_laws::at_most(plain, stepped));
            if score::is_nan(entry) {
                assert(score::is_nan(sum(stepped, entry)));
                assert(score::is_nan(sum(plain, entry)));
            } else {
                assert(score::rank(sum(stepped, entry)) <= score::rank(sum(plain, entry)));
                assert(score::rank(sum(plain, entry)) <= score::rank(sum(stepped, entry)));
                assert(!score::is_nan(sum(stepped, entry)));
                assert(!score::is_nan(sum(plain, entry)));
                assert(score::rank(sum(plain, entry)) <= score::rank(
                    sum(score::ZERO, score::ZERO),
                ));
                assert(score::rank(sum(score::ZERO, score::ZERO)) == score::rank(score::ZERO));
            }
        }
    }
}

/// Without biases, decoding finds the best sequence that spells out spans: where one of
/// them picks scores that add up to more than minus five hundred million, the labels that
/// come out spell out spans, and no sequence that does picks more.
pub proof fn law_decoding_finds_the_best_spelling(
    sum: spec_fn(u32, u32) -> u32,
    info: LabelInfo,
    log_probs: Seq<u32>,
    seq_len: int,
    other: Seq<int>,
)
    requires
        viterbi_laws::rounds(sum),
        names_classes(info, other),
        viterbi_laws::log_probabilities(log_probs),
        0 < seq_len,
        log_probs.len() >= seq_len * info.classes(),
        other.len() == seq_len,
        made_of_wholes(info, other),
        score::exceeds(
            picked(sum, log_probs, info.classes() as int, other, seq_len - 1),
            0xcdee_6b28,
        ),
    ensures
        ({
            let n = info.classes() as int;
            let path = viterbi::decoded(
                sum,
                viterbi::step_scores(info, viterbi::no_biases()),
                log_probs,
                seq_len,
            );
            &&& path.len() == seq_len
            &&& names_classes(info, path)
            &&& made_of_wholes(info, path)
            &&& !score::exceeds(
                picked(sum, log_probs, n, other, seq_len - 1),
                picked(sum, log_probs, n, path, seq_len - 1),
            )
            &&& !score::is_nan(picked(sum, log_probs, n, path, seq_len - 1))
        }),
{
    let n = info.classes() as int;
    let biases = viterbi::no_biases();
    let m = viterbi::step_scores(info, biases);
    let top = score::ZERO;
    let path = viterbi::decoded(sum, m, log_probs, seq_len);
    assert(viterbi_laws::number(score::ZERO));
    viterbi_laws::law_nonpositive_biases_stay_forbidden(sum, seq_len);
    assert(viterbi_laws::bounded(sum, info, biases, top, log_probs, seq_len));
    law_allowed_sequences_spell_out_spans(info, other);
    lemma_whole_score(sum, info, log_probs, seq_len, other);
    assert(viterbi_laws::is_path(n, seq_len, other));
    viterbi_laws::law_good_path_is_reachable(sum, info, biases, top, log_probs, seq_len, other);
    viterbi_laws::law_decoded_is_best(sum, info, biases, top, log_probs, seq_len, other);
    viterbi_laws::lemma_decoded_is_good(sum, info, biases, top, log_probs, seq_len);
    law_allowed_sequences_spell_out_spans(info, path);
    lemma_whole_score(sum, info, log_probs, seq_len, path);
}

/// Without biases, a whole allowed sequence scores what it picks.
proof fn lemma_whole_score(
    sum: spec_fn(u32, u32) -> u32,
    info: LabelInfo,
    log_probs: Seq<u32>,
    seq_len: int,
    path: Seq<int>,
)
    requires
        viterbi_laws::rounds(sum),
        names_classes(info, path),
        viterbi_laws::well_formed(info, path),
        viterbi_laws::log_probabilities(log_probs),
        0 < seq_len,
        path.len() == seq_len,
        log_probs.len() >= seq_len * info.classes(),
    ensures
        alike(
            viterbi_laws::path_score(
                sum,
                viterbi::step_scores(info, viterbi::no_biases()),
                log_probs,
                path,
            ),
            picked(sum, log_probs, info.classes() as int, path, seq_len - 1),
        ),
{
    let m = viterbi::step_scores(info, viterbi::no_biases());
    lemma_scores_what_it_picks(sum, info, log_probs, seq_len, path, seq_len - 1);
    let scored = viterbi_laws::path_score_to(sum, m, log_probs, path, seq_len - 1);
    assert(m.end[path.last()] == score::ZERO);
    assert(viterbi_laws::number(score::ZERO));
    if score::is_nan(scored) {
        assert(score::is_nan(sum(scored, score::ZERO)));
    } else {
        assert(viterbi_laws::number(scored));
        assert(!score::is_nan(sum(scored, score::ZERO)));
        assert(score::rank(sum(scored, score::ZERO)) == score::rank(scored));
    }
}

} // verus!
