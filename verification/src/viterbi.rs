//! Constraint-aware decoding of per-token scores into a label sequence.

use vstd::prelude::*;

use crate::labels::{Boundary, LabelInfo};
use crate::score;

verus! {

/// The bits of the score of a start, a step or an end that is not allowed: minus
/// one thousand million.
pub const FORBIDDEN: u32 = 0xce6e_6b28;

/// The bits of half of that score. A whole path scores above it when nothing on
/// the path was forbidden.
pub const REACHABLE: u32 = 0xcdee_6b28;

/// Biases that are added to the score of a step from one label to the next, as
/// bit patterns. All of them zero leaves the allowed steps as they are.
#[derive(Debug, Clone, Copy)]
pub struct ViterbiBiases {
    pub transition_bias_background_stay: u32,
    pub transition_bias_background_to_start: u32,
    pub transition_bias_inside_to_continue: u32,
    pub transition_bias_inside_to_end: u32,
    pub transition_bias_end_to_background: u32,
    pub transition_bias_end_to_start: u32,
}

impl Default for ViterbiBiases {
    fn default() -> (r: Self)
        ensures
            r == no_biases(),
    {
        ViterbiBiases {
            transition_bias_background_stay: score::ZERO,
            transition_bias_background_to_start: score::ZERO,
            transition_bias_inside_to_continue: score::ZERO,
            transition_bias_inside_to_end: score::ZERO,
            transition_bias_end_to_background: score::ZERO,
            transition_bias_end_to_start: score::ZERO,
        }
    }
}

/// Biases of zero on every step.
pub open spec fn no_biases() -> ViterbiBiases {
    ViterbiBiases {
        transition_bias_background_stay: score::ZERO,
        transition_bias_background_to_start: score::ZERO,
        transition_bias_inside_to_continue: score::ZERO,
        transition_bias_inside_to_end: score::ZERO,
        transition_bias_end_to_background: score::ZERO,
        transition_bias_end_to_start: score::ZERO,
    }
}

/// Whether a label opens a span.
pub open spec fn opens(b: Boundary) -> bool {
    b == Boundary::B || b == Boundary::S
}

/// Whether a label closes a span.
pub open spec fn closes(b: Boundary) -> bool {
    b == Boundary::E || b == Boundary::S
}

/// Whether a label leaves its span open.
pub open spec fn stays_open(b: Boundary) -> bool {
    b == Boundary::B || b == Boundary::I
}

/// Whether a label goes on with a span that is open.
pub open spec fn goes_on(b: Boundary) -> bool {
    b == Boundary::I || b == Boundary::E
}

impl ViterbiBiases {
    /// The bias of a step between two labels, given their boundaries, whether
    /// each is the background label, and whether both name the same span.
    pub open spec fn edge_bias(
        self,
        prev: Boundary,
        prev_is_bg: bool,
        next: Boundary,
        next_is_bg: bool,
        same_span: bool,
    ) -> u32 {
        if prev_is_bg {
            if next_is_bg {
                self.transition_bias_background_stay
            } else if opens(next) {
                self.transition_bias_background_to_start
            } else {
                score::ZERO
            }
        } else if stays_open(prev) && same_span && next == Boundary::I {
            self.transition_bias_inside_to_continue
        } else if stays_open(prev) && same_span && next == Boundary::E {
            self.transition_bias_inside_to_end
        } else if closes(prev) && next_is_bg {
            self.transition_bias_end_to_background
        } else if closes(prev) && opens(next) {
            self.transition_bias_end_to_start
        } else {
            score::ZERO
        }
    }

    /// Looks up the bias of one step.
    pub fn for_edge(
        &self,
        prev_boundary: Boundary,
        prev_is_bg: bool,
        next_boundary: Boundary,
        next_is_bg: bool,
        same_span: bool,
    ) -> (bias: u32)
        ensures
            bias == self.edge_bias(prev_boundary, prev_is_bg, next_boundary, next_is_bg, same_span),
    {
        if prev_is_bg {
            if next_is_bg {
                return self.transition_bias_background_stay;
            }
            if matches!(next_boundary, Boundary::B | Boundary::S) {
                return self.transition_bias_background_to_start;
            }
            return score::ZERO;
        }
        match prev_boundary {
            Boundary::B | Boundary::I => {
                if same_span && matches!(next_boundary, Boundary::I) {
                    self.transition_bias_inside_to_continue
                } else if same_span && matches!(next_boundary, Boundary::E) {
                    self.transition_bias_inside_to_end
                } else {
                    score::ZERO
                }
            },
            Boundary::E | Boundary::S => {
                if next_is_bg {
                    self.transition_bias_end_to_background
                } else if matches!(next_boundary, Boundary::B | Boundary::S) {
                    self.transition_bias_end_to_start
                } else {
                    score::ZERO
                }
            },
            Boundary::Background => score::ZERO,
        }
    }
}

/// Whether a label sequence may begin with a class.
pub open spec fn may_start(info: LabelInfo, id: int) -> bool {
    id == info.background_idx || opens(info.boundary@[id])
}

/// Whether a label sequence may finish with a class.
pub open spec fn may_end(info: LabelInfo, id: int) -> bool {
    id == info.background_idx || closes(info.boundary@[id])
}

/// Whether one class may follow another: an open span goes on under the same
/// span label until it is closed, and a span opens only where none is open.
pub open spec fn may_follow(info: LabelInfo, prev: int, next: int) -> bool {
    if prev != info.background_idx && stays_open(info.boundary@[prev]) {
        goes_on(info.boundary@[next]) && info.span_name(prev) == info.span_name(next)
    } else {
        next == info.background_idx || opens(info.boundary@[next])
    }
}

/// Compares two span labels.
fn same_span_label(a: &Option<String>, b: &Option<String>) -> (r: bool)
    ensures
        r == (crate::labels::text_of(*a) == crate::labels::text_of(*b)),
{
    match (a, b) {
        (Some(x), Some(y)) => *x == *y,
        (None, None) => true,
        _ => false,
    }
}

/// Decides whether one class may follow another.
pub fn is_valid_transition(label_info: &LabelInfo, prev: usize, next: usize) -> (r: bool)
    requires
        label_info.wf(),
        prev < label_info.classes(),
        next < label_info.classes(),
    ensures
        r == may_follow(*label_info, prev as int, next as int),
{
    let bg: usize = label_info.background_idx;
    let next_is_bg = next == bg;
    let prev_is_bg = prev == bg;
    if prev_is_bg {
        return next_is_bg || matches!(label_info.boundary[next], Boundary::B | Boundary::S);
    }
    match label_info.boundary[prev] {
        Boundary::Background | Boundary::E | Boundary::S => {
            next_is_bg || matches!(label_info.boundary[next], Boundary::B | Boundary::S)
        },
        Boundary::B | Boundary::I => {
            if !matches!(label_info.boundary[next], Boundary::I | Boundary::E) {
                return false;
            }
            same_span_label(&label_info.span_label[prev], &label_info.span_label[next])
        },
    }
}

/// The scores of starts, steps and ends, each class counted from 0.
#[verifier::ext_equal]
pub struct StepScores {
    pub classes: int,
    pub start: Seq<u32>,
    pub end: Seq<u32>,
    pub step: Seq<Seq<u32>>,
}

/// The scores of a label set under biases: a start or an end that is allowed
/// costs nothing, a step that is allowed costs its bias, and all else is
/// forbidden.
pub open spec fn step_scores(info: LabelInfo, biases: ViterbiBiases) -> StepScores {
    let n = info.classes();
    StepScores {
        classes: n as int,
        start: Seq::new(n, |i: int| if may_start(info, i) { score::ZERO } else { FORBIDDEN }),
        end: Seq::new(n, |i: int| if may_end(info, i) { score::ZERO } else { FORBIDDEN }),
        step: Seq::new(n, |prev: int| Seq::new(n, |next: int| step_score(info, biases, prev, next))),
    }
}

/// The score of a step from one class to the next.
pub open spec fn step_score(info: LabelInfo, biases: ViterbiBiases, prev: int, next: int) -> u32 {
    if may_follow(info, prev, next) {
        biases.edge_bias(
            info.boundary@[prev],
            prev == info.background_idx,
            info.boundary@[next],
            next == info.background_idx,
            info.span_name(prev) == info.span_name(next),
        )
    } else {
        FORBIDDEN
    }
}

/// A decoder for one label set and one choice of biases.
pub struct ViterbiDecoder {
    num_classes: usize,
    start_scores: Vec<u32>,
    end_scores: Vec<u32>,
    transition_scores: Vec<Vec<u32>>,
}

impl View for ViterbiDecoder {
    type V = StepScores;

    closed spec fn view(&self) -> StepScores {
        StepScores {
            classes: self.num_classes as int,
            start: self.start_scores@,
            end: self.end_scores@,
            step: self.transition_scores@.map_values(|row: Vec<u32>| row@),
        }
    }
}

impl StepScores {
    /// Every class has a start and an end score, and a step score to each class.
    pub open spec fn wf(self) -> bool {
        &&& self.classes >= 0
        &&& self.start.len() == self.classes
        &&& self.end.len() == self.classes
        &&& self.step.len() == self.classes
        &&& forall|prev: int| 0 <= prev < self.classes ==> (#[trigger] self.step[prev]).len() == self.classes
    }
}

impl ViterbiDecoder {
    /// Builds the decoder of a label set under biases.
    pub fn with_biases(label_info: &LabelInfo, biases: ViterbiBiases) -> (r: Self)
        requires
            label_info.wf(),
        ensures
            r@ == step_scores(*label_info, biases),
            r@.wf(),
    {
        let n: usize = label_info.num_classes();
        let bg: usize = label_info.background_idx;
        let mut start_scores: Vec<u32> = Vec::with_capacity(n);
        let mut end_scores: Vec<u32> = Vec::with_capacity(n);
        let mut i: usize = 0;
        while i < n
            invariant
                label_info.wf(),
                n == label_info.classes(),
                bg == label_info.background_idx,
                i <= n,
                start_scores@.len() == i,
                end_scores@.len() == i,
                forall|k: int|
                    0 <= k < i ==> #[trigger] start_scores@[k] == (if may_start(*label_info, k) {
                        score::ZERO
                    } else {
                        FORBIDDEN
                    }),
                forall|k: int|
                    0 <= k < i ==> #[trigger] end_scores@[k] == (if may_end(*label_info, k) {
                        score::ZERO
                    } else {
                        FORBIDDEN
                    }),
            decreases n - i,
        {
            if i == bg || matches!(label_info.boundary[i], Boundary::B | Boundary::S) {
                start_scores.push(score::ZERO);
            } else {
                start_scores.push(FORBIDDEN);
            }
            if i == bg || matches!(label_info.boundary[i], Boundary::E | Boundary::S) {
                end_scores.push(score::ZERO);
            } else {
                end_scores.push(FORBIDDEN);
            }
            i = i + 1;
        }
        let mut transition_scores: Vec<Vec<u32>> = Vec::with_capacity(n);
        let mut prev: usize = 0;
        while prev < n
            invariant
                label_info.wf(),
                n == label_info.classes(),
                bg == label_info.background_idx,
                prev <= n,
                transition_scores@.len() == prev,
                forall|p: int|
                    0 <= p < prev ==> (#[trigger] transition_scores@[p])@ =~= Seq::new(
                        n as nat,
                        |q: int| step_score(*label_info, biases, p, q),
                    ),
            decreases n - prev,
        {
            let mut row: Vec<u32> = Vec::with_capacity(n);
            let mut next: usize = 0;
            while next < n
                invariant
                    label_info.wf(),
                    n == label_info.classes(),
                    bg == label_info.background_idx,
                    prev < n,
                    next <= n,
                    row@.len() == next,
                    forall|q: int|
                        0 <= q < next ==> #[trigger] row@[q] == step_score(
                            *label_info,
                            biases,
                            prev as int,
                            q,
                        ),
                decreases n - next,
            {
                if is_valid_transition(label_info, prev, next) {
                    let same_span = same_span_label(
                        &label_info.span_label[prev],
                        &label_info.span_label[next],
                    );
                    row.push(
                        biases.for_edge(
                            label_info.boundary[prev],
                            prev == bg,
                            label_info.boundary[next],
                            next == bg,
                            same_span,
                        ),
                    );
                } else {
                    row.push(FORBIDDEN);
                }
                next = next + 1;
            }
            transition_scores.push(row);
            prev = prev + 1;
        }
        let r = ViterbiDecoder { num_classes: n, start_scores, end_scores, transition_scores };
        proof {
            let want = step_scores(*label_info, biases);
            assert(r@.start =~= want.start);
            assert(r@.end =~= want.end);
            assert forall|p: int| 0 <= p < n implies r@.step[p] == want.step[p] by {
                assert(r@.step[p] == transition_scores@[p]@);
            }
            assert(r@.step =~= want.step);
        }
        r
    }
}

/// `plus` returns what `sum` says, wherever it returns.
pub open spec fn computes<F: Fn(u32, u32) -> u32>(plus: F, sum: spec_fn(u32, u32) -> u32) -> bool {
    forall|a: u32, b: u32, r: u32| #[trigger] plus.ensures((a, b), r) ==> r == sum(a, b)
}

/// The scores of the steps into `next`, from a column of scores.
pub open spec fn incoming(
    sum: spec_fn(u32, u32) -> u32,
    m: StepScores,
    column: Seq<u32>,
    next: int,
) -> Seq<u32> {
    Seq::new(m.classes as nat, |prev: int| sum(column[prev], m.step[prev][next]))
}

/// The best scores of the paths that reach each class at token `t`. A token's
/// log-probabilities are a row of `m.classes` entries of `log_probs`.
pub open spec fn column_at(
    sum: spec_fn(u32, u32) -> u32,
    m: StepScores,
    log_probs: Seq<u32>,
    t: int,
) -> Seq<u32>
    decreases t,
{
    if t <= 0 {
        Seq::new(m.classes as nat, |c: int| sum(log_probs[c], m.start[c]))
    } else {
        let before = column_at(sum, m, log_probs, t - 1);
        Seq::new(
            m.classes as nat,
            |c: int|
                sum(
                    score::best_score(incoming(sum, m, before, c), FORBIDDEN),
                    log_probs[t * m.classes + c],
                ),
        )
    }
}

/// The class from which the best path reaches `next` at token `t`.
pub open spec fn predecessor(
    sum: spec_fn(u32, u32) -> u32,
    m: StepScores,
    log_probs: Seq<u32>,
    t: int,
    next: int,
) -> int {
    score::best_index(incoming(sum, m, column_at(sum, m, log_probs, t - 1), next), FORBIDDEN)
}

/// The best path that reaches class `c` at token `t`.
pub open spec fn best_path_to(
    sum: spec_fn(u32, u32) -> u32,
    m: StepScores,
    log_probs: Seq<u32>,
    t: int,
    c: int,
) -> Seq<int>
    decreases t,
{
    if t <= 0 {
        seq![c]
    } else {
        best_path_to(sum, m, log_probs, t - 1, predecessor(sum, m, log_probs, t, c)).push(c)
    }
}

/// The scores of whole paths by their last class.
pub open spec fn final_scores(
    sum: spec_fn(u32, u32) -> u32,
    m: StepScores,
    log_probs: Seq<u32>,
    seq_len: int,
) -> Seq<u32> {
    let last = column_at(sum, m, log_probs, seq_len - 1);
    Seq::new(m.classes as nat, |c: int| sum(last[c], m.end[c]))
}

/// Some whole path has a score that a forbidden step would have spoiled.
pub open spec fn any_reachable(finals: Seq<u32>) -> bool {
    exists|c: int|
        0 <= c < finals.len() && score::is_finite(#[trigger] finals[c]) && score::exceeds(
            finals[c],
            REACHABLE,
        )
}

/// The class of the greatest log-probability in row `t`.
pub open spec fn row_best(log_probs: Seq<u32>, classes: int, t: int) -> int {
    score::best_index(
        log_probs.subrange(t * classes, t * classes + classes),
        score::NEG_INFINITY,
    )
}

/// The label sequence of a matrix of log-probabilities: the best path when one
/// is reachable, and otherwise the best class of each token by itself.
pub open spec fn decoded(
    sum: spec_fn(u32, u32) -> u32,
    m: StepScores,
    log_probs: Seq<u32>,
    seq_len: int,
) -> Seq<int> {
    let finals = final_scores(sum, m, log_probs, seq_len);
    if seq_len <= 0 {
        Seq::empty()
    } else if any_reachable(finals) {
        best_path_to(
            sum,
            m,
            log_probs,
            seq_len - 1,
            score::best_index(finals, score::NEG_INFINITY),
        )
    } else {
        Seq::new(seq_len as nat, |t: int| row_best(log_probs, m.classes, t))
    }
}

/// The classes of a label sequence as integers.
pub open spec fn ids(path: Seq<usize>) -> Seq<int> {
    path.map_values(|c: usize| c as int)
}

/// Row `t` of a matrix of `rows` rows lies within it.
proof fn lemma_row_in_bounds(t: int, rows: int, width: int)
    requires
        0 <= t < rows,
        0 <= width,
    ensures
        0 <= t * width,
        t * width + width <= rows * width,
        (t + 1) * width == t * width + width,
{
    assert(t * width + width == (t + 1) * width) by (nonlinear_arith);
    assert((t + 1) * width <= rows * width) by (nonlinear_arith)
        requires
            t + 1 <= rows,
            0 <= width,
    ;
    assert(0 <= t * width) by (nonlinear_arith)
        requires
            0 <= t,
            0 <= width,
    ;
}

/// The best class of a token is a class.
pub proof fn lemma_row_best_is_a_class(log_probs: Seq<u32>, rows: int, classes: int, t: int)
    requires
        0 <= t < rows,
        classes > 0,
        rows * classes <= log_probs.len(),
    ensures
        0 <= row_best(log_probs, classes, t) < classes,
{
    lemma_row_in_bounds(t, rows, classes);
    score::lemma_first_best(
        log_probs.subrange(t * classes, t * classes + classes),
        score::NEG_INFINITY,
    );
}

/// Independent per-token choice of the greatest entry, over a row-major matrix
/// of `seq_len` rows of `n` log-probabilities. The first of equal entries wins.
pub fn argmax_decode(log_probs: &[u32], seq_len: usize, n: usize) -> (path: Vec<usize>)
    requires
        seq_len * n <= log_probs@.len(),
    ensures
        ids(path@) == Seq::new(seq_len as nat, |t: int| row_best(log_probs@, n as int, t)),
{
    let len: usize = log_probs.len();
    let mut path: Vec<usize> = Vec::with_capacity(seq_len);
    let mut t: usize = 0;
    while t < seq_len
        invariant
            t <= seq_len,
            seq_len * n <= log_probs@.len(),
            log_probs@.len() == len,
            path@.len() == t,
            forall|k: int| 0 <= k < t ==> #[trigger] path@[k] == row_best(log_probs@, n as int, k),
        decreases seq_len - t,
    {
        proof {
            lemma_row_in_bounds(t as int, seq_len as int, n as int);
        }
        path.push(score::best_in_range(log_probs, t * n, t * n + n, score::NEG_INFINITY));
        t = t + 1;
    }
    assert(ids(path@) =~= Seq::new(seq_len as nat, |t: int| row_best(log_probs@, n as int, t)));
    path
}

impl ViterbiDecoder {
    /// The number of classes.
    pub fn num_classes(&self) -> (n: usize)
        ensures
            n == self@.classes,
    {
        self.num_classes
    }

    /// Finds the best step into `next`: the class it comes from and its score.
    fn best_step<F: Fn(u32, u32) -> u32>(&self, plus: &F, column: &Vec<u32>, next: usize) -> (r: (
        usize,
        u32,
    ))
        requires
            self@.wf(),
            column@.len() == self@.classes,
            next < self@.classes,
            forall|a: u32, b: u32| plus.requires((a, b)),
        ensures
            r.0 < self@.classes,
            forall|sum: spec_fn(u32, u32) -> u32| #[trigger]
                computes(*plus, sum) ==> {
                    let steps = incoming(sum, self@, column@, next as int);
                    &&& r.0 == score::best_index(steps, FORBIDDEN)
                    &&& r.1 == score::best_score(steps, FORBIDDEN)
                },
    {
        let n: usize = self.num_classes;
        let mut best_score: u32 = FORBIDDEN;
        let mut best_prev: usize = 0;
        let mut prev: usize = 0;
        while prev < n
            invariant
                self@.wf(),
                n == self.num_classes,
                column@.len() == n,
                next < n,
                prev <= n,
                best_prev < n,
                forall|a: u32, b: u32| plus.requires((a, b)),
                forall|sum: spec_fn(u32, u32) -> u32| #[trigger]
                    computes(*plus, sum) ==> {
                        let steps = incoming(sum, self@, column@, next as int).take(prev as int);
                        &&& best_prev == score::best_index(steps, FORBIDDEN)
                        &&& best_score == score::best_score(steps, FORBIDDEN)
                    },
            decreases n - prev,
        {
            assert(self@.step[prev as int] == self.transition_scores@[prev as int]@);
            let candidate: u32 = plus(column[prev], self.transition_scores[prev][next]);
            let ghost was_prev = best_prev;
            let ghost was_score = best_score;
            if score::greater(candidate, best_score) {
                best_score = candidate;
                best_prev = prev;
            }
            prev = prev + 1;
            proof {
                assert forall|sum: spec_fn(u32, u32) -> u32| #[trigger]
                    computes(*plus, sum) implies {
                    let steps = incoming(sum, self@, column@, next as int).take(prev as int);
                    &&& best_prev == score::best_index(steps, FORBIDDEN)
                    &&& best_score == score::best_score(steps, FORBIDDEN)
                } by {
                    let all = incoming(sum, self@, column@, next as int);
                    let seen = all.take(prev - 1);
                    assert(all[prev - 1] == candidate);
                    score::lemma_first_best_push(seen, candidate, FORBIDDEN);
                    assert(seen.push(candidate) =~= all.take(prev as int));
                }
            }
        }
        proof {
            assert forall|sum: spec_fn(u32, u32) -> u32| #[trigger] computes(*plus, sum) implies {
                let steps = incoming(sum, self@, column@, next as int);
                &&& best_prev == score::best_index(steps, FORBIDDEN)
                &&& best_score == score::best_score(steps, FORBIDDEN)
            } by {
                let all = incoming(sum, self@, column@, next as int);
                assert(all.take(n as int) =~= all);
            }
        }
        (best_prev, best_score)
    }

    /// The scores of the first token.
    fn first_column<F: Fn(u32, u32) -> u32>(&self, plus: &F, log_probs: &[u32]) -> (column: Vec<u32>)
        requires
            self@.wf(),
            self@.classes <= log_probs@.len(),
            forall|a: u32, b: u32| plus.requires((a, b)),
        ensures
            column@.len() == self@.classes,
            forall|sum: spec_fn(u32, u32) -> u32| #[trigger]
                computes(*plus, sum) ==> column@ == column_at(sum, self@, log_probs@, 0),
    {
        let n: usize = self.num_classes;
        let mut column: Vec<u32> = Vec::with_capacity(n);
        let mut i: usize = 0;
        while i < n
            invariant
                self@.wf(),
                n == self.num_classes,
                n <= log_probs@.len(),
                i <= n,
                column@.len() == i,
                forall|a: u32, b: u32| plus.requires((a, b)),
                forall|sum: spec_fn(u32, u32) -> u32, k: int|
                    #![trigger computes(*plus, sum), column@[k]]
                    computes(*plus, sum) && 0 <= k < i ==> column@[k] == sum(
                        log_probs@[k],
                        self@.start[k],
                    ),
            decreases n - i,
        {
            column.push(plus(log_probs[i], self.start_scores[i]));
            i = i + 1;
        }
        proof {
            assert forall|sum: spec_fn(u32, u32) -> u32| #[trigger] computes(*plus, sum) implies column@
                == column_at(sum, self@, log_probs@, 0) by {
                assert(column@ =~= column_at(sum, self@, log_probs@, 0));
            }
        }
        column
    }

    /// Advances the scores by one token, and notes the class each came from.
    fn next_column<F: Fn(u32, u32) -> u32>(
        &self,
        plus: &F,
        column: &Vec<u32>,
        log_probs: &[u32],
        step: usize,
    ) -> (r: (Vec<u32>, Vec<usize>))
        requires
            self@.wf(),
            0 < step,
            column@.len() == self@.classes,
            step * self@.classes + self@.classes <= log_probs@.len(),
            forall|a: u32, b: u32| plus.requires((a, b)),
        ensures
            r.0@.len() == self@.classes,
            r.1@.len() == self@.classes,
            forall|c: int| 0 <= c < self@.classes ==> #[trigger] r.1@[c] < self@.classes,
            forall|sum: spec_fn(u32, u32) -> u32| #[trigger]
                computes(*plus, sum) && column@ == column_at(sum, self@, log_probs@, step - 1) ==> {
                    &&& r.0@ == column_at(sum, self@, log_probs@, step as int)
                    &&& forall|c: int|
                        0 <= c < self@.classes ==> #[trigger] r.1@[c] == predecessor(
                            sum,
                            self@,
                            log_probs@,
                            step as int,
                            c,
                        )
                },
    {
        let n: usize = self.num_classes;
        let len: usize = log_probs.len();
        proof {
            lemma_row_in_bounds(step as int, step + 1, n as int);
        }
        let row: usize = step * n;
        let mut scores: Vec<u32> = Vec::with_capacity(n);
        let mut from: Vec<usize> = Vec::with_capacity(n);
        let mut next: usize = 0;
        while next < n
            invariant
                self@.wf(),
                n == self.num_classes,
                column@.len() == n,
                row == step * n,
                row + n <= len,
                len == log_probs@.len(),
                next <= n,
                scores@.len() == next,
                from@.len() == next,
                forall|c: int| 0 <= c < next ==> #[trigger] from@[c] < n,
                forall|a: u32, b: u32| plus.requires((a, b)),
                forall|sum: spec_fn(u32, u32) -> u32, c: int|
                    #![trigger computes(*plus, sum), scores@[c]]
                    #![trigger computes(*plus, sum), from@[c]]
                    computes(*plus, sum) && 0 <= c < next ==> {
                        let steps = incoming(sum, self@, column@, c);
                        &&& from@[c] == score::best_index(steps, FORBIDDEN)
                        &&& scores@[c] == sum(
                            score::best_score(steps, FORBIDDEN),
                            log_probs@[row + c],
                        )
                    },
            decreases n - next,
        {
            let best = self.best_step(plus, column, next);
            scores.push(plus(best.1, log_probs[row + next]));
            from.push(best.0);
            next = next + 1;
        }
        proof {
            assert forall|sum: spec_fn(u32, u32) -> u32| #[trigger]
                computes(*plus, sum) && column@ == column_at(sum, self@, log_probs@, step - 1) implies {
                &&& scores@ == column_at(sum, self@, log_probs@, step as int)
                &&& forall|c: int|
                    0 <= c < self@.classes ==> #[trigger] from@[c] == predecessor(
                        sum,
                        self@,
                        log_probs@,
                        step as int,
                        c,
                    )
            } by {
                assert(scores@ =~= column_at(sum, self@, log_probs@, step as int));
            }
        }
        (scores, from)
    }

    /// The scores of whole paths by their last class.
    fn close_column<F: Fn(u32, u32) -> u32>(&self, plus: &F, column: &Vec<u32>) -> (finals: Vec<u32>)
        requires
            self@.wf(),
            column@.len() == self@.classes,
            forall|a: u32, b: u32| plus.requires((a, b)),
        ensures
            finals@.len() == self@.classes,
            forall|sum: spec_fn(u32, u32) -> u32| #[trigger]
                computes(*plus, sum) ==> finals@ == Seq::new(
                    self@.classes as nat,
                    |c: int| sum(column@[c], self@.end[c]),
                ),
    {
        let n: usize = self.num_classes;
        let mut finals: Vec<u32> = Vec::with_capacity(n);
        let mut i: usize = 0;
        while i < n
            invariant
                self@.wf(),
                n == self.num_classes,
                column@.len() == n,
                i <= n,
                finals@.len() == i,
                forall|a: u32, b: u32| plus.requires((a, b)),
                forall|sum: spec_fn(u32, u32) -> u32, k: int|
                    #![trigger computes(*plus, sum), finals@[k]]
                    computes(*plus, sum) && 0 <= k < i ==> finals@[k] == sum(
                        column@[k],
                        self@.end[k],
                    ),
            decreases n - i,
        {
            finals.push(plus(column[i], self.end_scores[i]));
            i = i + 1;
        }
        proof {
            assert forall|sum: spec_fn(u32, u32) -> u32| #[trigger] computes(*plus, sum) implies finals@
                == Seq::new(self@.classes as nat, |c: int| sum(column@[c], self@.end[c])) by {
                assert(finals@ =~= Seq::new(
                    self@.classes as nat,
                    |c: int| sum(column@[c], self@.end[c]),
                ));
            }
        }
        finals
    }
}

/// Decides whether some whole path is reachable.
fn has_reachable(finals: &Vec<u32>) -> (r: bool)
    ensures
        r == any_reachable(finals@),
{
    let mut i: usize = 0;
    while i < finals.len()
        invariant
            i <= finals@.len(),
            forall|c: int|
                0 <= c < i ==> !(score::is_finite(#[trigger] finals@[c]) && score::exceeds(
                    finals@[c],
                    REACHABLE,
                )),
        decreases finals.len() - i,
    {
        if score::finite(finals[i]) && score::greater(finals[i], REACHABLE) {
            return true;
        }
        i = i + 1;
    }
    false
}

/// Follows the noted classes back from the last one. `from[t][c]` is the class
/// before class `c` of token `t + 1`.
fn trace_back(from: &Vec<Vec<usize>>, last: usize, n: usize) -> (path: Vec<usize>)
    requires
        last < n,
        forall|t: int| 0 <= t < from@.len() ==> (#[trigger] from@[t])@.len() == n,
        forall|t: int, c: int|
            0 <= t < from@.len() && 0 <= c < n ==> #[trigger] from@[t]@[c] < n,
        from@.len() < usize::MAX,
    ensures
        path@.len() == from@.len() + 1,
        path@.last() == last,
        forall|t: int| 0 <= t < path@.len() ==> #[trigger] path@[t] < n,
        forall|t: int|
            0 <= t < from@.len() ==> #[trigger] path@[t] == from@[t]@[path@[t + 1] as int],
{
    let steps: usize = from.len();
    let mut path: Vec<usize> = vec![0; steps + 1];
    path.set(steps, last);
    let mut t: usize = steps;
    while t > 0
        invariant
            t <= steps,
            steps == from@.len(),
            path@.len() == steps + 1,
            path@[steps as int] == last,
            last < n,
            forall|k: int| 0 <= k < from@.len() ==> (#[trigger] from@[k])@.len() == n,
            forall|k: int, c: int|
                0 <= k < from@.len() && 0 <= c < n ==> #[trigger] from@[k]@[c] < n,
            forall|k: int| t <= k <= steps ==> #[trigger] path@[k] < n,
            forall|k: int|
                t <= k < steps ==> #[trigger] path@[k] == from@[k]@[path@[k + 1] as int],
        decreases t,
    {
        let here: usize = path[t];
        t = t - 1;
        let before: usize = from[t][here];
        path.set(t, before);
    }
    path
}

/// A sequence whose every class is the predecessor of the one after it is the
/// best path to its last class.
proof fn lemma_trace_is_best_path(
    sum: spec_fn(u32, u32) -> u32,
    m: StepScores,
    log_probs: Seq<u32>,
    path: Seq<usize>,
    t: int,
)
    requires
        0 <= t < path.len(),
        forall|k: int|
            0 <= k < path.len() - 1 ==> #[trigger] path[k] == predecessor(
                sum,
                m,
                log_probs,
                k + 1,
                path[k + 1] as int,
            ),
    ensures
        ids(path.take(t + 1)) == best_path_to(sum, m, log_probs, t, path[t] as int),
    decreases t,
{
    if t > 0 {
        lemma_trace_is_best_path(sum, m, log_probs, path, t - 1);
        assert(path[t - 1] == predecessor(sum, m, log_probs, t, path[t] as int));
        assert(ids(path.take(t + 1)) =~= ids(path.take(t)).push(path[t] as int));
    } else {
        assert(ids(path.take(1)) =~= seq![path[0] as int]);
    }
}

impl ViterbiDecoder {
    /// Decodes a row-major matrix of `seq_len` rows of log-probabilities into a
    /// label sequence. `plus` adds two scores.
    pub fn decode<F: Fn(u32, u32) -> u32>(&self, log_probs: &[u32], seq_len: usize, plus: &F) -> (path:
        Vec<usize>)
        requires
            self@.wf(),
            seq_len > 0 ==> log_probs@.len() >= seq_len * self@.classes,
            forall|a: u32, b: u32| plus.requires((a, b)),
        ensures
            path@.len() == seq_len,
            self@.classes > 0 ==> forall|t: int|
                0 <= t < seq_len ==> #[trigger] path@[t] < self@.classes,
            forall|sum: spec_fn(u32, u32) -> u32| #[trigger]
                computes(*plus, sum) ==> ids(path@) == decoded(
                    sum,
                    self@,
                    log_probs@,
                    seq_len as int,
                ),
    {
        let n: usize = self.num_classes;
        if seq_len == 0 {
            let path: Vec<usize> = Vec::new();
            assert(ids(path@) =~= Seq::empty());
            return path;
        }
        proof {
            lemma_row_in_bounds(0, seq_len as int, n as int);
        }
        let mut column: Vec<u32> = self.first_column(plus, log_probs);
        let mut from: Vec<Vec<usize>> = Vec::with_capacity(seq_len - 1);
        let mut step: usize = 1;
        while step < seq_len
            invariant
                self@.wf(),
                n == self.num_classes,
                1 <= step <= seq_len,
                log_probs@.len() >= seq_len * n,
                column@.len() == n,
                from@.len() == step - 1,
                forall|t: int| 0 <= t < from@.len() ==> (#[trigger] from@[t])@.len() == n,
                forall|t: int, c: int|
                    0 <= t < from@.len() && 0 <= c < n ==> #[trigger] from@[t]@[c] < n,
                forall|a: u32, b: u32| plus.requires((a, b)),
                forall|sum: spec_fn(u32, u32) -> u32| #[trigger]
                    computes(*plus, sum) ==> column@ == column_at(
                        sum,
                        self@,
                        log_probs@,
                        step - 1,
                    ),
                forall|sum: spec_fn(u32, u32) -> u32, t: int, c: int|
                    #![trigger computes(*plus, sum), from@[t]@[c]]
                    computes(*plus, sum) && 0 <= t < from@.len() && 0 <= c < n ==> from@[t]@[c]
                        == predecessor(sum, self@, log_probs@, t + 1, c),
            decreases seq_len - step,
        {
            proof {
                lemma_row_in_bounds(step as int, seq_len as int, n as int);
            }
            let next = self.next_column(plus, &column, log_probs, step);
            column = next.0;
            from.push(next.1);
            step = step + 1;
        }
        let finals: Vec<u32> = self.close_column(plus, &column);
        if !has_reachable(&finals) {
            let path: Vec<usize> = argmax_decode(log_probs, seq_len, n);
            proof {
                lemma_rows_in_range(path@, log_probs@, seq_len as int, n as int);
                assert forall|sum: spec_fn(u32, u32) -> u32| #[trigger] computes(*plus, sum) implies ids(
                    path@,
                ) == decoded(sum, self@, log_probs@, seq_len as int) by {
                    assert(finals@ =~= final_scores(sum, self@, log_probs@, seq_len as int));
                }
            }
            return path;
        }
        let last: usize = score::best_in_range(&finals, 0, finals.len(), score::NEG_INFINITY);
        proof {
            assert(finals@.subrange(0, finals@.len() as int) =~= finals@);
            score::lemma_first_best(finals@, score::NEG_INFINITY);
        }
        let path: Vec<usize> = trace_back(&from, last, n);
        proof {
            assert forall|sum: spec_fn(u32, u32) -> u32| #[trigger] computes(*plus, sum) implies ids(
                path@,
            ) == decoded(sum, self@, log_probs@, seq_len as int) by {
                assert(finals@ =~= final_scores(sum, self@, log_probs@, seq_len as int));
                lemma_trace_is_best_path(sum, self@, log_probs@, path@, seq_len - 1);
                assert(path@.take(seq_len as int) =~= path@);
            }
        }
        path
    }
}

/// The best class of a row is a class.
proof fn lemma_rows_in_range(path: Seq<usize>, log_probs: Seq<u32>, rows: int, n: int)
    requires
        0 <= rows,
        0 <= n,
        rows * n <= log_probs.len(),
        ids(path) == Seq::new(rows as nat, |t: int| row_best(log_probs, n, t)),
    ensures
        path.len() == rows,
        n > 0 ==> forall|t: int| 0 <= t < rows ==> #[trigger] path[t] < n,
{
    assert(path.len() == ids(path).len());
    if n > 0 {
        assert forall|t: int| 0 <= t < rows implies #[trigger] path[t] < n by {
            lemma_row_in_bounds(t, rows, n);
            score::lemma_first_best(
                log_probs.subrange(t * n, t * n + n),
                score::NEG_INFINITY,
            );
            assert(ids(path)[t] == row_best(log_probs, n, t));
        }
    }
}

} // verus!
