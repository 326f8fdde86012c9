//! What a detection comes to, from the text to the spans.

use vstd::prelude::*;

use crate::engine;
use crate::engine::{DecoderMode, DetectionResult, Engine, EngineError, Trouble};
use crate::inspection;
use crate::inspection::TokenRow;
use crate::labels::LabelInfo;
use crate::spans;
use crate::spans::Range;
use crate::text;
use crate::timing::Tally;
use crate::viterbi;
use crate::viterbi::StepScores;

verus! {

/// Tokens are labelled by their scores, each of them on its own or by the best path.
pub open spec fn labelled_by<F: Fn(u32, u32) -> u32>(
    plus: F,
    steps: Option<StepScores>,
    classes: int,
    scores: Seq<u32>,
    labels: Seq<usize>,
) -> bool {
    &&& forall|t: int| 0 <= t < labels.len() ==> #[trigger] labels[t] < classes
    &&& steps is None ==> forall|t: int|
        0 <= t < labels.len() ==> #[trigger] labels[t] as int == viterbi::row_best(
            scores,
            classes,
            t,
        )
    &&& steps matches Some(m) ==> forall|sum: spec_fn(u32, u32) -> u32, t: int|
        #![trigger viterbi::computes(plus, sum), labels[t]]
        viterbi::computes(plus, sum) && 0 <= t < labels.len() ==> labels[t] as int
            == viterbi::decoded(sum, m, scores, labels.len() as int)[t]
}

/// A range with a byte in it ends behind the last of so many bytes.
pub open spec fn reaches_past(ranges: Seq<Range>, len: int) -> bool {
    exists|k: int|
        0 <= k < ranges.len() && (#[trigger] ranges[k]).start < ranges[k].end && ranges[k].end > len
}

/// What is found comes of labels: nothing is added, left out or changed.
pub open spec fn found_from<F: Fn(u32, u32) -> u32>(
    plus: F,
    steps: Option<StepScores>,
    info: LabelInfo,
    whole: Seq<char>,
    offsets: Seq<(usize, usize)>,
    scores: Seq<u32>,
    tokens: nat,
    r: Result<DetectionResult, EngineError>,
) -> bool {
    exists|labels: Seq<usize>|
        #![trigger spans::extracted(labels, offsets, whole, info)]
        {
            &&& labels.len() == tokens
            &&& labelled_by(plus, steps, info.id2label@.len() as int, scores, labels)
            &&& match r {
                Ok(result) => result.tokens == tokens && spans::detections(result.spans@)
                    == spans::extracted(labels, offsets, whole, info),
                Err(error) => error@ is OffsetsPastText && reaches_past(
                    spans::raw_ranges(labels, offsets, info),
                    text::bytes_of(whole).len() as int,
                ),
            }
        }
}

/// What scores come to. Without classes there is an error, and with fewer scores than one
/// for each class of each token; otherwise the spans are those of the tokens' labels, of
/// all of them, and the tokens are all counted.
pub proof fn law_what_scores_come_to<F: Fn(u32, u32) -> u32>(
    plus: F,
    steps: Option<StepScores>,
    info: LabelInfo,
    whole: Seq<char>,
    offsets: Seq<(usize, usize)>,
    scores: Seq<u32>,
    tokens: nat,
    r: Result<DetectionResult, EngineError>,
)
    requires
        engine::concludes(
            plus,
            steps,
            info,
            whole,
            offsets,
            scores,
            tokens,
            engine::outcome(r),
        ),
    ensures
        info.id2label@.len() == 0 ==> (r matches Err(error) && error@ is NoClasses),
        info.id2label@.len() > 0 && scores.len() < tokens * info.id2label@.len() ==> (
        r matches Err(error) && error@ is ScoreCount),
        info.id2label@.len() > 0 && scores.len() >= tokens * info.id2label@.len() ==> found_from(
            plus,
            steps,
            info,
            whole,
            offsets,
            scores,
            tokens,
            r,
        ),
{
    let classes = info.classes();
    if classes > 0 && scores.len() >= tokens * classes {
        let labels = choose|labels: Seq<usize>| #[trigger]
            engine::labelled(plus, steps, classes, scores, tokens, labels) && engine::outcome(r)
                == engine::found_by(labels, info, whole, offsets, tokens);
        lemma_labelled_by(plus, steps, classes, scores, tokens, labels);
        let raw = spans::raw_ranges(labels, offsets, info);
        let len = text::bytes_of(whole).len() as int;
        if !spans::ends_within(raw, len) {
            let k = choose|k: int|
                0 <= k < raw.len() && (#[trigger] raw[k]).start < raw[k].end && raw[k].end > len;
            assert(raw[k].end > len);
        }
        assert(spans::extracted(labels, offsets, whole, info).len() >= 0);
    }
}

proof fn lemma_labelled_by<F: Fn(u32, u32) -> u32>(
    plus: F,
    steps: Option<StepScores>,
    classes: nat,
    scores: Seq<u32>,
    tokens: nat,
    labels: Seq<usize>,
)
    requires
        engine::labelled(plus, steps, classes, scores, tokens, labels),
    ensures
        labels.len() == tokens,
        labelled_by(plus, steps, classes as int, scores, labels),
{
    let ids = viterbi::ids(labels);
    assert forall|t: int| 0 <= t < labels.len() implies ids[t] == #[trigger] labels[t] as int by {}
    if let Some(m) = steps {
        assert forall|sum: spec_fn(u32, u32) -> u32, t: int|
            #![trigger viterbi::computes(plus, sum), labels[t]]
            viterbi::computes(plus, sum) && 0 <= t < labels.len() implies labels[t] as int
            == viterbi::decoded(sum, m, scores, labels.len() as int)[t] by {
            assert(ids == engine::labels_of(sum, steps, classes, scores, tokens));
            assert(ids[t] == labels[t] as int);
        }
    } else {
        assert(ids == engine::best_classes(classes, scores, tokens));
        assert forall|t: int| 0 <= t < labels.len() implies #[trigger] labels[t] as int
            == viterbi::row_best(scores, classes as int, t) by {
            assert(ids[t] == labels[t] as int);
        }
    }
}

/// The steps of the decoder that is asked for; there are none where each token is labelled
/// on its own.
pub open spec fn steps_for(engine: Engine, mode: DecoderMode, point: Seq<char>) -> Option<StepScores> {
    match mode {
        DecoderMode::Viterbi => Some(engine.points()[point]),
        DecoderMode::Argmax => None,
    }
}

/// What a detection comes to. The empty text has no tokens and no spans. A text is turned
/// into tokens, and the tokens, all of them, are scored; an error of either is passed on.
/// What is found is then what the scores come to.
pub proof fn law_what_a_detection_comes_to<
    S: FnOnce(Vec<u32>) -> Result<Vec<u32>, String>,
    F: Fn(u32, u32) -> u32,
>(
    engine: Engine,
    score: S,
    plus: F,
    whole: Seq<char>,
    mode: DecoderMode,
    point: Seq<char>,
    before: Tally,
    after: Tally,
    r: Result<DetectionResult, EngineError>,
)
    requires
        engine.detects(score, plus, whole, mode, point, before, after, r),
    ensures
        whole.len() == 0 ==> (r matches Ok(result) && result.spans@.len() == 0 && result.tokens
            == 0),
        whole.len() > 0 && mode is Viterbi && !engine.points().contains_key(point) ==> (
        r matches Err(error) && error@ is UnknownOperatingPoint),
        whole.len() > 0 && (mode is Argmax || engine.points().contains_key(point)) ==> exists|
            encoded: Result<(Seq<u32>, Seq<(usize, usize)>), Seq<char>>,
        | #[trigger]
            engine::may_encode(engine.reader(), whole, encoded) && match encoded {
                Err(message) => r matches Err(error) && error@ == Trouble::Encode(message),
                Ok((ids, offsets)) => if ids.len() == 0 {
                    r matches Ok(result) && result.spans@.len() == 0 && result.tokens == 0
                } else {
                    exists|given: Vec<u32>, scored: Result<Vec<u32>, String>| #[trigger]
                        score.ensures((given,), scored) && given@ == ids && match scored {
                            Err(message) => r matches Err(error) && error@ == Trouble::Forward(
                                message@,
                            ),
                            Ok(scores) => engine::concludes(
                                plus,
                                steps_for(engine, mode, point),
                                engine.labels(),
                                whole,
                                offsets,
                                scores@,
                                ids.len(),
                                engine::outcome(r),
                            ),
                        }
                },
            },
{
    lemma_nothing(r);
    if whole.len() > 0 && (mode is Argmax || engine.points().contains_key(point)) {
        let encoded = choose|encoded: Result<(Seq<u32>, Seq<(usize, usize)>), Seq<char>>| #[trigger]
            engine::may_encode(engine.reader(), whole, encoded) && engine::goes_on_from(
                score,
                plus,
                engine::asked_decoder(engine.points(), mode, point),
                engine.labels(),
                whole,
                encoded,
                before,
                after,
                engine::outcome(r),
            );
        assert(engine::may_encode(engine.reader(), whole, encoded));
        assert(engine::asked_decoder(engine.points(), mode, point) == steps_for(
            engine,
            mode,
            point,
        ));
        if let Ok((ids, offsets)) = encoded {
            if ids.len() > 0 {
                let (given, scored) = choose|given: Vec<u32>, scored: Result<Vec<u32>, String>|
                    #[trigger] score.ensures((given,), scored) && given@ == ids
                        && engine::comes_of_scores(
                        plus,
                        engine::asked_decoder(engine.points(), mode, point),
                        engine.labels(),
                        whole,
                        ids,
                        offsets,
                        scored,
                        before,
                        after,
                        engine::outcome(r),
                    );
                assert(score.ensures((given,), scored));
            }
        }
    }
}

proof fn lemma_nothing(r: Result<DetectionResult, EngineError>)
    ensures
        engine::outcome(r) == engine::nothing() ==> (r matches Ok(result) && result.spans@.len()
            == 0 && result.tokens == 0),
{
    if let Ok(result) = r {
        assert(result.found().len() == result.spans@.len());
    }
}

/// What is shown of scores: a row for each token with its id, its bytes, the class that it
/// is labelled with and its own scores, and nothing else.
pub proof fn law_what_an_inspection_shows<F: Fn(u32, u32) -> u32>(
    plus: F,
    steps: Option<StepScores>,
    info: LabelInfo,
    whole: Seq<char>,
    ids: Seq<u32>,
    offsets: Seq<(usize, usize)>,
    scores: Seq<u32>,
    listed: int,
    r: Result<Vec<TokenRow>, EngineError>,
)
    requires
        engine::inspects(plus, steps, info, whole, ids, offsets, scores, listed, r),
    ensures
        ({
            let classes = info.id2label@.len();
            &&& classes == 0 ==> (r matches Err(error) && error@ is NoClasses)
            &&& classes > 0 && scores.len() < ids.len() * classes ==> (r matches Err(error)
                && error@ is ScoreCount)
            &&& classes > 0 && scores.len() >= ids.len() * classes && offsets.len() < ids.len() ==> (
            r matches Err(error) && error@ is OffsetCount)
            &&& classes > 0 && scores.len() >= ids.len() * classes && offsets.len() >= ids.len()
                ==> (r matches Ok(rows) && exists|labels: Seq<usize>|
                {
                    &&& labels.len() == ids.len() && rows@.len() == ids.len()
                    &&& #[trigger] labelled_by(plus, steps, classes as int, scores, labels)
                    &&& forall|t: int|
                        0 <= t < ids.len() ==> inspection::is_row_of(
                            #[trigger] rows@[t],
                            info,
                            whole,
                            ids[t],
                            offsets[t],
                            labels[t],
                            scores.subrange(t * classes as int, t * classes + classes),
                            listed,
                        )
                })
        }),
{
    let classes = info.classes();
    if classes > 0 && scores.len() >= ids.len() * classes && offsets.len() >= ids.len() {
        let rows = r->Ok_0;
        let labels = choose|labels: Seq<usize>|
            engine::labelled(plus, steps, info.classes(), scores, ids.len(), labels)
                && #[trigger] inspection::shows(
                rows@,
                info,
                whole,
                ids,
                offsets,
                labels,
                scores,
                listed,
            );
        lemma_labelled_by(plus, steps, classes, scores, ids.len(), labels);
        assert(labelled_by(plus, steps, classes as int, scores, labels));
    }
}

/// How many tokens a text may have: none where it is empty, and otherwise as many as there
/// are in what the tokenizer may make of it. Where nothing is left to chance, a count is
/// the only one there is.
pub proof fn law_how_many_tokens(engine: Engine, whole: Seq<char>, n: nat)
    ensures
        whole.len() == 0 ==> (engine.may_count(whole, n) <==> n == 0),
        whole.len() > 0 ==> (engine.may_count(whole, n) <==> exists|
            ids: Seq<u32>,
            offsets: Seq<(usize, usize)>,
        |
            ids.len() == n && #[trigger] engine::may_encode(
                engine.reader(),
                whole,
                Ok((ids, offsets)),
            )),
        engine.counts(whole, n) ==> engine.may_count(whole, n),
        engine.counts(whole, n) && engine.is_settled() ==> forall|m: nat| #[trigger]
            engine.may_count(whole, m) ==> m == n,
{
}

/// What an inspection comes to: an error of the tokenizer or of the model is passed on, an
/// operating point that is not there is refused, and otherwise all tokens are shown with
/// their scores.
pub proof fn law_what_an_inspection_comes_to<
    S: FnOnce(Vec<u32>) -> Result<Vec<u32>, String>,
    F: Fn(u32, u32) -> u32,
>(
    engine: Engine,
    score: S,
    plus: F,
    mode: DecoderMode,
    point: Seq<char>,
    whole: Seq<char>,
    encoded: Result<(Seq<u32>, Seq<(usize, usize)>), Seq<char>>,
    listed: int,
    r: Result<Vec<TokenRow>, EngineError>,
)
    requires
        engine::looks_on_from(
            score,
            plus,
            engine.points(),
            mode,
            point,
            engine.labels(),
            whole,
            encoded,
            listed,
            r,
        ),
    ensures
        match encoded {
            Err(message) => r matches Err(error) && error@ == Trouble::Encode(message),
            Ok((ids, offsets)) => if ids.len() == 0 {
                r matches Ok(rows) && rows@.len() == 0
            } else {
                exists|given: Vec<u32>, scored: Result<Vec<u32>, String>| #[trigger]
                    score.ensures((given,), scored) && given@ == ids && match scored {
                        Err(message) => r matches Err(error) && error@ == Trouble::Forward(
                            message@,
                        ),
                        Ok(scores) => if mode is Viterbi && !engine.points().contains_key(point) {
                            r matches Err(error) && error@ is UnknownOperatingPoint
                        } else {
                            engine::inspects(
                                plus,
                                steps_for(engine, mode, point),
                                engine.labels(),
                                whole,
                                ids,
                                offsets,
                                scores@,
                                listed,
                                r,
                            )
                        },
                    }
            },
        },
{
    assert(engine::asked_decoder(engine.points(), mode, point) == steps_for(engine, mode, point));
    if let Ok((ids, offsets)) = encoded {
        if ids.len() > 0 {
            let (given, scored) = choose|given: Vec<u32>, scored: Result<Vec<u32>, String>|
                #[trigger] score.ensures((given,), scored) && given@ == ids && match scored {
                    Err(message) => r matches Err(error) && error@ == Trouble::Forward(message@),
                    Ok(scores) => if engine::lacks_decoder(engine.points(), mode, point) {
                        r matches Err(error) && engine::refuses_point(
                            error,
                            engine.points(),
                            point,
                        )
                    } else {
                        engine::inspects(
                            plus,
                            engine::asked_decoder(engine.points(), mode, point),
                            engine.labels(),
                            whole,
                            ids,
                            offsets,
                            scores@,
                            listed,
                            r,
                        )
                    },
                };
            assert(score.ensures((given,), scored));
        }
    }
}

/// An operating point that is refused is named, and so are all that there are.
pub proof fn law_refused_points(
    error: EngineError,
    points: Map<Seq<char>, StepScores>,
    point: Seq<char>,
)
    requires
        engine::refuses_point(error, points, point),
    ensures
        error@ matches Trouble::UnknownOperatingPoint(asked, known) && asked == point && forall|
            name: Seq<char>,
        | #[trigger] points.contains_key(name) <==> known.contains(name),
{
    let known = error@->UnknownOperatingPoint_1;
    assert forall|name: Seq<char>| #[trigger] points.contains_key(name) <==> known.contains(name) by {
        assert(points.dom().contains(name) <==> known.contains(name));
    }
}

} // verus!
