//! What values stand for in the statements on them, and what those statements ask of them.

use vstd::prelude::*;

use crate::config::ModelConfig;
use crate::engine;
use crate::engine::{DetectionResult, EngineError, Trouble};
use crate::labels;
use crate::labels::{LabelError, LabelFault, LabelInfo};
use crate::redaction;
use crate::routing;
use crate::routing::Batch;
use crate::score;
use crate::spans;
use crate::text;
use crate::viterbi;
use crate::viterbi::StepScores;

verus! {

/// A span of a label, a start and an end is a range with that label, start and end.
pub proof fn law_triples_are_ranges(triples: Seq<(String, usize, usize)>, k: int)
    requires
        0 <= k < triples.len(),
    ensures
        spans::ranges(triples).len() == triples.len(),
        spans::ranges(triples)[k].label == triples[k].0@,
        spans::ranges(triples)[k].start == triples[k].1,
        spans::ranges(triples)[k].end == triples[k].2,
{
}

/// What is put into a text is a start, an end and what is put there.
pub proof fn law_triples_are_replacements(marks: Seq<(usize, usize, String)>, k: int)
    requires
        0 <= k < marks.len(),
    ensures
        redaction::replacements(marks).len() == marks.len(),
        redaction::replacements(marks)[k].start == marks[k].0,
        redaction::replacements(marks)[k].end == marks[k].1,
        redaction::replacements(marks)[k].with == marks[k].2@,
{
}

/// Entries of labels are numbers and texts.
pub proof fn law_pairs_are_entries(entries: Seq<(usize, String)>, k: int)
    requires
        0 <= k < entries.len(),
    ensures
        labels::entries_of(entries).len() == entries.len(),
        labels::entries_of(entries)[k].0 == entries[k].0,
        labels::entries_of(entries)[k].1 == entries[k].1@,
{
}

/// The span label of a class is what the label set holds for it.
pub proof fn law_span_labels(info: LabelInfo, id: int)
    ensures
        info.span_label@[id] matches Some(name) ==> info.span_name(id) == Some(name@),
        info.span_label@[id] is None ==> info.span_name(id) is None,
        info.classes() == info.id2label@.len(),
        info.wf() <==> info.boundary@.len() == info.id2label@.len() && info.span_label@.len()
            == info.id2label@.len(),
{
}

/// Labels are numbers of classes, and the other way round.
pub proof fn law_labels_are_numbers(path: Seq<usize>, numbers: Seq<int>, t: int)
    ensures
        viterbi::ids(path).len() == path.len(),
        0 <= t < path.len() ==> viterbi::ids(path)[t] == path[t],
        engine::class_ids(numbers).len() == numbers.len(),
        0 <= t < numbers.len() && 0 <= numbers[t] <= usize::MAX ==> engine::class_ids(numbers)[t]
            == numbers[t],
{
}

/// An addition computes what a function says if nothing else can come of it.
pub proof fn law_what_an_addition_computes<F: Fn(u32, u32) -> u32>(
    plus: F,
    sum: spec_fn(u32, u32) -> u32,
)
    ensures
        viterbi::computes(plus, sum) <==> forall|a: u32, b: u32, r: u32| #[trigger]
            plus.ensures((a, b), r) ==> r == sum(a, b),
{
}

/// Scores of starts, steps and ends are complete where each class has one, and a step to
/// each class.
pub proof fn law_complete_steps(m: StepScores)
    ensures
        m.wf() <==> m.classes >= 0 && m.start.len() == m.classes && m.end.len() == m.classes
            && m.step.len() == m.classes && forall|p: int|
            0 <= p < m.classes ==> (#[trigger] m.step[p]).len() == m.classes,
{
}

/// Greatest scores and choices of experts are places with scores.
pub proof fn law_pairs_are_placed(
    places: Seq<usize>,
    values: Seq<u32>,
    experts: Seq<u32>,
    pairs: Seq<(usize, u32)>,
    i: int,
)
    ensures
        routing::paired(places, values).len() == places.len(),
        0 <= i < places.len() ==> routing::paired(places, values)[i].place == places[i]
            && routing::paired(places, values)[i].score == values[i],
        routing::choices(experts, values).len() == experts.len(),
        0 <= i < experts.len() ==> routing::choices(experts, values)[i].place == experts[i]
            && routing::choices(experts, values)[i].score == values[i],
        routing::all_placed(pairs).len() == pairs.len(),
        0 <= i < pairs.len() ==> routing::all_placed(pairs)[i].place == pairs[i].0
            && routing::all_placed(pairs)[i].score == pairs[i].1,
{
}

/// A batch is an expert, a start and a length.
pub proof fn law_batches(batch: Batch)
    ensures
        routing::batch_of(batch) == (batch.expert as int, batch.start as int, batch.len as int),
{
}

/// Texts stand for their characters.
pub proof fn law_texts(parts: Seq<String>, k: int)
    requires
        0 <= k < parts.len(),
    ensures
        text::views(parts).len() == parts.len(),
        text::views(parts)[k] == parts[k]@,
{
}

/// A detection comes to what was found and the number of tokens, or to an error.
pub proof fn law_outcomes(r: Result<DetectionResult, EngineError>)
    ensures
        r matches Ok(result) ==> engine::outcome(r) == Ok::<(Seq<spans::Detection>, nat), Trouble>(
            (spans::detections(result.spans@), result.tokens as nat),
        ),
        r matches Err(error) ==> engine::outcome(r) == Err::<
            (Seq<spans::Detection>, nat),
            Trouble,
        >(error@),
{
}

/// Errors stand for what they hold.
pub proof fn law_errors(error: EngineError, fault: LabelError)
    ensures
        error matches EngineError::UnknownOperatingPoint(asked, known) ==> error@
            == Trouble::UnknownOperatingPoint(asked@, text::views(known@)),
        error matches EngineError::Encode(message) ==> error@ == Trouble::Encode(message@),
        error matches EngineError::Forward(message) ==> error@ == Trouble::Forward(message@),
        error is NoClasses ==> error@ is NoClasses,
        error is ScoreCount ==> error@ is ScoreCount,
        error is OffsetsPastText ==> error@ is OffsetsPastText,
        error is OffsetCount ==> error@ is OffsetCount,
        fault matches LabelError::BadId(id) ==> fault@ == LabelFault::BadId(id@),
        fault matches LabelError::UnknownTag(label) ==> fault@ == LabelFault::UnknownTag(label@),
        fault matches LabelError::Malformed(label) ==> fault@ == LabelFault::Malformed(label@),
{
}

/// What labels and offsets must be for spans to be found: labels name classes, and ranges
/// with a byte in them end within the text.
pub proof fn law_what_extraction_asks_for(
    names: Seq<usize>,
    info: LabelInfo,
    ranges: Seq<spans::Range>,
    len: int,
)
    ensures
        spans::ids_in_range(names, info) <==> forall|t: int|
            0 <= t < names.len() ==> #[trigger] names[t] < info.boundary@.len() && names[t]
                < info.span_label@.len(),
        spans::ends_within(ranges, len) <==> forall|k: int|
            0 <= k < ranges.len() && (#[trigger] ranges[k]).start < ranges[k].end ==> ranges[k].end
                <= len,
{
}

/// What scores and choices must be to be routed: scores are numbers, and choices name
/// experts.
pub proof fn law_what_routing_asks_for(
    scores: Seq<u32>,
    experts: Seq<u32>,
    rows: Seq<Vec<u32>>,
    num_experts: int,
)
    ensures
        routing::all_numbers(scores) <==> forall|i: int|
            0 <= i < scores.len() ==> !score::is_nan(#[trigger] scores[i]),
        routing::choices_valid(experts, num_experts) <==> forall|i: int|
            0 <= i < experts.len() ==> #[trigger] experts[i] < num_experts,
        routing::rows_valid(rows, num_experts) <==> forall|t: int|
            0 <= t < rows.len() ==> (#[trigger] rows[t])@.len() == num_experts
                && routing::all_numbers(rows[t]@),
{
}

/// Scores are enough where there is one for each class of each token, and sizes can be
/// counted where none of them is too large.
pub proof fn law_enough_and_countable(
    classes: nat,
    scores: Seq<u32>,
    tokens: nat,
    config: ModelConfig,
)
    ensures
        engine::scores_fit(classes, scores, tokens) <==> scores.len() >= tokens * classes,
        config.countable() <==> config.num_attention_heads + 2 * config.num_key_value_heads
            <= usize::MAX && (config.num_attention_heads + 2 * config.num_key_value_heads)
            * config.head_dim <= usize::MAX && 2 * config.intermediate_size <= usize::MAX,
{
}

} // verus!
