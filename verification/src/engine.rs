//! The detection pipeline: tokenize, score, decode, extract spans.

use tokenizers::Tokenizer;
use vstd::prelude::*;

use crate::decoders;
use crate::decoders::DecoderSet;
use crate::inspection;
use crate::inspection::TokenRow;
use crate::json::Json;
use crate::labels::LabelInfo;
use crate::redaction;
use crate::settings;
use crate::settings::TextTokenizer;
use crate::span_laws;
use crate::spans;
use crate::spans::{DetectedSpan, Detection};
use crate::text;
use crate::timing;
use crate::timing::{Stage, StageTimings, Tally};
use crate::viterbi;
use crate::viterbi::{StepScores, ViterbiDecoder};
use crate::viterbi_laws;

verus! {

/// The operating point that every checkpoint is expected to define, and the one
/// that is used where none is named.
pub const DEFAULT_OPERATING_POINT: &'static str = "default";

/// How the class scores of the tokens become labels.
#[derive(Debug, Clone, Copy)]
pub enum DecoderMode {
    /// The best path that keeps to the order of boundaries.
    Viterbi,
    /// The best class of every token on its own.
    Argmax,
}

/// The mode that a name stands for.
pub open spec fn mode_named(name: Seq<char>) -> Option<DecoderMode> {
    if name == "viterbi"@ {
        Some(DecoderMode::Viterbi)
    } else if name == "argmax"@ {
        Some(DecoderMode::Argmax)
    } else {
        None
    }
}

impl DecoderMode {
    /// The mode that a name stands for, where it stands for one.
    pub fn from_wire_name(s: &str) -> (r: Option<Self>)
        ensures
            r == mode_named(s@),
    {
        if text::same_text(s, "viterbi") {
            Some(DecoderMode::Viterbi)
        } else if text::same_text(s, "argmax") {
            Some(DecoderMode::Argmax)
        } else {
            None
        }
    }
}

/// What was found in a text, and how many tokens it has.
#[derive(Debug)]
pub struct DetectionResult {
    pub spans: Vec<DetectedSpan>,
    pub tokens: usize,
}

impl DetectionResult {
    /// What was found.
    pub open spec fn found(&self) -> Seq<Detection> {
        spans::detections(self.spans@)
    }
}

impl Default for DetectionResult {
    fn default() -> (r: Self)
        ensures
            r.found() == Seq::<Detection>::empty(),
            r.tokens == 0,
    {
        let r = DetectionResult { spans: Vec::new(), tokens: 0 };
        assert(r.found() =~= Seq::<Detection>::empty());
        r
    }
}

/// A tokenizer may make this of a text: for each token its id, and its bytes in the
/// text; or an error that says this.
pub uninterp spec fn may_encode(
    tokenizer: tokenizers::Tokenizer,
    text: Seq<char>,
    outcome: Result<(Seq<u32>, Seq<(usize, usize)>), Seq<char>>,
) -> bool;

/// Tokens: the id of each, and its bytes in the text.
pub struct Encoded {
    pub ids: Vec<u32>,
    pub offsets: Vec<(usize, usize)>,
}

/// The ids of the tokens that an outcome holds, if it is no error.
pub open spec fn ids_in(outcome: Result<(Seq<u32>, Seq<(usize, usize)>), Seq<char>>) -> Option<
    Seq<u32>,
> {
    match outcome {
        Ok((ids, _)) => Some(ids),
        Err(_) => None,
    }
}

/// Every outcome that is possible for a tokenizer and a text holds these tokens, or is
/// an error where none are given.
pub open spec fn comes_only_to(
    tokenizer: Tokenizer,
    text: Seq<char>,
    ids: Option<Seq<u32>>,
) -> bool {
    forall|outcome: Result<(Seq<u32>, Seq<(usize, usize)>), Seq<char>>| #[trigger]
        may_encode(tokenizer, text, outcome) ==> ids_in(outcome) == ids
}

/// `Tokenizer::encode`, without special tokens, turns a text into tokens or returns
/// an error. As a tokenizer may choose its merges by chance, the outcome is stated
/// as one that is possible for the tokenizer and the text; it has one byte range for
/// each token. Where the model drops no merges, no outcome with other tokens is
/// possible. `Tokenizer::encode` panics where a part of the tokenizer cannot work on
/// the text: where a truncation leaves no room for its overlap, a `FixedLength` has
/// the length 0, a template asks for the second of one sequence or is handed neither
/// one nor two, a padding overflows, an added token is left with a range that ends in
/// front of its start or splits a character, a pattern matches from behind its end,
/// or a normalizer takes the alignment of the first character away.
#[verifier::external_body]
fn encode(tokenizer: &Tokenizer, text: &str) -> (r: Result<Encoded, String>)
    requires
        settings::encodes_soundly(*tokenizer),
    ensures
        match r {
            Ok(encoded) => may_encode(*tokenizer, text@, Ok((encoded.ids@, encoded.offsets@)))
                && encoded.ids@.len() == encoded.offsets@.len(),
            Err(message) => may_encode(*tokenizer, text@, Err(message@)),
        },
        settled(*tokenizer) ==> comes_only_to(
            *tokenizer,
            text@,
            match r {
                Ok(encoded) => Some(encoded.ids@),
                Err(_) => None,
            },
        ),
{
    match tokenizer.encode(text, false) {
        Ok(e) => Ok(Encoded { ids: e.get_ids().to_vec(), offsets: e.get_offsets().to_vec() }),
        Err(e) => Err(e.to_string()),
    }
}

/// A tokenizer chooses nothing by chance.
pub open spec fn settled(tokenizer: Tokenizer) -> bool {
    exists|json: Json| #[trigger]
        settings::may_build(json, Ok(tokenizer)) && settings::never_drops(json)
}

/// Why detection fails.
#[derive(Debug)]
pub enum EngineError {
    /// No decoder has the name that was asked for; these are the names there are.
    UnknownOperatingPoint(String, Vec<String>),
    /// The text could not be tokenized.
    Encode(String),
    /// The tokens could not be scored.
    Forward(String),
    /// There is no class to give a token.
    NoClasses,
    /// There are fewer scores than one for each class of each token.
    ScoreCount,
    /// A token lies outside the text.
    OffsetsPastText,
    /// There are fewer byte ranges than tokens.
    OffsetCount,
}

/// What an error stands for.
pub enum Trouble {
    UnknownOperatingPoint(Seq<char>, Seq<Seq<char>>),
    Encode(Seq<char>),
    Forward(Seq<char>),
    NoClasses,
    ScoreCount,
    OffsetsPastText,
    OffsetCount,
}

impl View for EngineError {
    type V = Trouble;

    open spec fn view(&self) -> Trouble {
        match *self {
            EngineError::UnknownOperatingPoint(asked, known) => Trouble::UnknownOperatingPoint(
                asked@,
                text::views(known@),
            ),
            EngineError::Encode(message) => Trouble::Encode(message@),
            EngineError::Forward(message) => Trouble::Forward(message@),
            EngineError::NoClasses => Trouble::NoClasses,
            EngineError::ScoreCount => Trouble::ScoreCount,
            EngineError::OffsetsPastText => Trouble::OffsetsPastText,
            EngineError::OffsetCount => Trouble::OffsetCount,
        }
    }
}

/// What an error says.
pub open spec fn trouble_message(trouble: Trouble) -> Seq<char> {
    match trouble {
        Trouble::UnknownOperatingPoint(asked, known) => "unknown operating point "@
            + text::quoted_of(asked) + " (known: "@ + text::joined(known, ", "@) + ")"@,
        Trouble::Encode(message) => "encode: "@ + message,
        Trouble::Forward(message) => message,
        Trouble::NoClasses => "the model has no classes"@,
        Trouble::ScoreCount => "the scores do not match the tokens"@,
        Trouble::OffsetsPastText => "a token lies outside the text"@,
        Trouble::OffsetCount => "the byte ranges do not match the tokens"@,
    }
}

impl EngineError {
    /// What the error says.
    pub fn message(&self) -> (r: String)
        ensures
            r@ == trouble_message(self@),
    {
        match self {
            EngineError::UnknownOperatingPoint(asked, known) => {
                let mut message = "unknown operating point ".to_owned();
                message.append(text::quoted(asked.as_str()).as_str());
                message.append(" (known: ");
                message.append(text::join(known, ", ").as_str());
                message.append(")");
                message
            },
            EngineError::Encode(message) => "encode: ".to_owned().concat(message.as_str()),
            EngineError::Forward(message) => message.clone(),
            EngineError::NoClasses => "the model has no classes".to_owned(),
            EngineError::ScoreCount => "the scores do not match the tokens".to_owned(),
            EngineError::OffsetsPastText => "a token lies outside the text".to_owned(),
            EngineError::OffsetCount => "the byte ranges do not match the tokens".to_owned(),
        }
    }
}

/// What detection comes to: what was found and the number of tokens, or what went
/// wrong.
pub open spec fn outcome(r: Result<DetectionResult, EngineError>) -> Result<
    (Seq<Detection>, nat),
    Trouble,
> {
    match r {
        Ok(result) => Ok((result.found(), result.tokens as nat)),
        Err(error) => Err(error@),
    }
}

/// There is a score for each class of each token. More scores are passed over.
pub open spec fn scores_fit(classes: nat, scores: Seq<u32>, tokens: nat) -> bool {
    scores.len() >= tokens * classes
}

/// Decides whether there are as many scores as there must be.
fn fits(classes: usize, len: usize, tokens: usize) -> (r: bool)
    ensures
        forall|scores: Seq<u32>|
            scores.len() == len ==> r == #[trigger] scores_fit(
                classes as nat,
                scores,
                tokens as nat,
            ),
{
    match tokens.checked_mul(classes) {
        Some(wanted) => len >= wanted,
        None => false,
    }
}

/// The best class of every token on its own.
pub open spec fn best_classes(classes: nat, scores: Seq<u32>, tokens: nat) -> Seq<int> {
    Seq::new(tokens, |t: int| viterbi::row_best(scores, classes as int, t))
}

/// The labels of tokens: those of a decoder, or the best class of every token on
/// its own.
pub open spec fn labels_of(
    sum: spec_fn(u32, u32) -> u32,
    decoder: Option<StepScores>,
    classes: nat,
    scores: Seq<u32>,
    tokens: nat,
) -> Seq<int> {
    match decoder {
        Some(steps) => viterbi::decoded(sum, steps, scores, tokens as int),
        None => best_classes(classes, scores, tokens),
    }
}

/// What a decoder stands for, where there is one.
pub open spec fn steps_of(decoder: Option<&ViterbiDecoder>) -> Option<StepScores> {
    match decoder {
        Some(decoder) => Some(decoder@),
        None => None,
    }
}

/// A label sequence is the one that the scores give.
pub open spec fn labelled<F: Fn(u32, u32) -> u32>(
    plus: F,
    decoder: Option<StepScores>,
    classes: nat,
    scores: Seq<u32>,
    tokens: nat,
    labels: Seq<usize>,
) -> bool {
    &&& labels.len() == tokens
    &&& forall|t: int| 0 <= t < tokens ==> #[trigger] labels[t] < classes
    &&& decoder is None ==> viterbi::ids(labels) == best_classes(classes, scores, tokens)
    &&& forall|sum: spec_fn(u32, u32) -> u32| #[trigger]
        viterbi::computes(plus, sum) ==> viterbi::ids(labels) == labels_of(
            sum,
            decoder,
            classes,
            scores,
            tokens,
        )
}

/// Gives every token a label.
fn label_tokens<F: Fn(u32, u32) -> u32>(
    decoder: Option<&ViterbiDecoder>,
    classes: usize,
    scores: &[u32],
    tokens: usize,
    plus: &F,
) -> (labels: Vec<usize>)
    requires
        classes > 0,
        decoder matches Some(d) ==> d@.wf() && d@.classes == classes,
        scores_fit(classes as nat, scores@, tokens as nat),
        forall|a: u32, b: u32| plus.requires((a, b)),
    ensures
        labelled(*plus, steps_of(decoder), classes as nat, scores@, tokens as nat, labels@),
{
    match decoder {
        Some(d) => d.decode(scores, tokens, plus),
        None => {
            let labels = viterbi::argmax_decode(scores, tokens, classes);
            assert(viterbi::ids(labels@).len() == tokens);
            assert forall|t: int| 0 <= t < tokens implies #[trigger] labels@[t] < classes by {
                assert(viterbi::ids(labels@)[t] == viterbi::row_best(scores@, classes as int, t));
                viterbi::lemma_row_best_is_a_class(scores@, tokens as int, classes as int, t);
            }
            labels
        },
    }
}

/// The labels of tokens as class ids.
pub open spec fn class_ids(labels: Seq<int>) -> Seq<usize> {
    labels.map_values(|label: int| label as usize)
}

/// What the labels of a text's tokens come to.
pub open spec fn found_by(
    labels: Seq<usize>,
    info: LabelInfo,
    text: Seq<char>,
    offsets: Seq<(usize, usize)>,
    tokens: nat,
) -> Result<(Seq<Detection>, nat), Trouble> {
    if !spans::ends_within(
        spans::raw_ranges(labels, offsets, info),
        text::bytes_of(text).len() as int,
    ) {
        Err(Trouble::OffsetsPastText)
    } else {
        Ok((spans::extracted(labels, offsets, text, info), tokens))
    }
}

/// What the scores of a text's tokens come to.
pub open spec fn concluded(
    sum: spec_fn(u32, u32) -> u32,
    decoder: Option<StepScores>,
    info: LabelInfo,
    text: Seq<char>,
    offsets: Seq<(usize, usize)>,
    scores: Seq<u32>,
    tokens: nat,
) -> Result<(Seq<Detection>, nat), Trouble> {
    if info.classes() == 0 {
        Err(Trouble::NoClasses)
    } else if !scores_fit(info.classes(), scores, tokens) {
        Err(Trouble::ScoreCount)
    } else {
        found_by(
            class_ids(labels_of(sum, decoder, info.classes(), scores, tokens)),
            info,
            text,
            offsets,
            tokens,
        )
    }
}

/// How often each stage ran, after these stages ran too.
pub open spec fn counts_after(counts: Seq<u64>, stages: Seq<Stage>) -> Seq<u64>
    decreases stages.len(),
{
    if stages.len() == 0 {
        counts
    } else {
        let before = counts_after(counts, stages.drop_last());
        let i = stages.last().place();
        before.update(i, timing::counted(before[i], 1))
    }
}

/// These stages, and no others, were added to the timings, if timings are taken.
pub open spec fn ran(before: Tally, after: Tally, stages: Seq<Stage>) -> bool {
    if before.enabled {
        &&& after.enabled
        &&& after.counts == counts_after(before.counts, stages)
        &&& forall|stage: Stage|
            !stages.contains(stage) ==> #[trigger] after.time_of(stage) == before.time_of(stage)
    } else {
        after == before
    }
}

/// One more stage that was added to the timings.
proof fn lemma_ran_more(start: Tally, before: Tally, after: Tally, stages: Seq<Stage>, stage: Stage)
    requires
        before.wf(),
        ran(start, before, stages),
        !before.enabled ==> after == before,
        before.enabled ==> exists|elapsed_ns: u64| after == #[trigger] before.plus_run(
            stage,
            elapsed_ns,
        ),
    ensures
        ran(start, after, stages.push(stage)),
{
    if start.enabled {
        let more = stages.push(stage);
        assert(more.drop_last() =~= stages);
        assert forall|other: Stage| !more.contains(other) implies #[trigger] after.time_of(other)
            == start.time_of(other) by {
            assert(more[stages.len() as int] == stage);
            if stages.contains(other) {
                assert(more[stages.index_of(other)] == other);
            }
            timing::law_stages_have_places(stage, other);
            timing::law_stages_have_places(other, stage);
            assert(before.time_of(other) == start.time_of(other));
        }
    }
}

/// The stages that run when scores come to this.
pub open spec fn stages_to_conclude(outcome: Result<(Seq<Detection>, nat), Trouble>) -> Seq<Stage> {
    match outcome {
        Err(Trouble::NoClasses) => Seq::empty(),
        Err(Trouble::ScoreCount) => Seq::empty(),
        _ => seq![Stage::Decode, Stage::SpanExtract],
    }
}

/// What the scores of a text's tokens come to, whatever `plus` returns: what labels
/// come to that the scores give. They are the best classes of the tokens where there
/// is no decoder.
pub open spec fn concludes<F: Fn(u32, u32) -> u32>(
    plus: F,
    decoder: Option<StepScores>,
    info: LabelInfo,
    text: Seq<char>,
    offsets: Seq<(usize, usize)>,
    scores: Seq<u32>,
    tokens: nat,
    r: Result<(Seq<Detection>, nat), Trouble>,
) -> bool {
    &&& info.classes() == 0 <==> r == Err::<(Seq<Detection>, nat), Trouble>(Trouble::NoClasses)
    &&& info.classes() > 0 && !scores_fit(info.classes(), scores, tokens) <==> r == Err::<
        (Seq<Detection>, nat),
        Trouble,
    >(Trouble::ScoreCount)
    &&& info.classes() > 0 && scores_fit(info.classes(), scores, tokens)
        ==> exists|labels: Seq<usize>| #[trigger]
        labelled(plus, decoder, info.classes(), scores, tokens, labels) && r == found_by(
            labels,
            info,
            text,
            offsets,
            tokens,
        )
    &&& decoder is None ==> forall|sum: spec_fn(u32, u32) -> u32|
        r == #[trigger] concluded(sum, decoder, info, text, offsets, scores, tokens)
    &&& forall|sum: spec_fn(u32, u32) -> u32| #[trigger]
        viterbi::computes(plus, sum) ==> r == concluded(
            sum,
            decoder,
            info,
            text,
            offsets,
            scores,
            tokens,
        )
}

/// Turns the scores of a text's tokens into what was found in the text: gives every
/// token a label, and extracts the spans that the labels make.
pub fn conclude<F: Fn(u32, u32) -> u32>(
    decoder: Option<&ViterbiDecoder>,
    label_info: &LabelInfo,
    text: &str,
    offsets: &[(usize, usize)],
    scores: &[u32],
    tokens: usize,
    plus: &F,
    timings: &mut StageTimings,
) -> (r: Result<DetectionResult, EngineError>)
    requires
        label_info.wf(),
        decoder matches Some(d) ==> d@.wf() && d@.classes == label_info.classes(),
        forall|a: u32, b: u32| plus.requires((a, b)),
    ensures
        concludes(
            *plus,
            steps_of(decoder),
            *label_info,
            text@,
            offsets@,
            scores@,
            tokens as nat,
            outcome(r),
        ),
        ran(old(timings)@, final(timings)@, stages_to_conclude(outcome(r))),
{
    let ghost start = timings@;
    let ghost steps = steps_of(decoder);
    let classes: usize = label_info.num_classes();
    let len: usize = scores.len();
    proof {
        assert(counts_after(start.counts, Seq::empty()) == start.counts);
        assert(ran(start, start, Seq::empty()));
    }
    if classes == 0 {
        return Err(EngineError::NoClasses);
    }
    if !fits(classes, len, tokens) {
        return Err(EngineError::ScoreCount);
    }
    let decode = || -> (labels: Vec<usize>)
        ensures
            labelled(*plus, steps, classes as nat, scores@, tokens as nat, labels@),
        { label_tokens(decoder, classes, scores, tokens, plus) };
    let labels = timing::time_stage(timings, Stage::Decode, decode);
    proof {
        lemma_ran_more(start, start, timings@, Seq::empty(), Stage::Decode);
    }
    let ghost decoded = timings@;
    let extract = || -> (found: Option<Vec<DetectedSpan>>)
        ensures
            found is Some <==> spans::ends_within(
                spans::raw_ranges(labels@, offsets@, *label_info),
                text::bytes_of(text@).len() as int,
            ),
            found matches Some(all) ==> spans::detections(all@) == spans::extracted(
                labels@,
                offsets@,
                text@,
                *label_info,
            ),
        { spans::try_extract_spans(labels.as_slice(), offsets, text, label_info) };
    let found = timing::time_stage(timings, Stage::SpanExtract, extract);
    proof {
        lemma_ran_more(start, decoded, timings@, seq![Stage::Decode], Stage::SpanExtract);
        assert(seq![Stage::Decode].push(Stage::SpanExtract) =~= seq![
            Stage::Decode,
            Stage::SpanExtract,
        ]);
        assert(Seq::<Stage>::empty().push(Stage::Decode) =~= seq![Stage::Decode]);
        assert(class_ids(viterbi::ids(labels@)) =~= labels@);
    }
    match found {
        Some(spans) => Ok(DetectionResult { spans, tokens }),
        None => Err(EngineError::OffsetsPastText),
    }
}

/// Every decoder knows the classes of the label set.
pub open spec fn decoders_fit(points: Map<Seq<char>, StepScores>, info: LabelInfo) -> bool {
    forall|name: Seq<char>| #[trigger]
        points.contains_key(name) ==> points[name].wf() && points[name].classes == info.classes()
}

/// Loaded decoders know the classes of the label set they were loaded for.
pub proof fn law_loaded_decoders_fit(
    info: LabelInfo,
    names: Seq<Seq<char>>,
    points: Seq<(String, viterbi::ViterbiBiases)>,
)
    ensures
        decoders_fit(decoders::calibrated(info, names, points), info),
        decoders_fit(
            map![DEFAULT_OPERATING_POINT@ => viterbi::step_scores(info, viterbi::no_biases())],
            info,
        ),
{
}

/// The tokenizer, the decoders and the label set of a checkpoint. Its model scores
/// the tokens from outside.
pub struct Engine {
    tokenizer: TextTokenizer,
    decoders: DecoderSet,
    label_info: LabelInfo,
}

/// The decoder that a mode asks for.
pub open spec fn asked_decoder(
    points: Map<Seq<char>, StepScores>,
    mode: DecoderMode,
    point: Seq<char>,
) -> Option<StepScores> {
    match mode {
        DecoderMode::Viterbi => Some(points[point]),
        DecoderMode::Argmax => None,
    }
}

/// A mode asks for a decoder that is not there.
pub open spec fn lacks_decoder(
    points: Map<Seq<char>, StepScores>,
    mode: DecoderMode,
    point: Seq<char>,
) -> bool {
    mode is Viterbi && !points.contains_key(point)
}

/// An error says that an operating point is unknown, and which are known.
pub open spec fn refuses_point(
    error: EngineError,
    points: Map<Seq<char>, StepScores>,
    point: Seq<char>,
) -> bool {
    error@ matches Trouble::UnknownOperatingPoint(asked, known) && asked == point
        && decoders::lists(known, points.dom())
}

impl Engine {
    /// A text may have this many tokens: it has no characters and no tokens, or the
    /// tokenizer may make so many of it.
    pub open spec fn may_count(&self, text: Seq<char>, tokens: nat) -> bool {
        if text.len() == 0 {
            tokens == 0
        } else {
            exists|ids: Seq<u32>, offsets: Seq<(usize, usize)>|
                tokens == ids.len() && #[trigger] may_encode(self.reader(), text, Ok((ids, offsets)))
        }
    }

    /// The tokenizer chooses nothing by chance.
    pub open spec fn is_settled(&self) -> bool {
        settings::never_drops(self.tokenizer_file())
    }

    /// A text may have this many tokens, and no other number where nothing is left to
    /// chance.
    pub open spec fn counts(&self, text: Seq<char>, tokens: nat) -> bool {
        &&& self.may_count(text, tokens)
        &&& self.is_settled() ==> forall|n: nat| #[trigger] self.may_count(text, n) ==> n == tokens
    }
}

impl Engine {
    /// The tokenizer.
    pub closed spec fn reader(&self) -> Tokenizer {
        self.tokenizer.built()
    }

    /// What the file of the tokenizer says.
    pub closed spec fn tokenizer_file(&self) -> Json {
        self.tokenizer.file()
    }

    /// The decoders by name.
    pub closed spec fn points(&self) -> Map<Seq<char>, StepScores> {
        self.decoders@
    }

    /// The label set.
    pub closed spec fn labels(&self) -> LabelInfo {
        self.label_info
    }

    /// The parts fit together.
    #[verifier::type_invariant]
    closed spec fn inv(self) -> bool {
        &&& self.label_info.wf()
        &&& decoders_fit(self.decoders@, self.label_info)
    }

    /// Puts the parts of a checkpoint together.
    pub fn load(tokenizer: TextTokenizer, decoders: DecoderSet, label_info: LabelInfo) -> (r: Self)
        requires
            label_info.wf(),
            decoders_fit(decoders@, label_info),
        ensures
            r.reader() == tokenizer.built(),
            r.tokenizer_file() == tokenizer.file(),
            r.points() == decoders@,
            r.labels() == label_info,
    {
        Engine { tokenizer, decoders, label_info }
    }

    /// The tokenizer.
    pub fn tokenizer(&self) -> (r: &Tokenizer)
        ensures
            *r == self.reader(),
    {
        self.tokenizer.get()
    }

    /// The label set.
    pub fn label_info(&self) -> (r: &LabelInfo)
        ensures
            *r == self.labels(),
    {
        &self.label_info
    }

    /// The names of the operating points, in ascending order.
    pub fn operating_points(&self) -> (r: Vec<&str>)
        ensures
            decoders::lists(r@.map_values(|name: &str| name@), self.points().dom()),
    {
        self.decoders.names()
    }

    /// The decoder of a named operating point, or an error that names those that
    /// there are.
    pub fn decoder_for(&self, operating_point: &str) -> (r: Result<&ViterbiDecoder, EngineError>)
        ensures
            match r {
                Ok(decoder) => self.points().contains_key(operating_point@)
                    && self.points()[operating_point@] == decoder@,
                Err(error) => !self.points().contains_key(operating_point@) && refuses_point(
                    error,
                    self.points(),
                    operating_point@,
                ),
            },
    {
        match self.decoders.get(operating_point) {
            Some(decoder) => Ok(decoder),
            None => {
                let names = self.operating_points();
                let mut known: Vec<String> = Vec::with_capacity(names.len());
                let mut i: usize = 0;
                while i < names.len()
                    invariant
                        i <= names@.len(),
                        known@.len() == i,
                        forall|k: int| 0 <= k < i ==> (#[trigger] known@[k])@ == names@[k]@,
                    decreases names.len() - i,
                {
                    known.push(names[i].to_owned());
                    i = i + 1;
                }
                assert(text::views(known@) =~= names@.map_values(|name: &str| name@));
                Err(EngineError::UnknownOperatingPoint(operating_point.to_owned(), known))
            },
        }
    }

    /// Tokenizes a text.
    fn encode(&self, text: &str, timings: &mut StageTimings) -> (r: Result<Encoded, EngineError>)
        ensures
            match r {
                Ok(encoded) => may_encode(
                    self.reader(),
                    text@,
                    Ok((encoded.ids@, encoded.offsets@)),
                ),
                Err(error) => error@ matches Trouble::Encode(message) && may_encode(
                    self.reader(),
                    text@,
                    Err(message),
                ),
            },
            self.is_settled() ==> comes_only_to(
                self.reader(),
                text@,
                match r {
                    Ok(encoded) => Some(encoded.ids@),
                    Err(_) => None,
                },
            ),
            ran(old(timings)@, final(timings)@, seq![Stage::Tokenize]),
    {
        let ghost start = timings@;
        proof {
            use_type_invariant(self);
        }
        let tokenizer = self.tokenizer.get();
        let run = || -> (r: Result<Encoded, String>)
            requires
                settings::encodes_soundly(*tokenizer),
            ensures
                match r {
                    Ok(encoded) => may_encode(
                        *tokenizer,
                        text@,
                        Ok((encoded.ids@, encoded.offsets@)),
                    ),
                    Err(message) => may_encode(*tokenizer, text@, Err(message@)),
                },
                settled(*tokenizer) ==> comes_only_to(
                    *tokenizer,
                    text@,
                    match r {
                        Ok(encoded) => Some(encoded.ids@),
                        Err(_) => None,
                    },
                ),
            { encode(tokenizer, text) };
        let r = timing::time_stage(timings, Stage::Tokenize, run);
        proof {
            assert(ran(start, start, Seq::empty()));
            lemma_ran_more(start, start, timings@, Seq::empty(), Stage::Tokenize);
            assert(Seq::<Stage>::empty().push(Stage::Tokenize) =~= seq![Stage::Tokenize]);
        }
        match r {
            Ok(encoded) => Ok(encoded),
            Err(message) => Err(EngineError::Encode(message)),
        }
    }

    /// How many tokens a text has. A text without characters has none, and is not
    /// tokenized.
    pub fn count_tokens(&self, text: &str, timings: &mut StageTimings) -> (r: Result<
        usize,
        EngineError,
    >)
        ensures
            text@.len() == 0 ==> r == Ok::<usize, EngineError>(0) && final(timings)@ == old(timings)@,
            text@.len() > 0 ==> ran(old(timings)@, final(timings)@, seq![Stage::Tokenize]),
            match r {
                Ok(n) => self.counts(text@, n as nat),
                Err(error) => {
                    &&& error@ matches Trouble::Encode(message) && may_encode(
                        self.reader(),
                        text@,
                        Err(message),
                    )
                    &&& self.is_settled() ==> forall|n: nat| !#[trigger] self.may_count(text@, n)
                },
            },
    {
        if text.unicode_len() == 0 {
            return Ok(0);
        }
        match self.encode(text, timings) {
            Ok(encoded) => {
                proof {
                    let ids = encoded.ids@;
                    assert(may_encode(self.reader(), text@, Ok((ids, encoded.offsets@))));
                    assert(self.may_count(text@, ids.len()));
                }
                Ok(encoded.ids.len())
            },
            Err(error) => Err(error),
        }
    }
}

/// Nothing was found, in a text without tokens.
pub open spec fn nothing() -> Result<(Seq<Detection>, nat), Trouble> {
    Ok((Seq::empty(), 0))
}

/// What detection comes to, once the tokenizer has returned this.
pub open spec fn goes_on_from<S: FnOnce(Vec<u32>) -> Result<Vec<u32>, String>, F: Fn(u32, u32) -> u32>(
    score: S,
    plus: F,
    decoder: Option<StepScores>,
    info: LabelInfo,
    text: Seq<char>,
    encoded: Result<(Seq<u32>, Seq<(usize, usize)>), Seq<char>>,
    before: Tally,
    after: Tally,
    r: Result<(Seq<Detection>, nat), Trouble>,
) -> bool {
    match encoded {
        Err(message) => r == Err::<(Seq<Detection>, nat), Trouble>(Trouble::Encode(message)) && ran(
            before,
            after,
            seq![Stage::Tokenize],
        ),
        Ok((ids, offsets)) => if ids.len() == 0 {
            r == nothing() && ran(before, after, seq![Stage::Tokenize])
        } else {
            exists|given: Vec<u32>, scored: Result<Vec<u32>, String>| #[trigger]
                score.ensures((given,), scored) && given@ == ids && comes_of_scores(
                    plus,
                    decoder,
                    info,
                    text,
                    ids,
                    offsets,
                    scored,
                    before,
                    after,
                    r,
                )
        },
    }
}

/// What detection comes to, once the model has returned this.
pub open spec fn comes_of_scores<F: Fn(u32, u32) -> u32>(
    plus: F,
    decoder: Option<StepScores>,
    info: LabelInfo,
    text: Seq<char>,
    ids: Seq<u32>,
    offsets: Seq<(usize, usize)>,
    scored: Result<Vec<u32>, String>,
    before: Tally,
    after: Tally,
    r: Result<(Seq<Detection>, nat), Trouble>,
) -> bool {
    match scored {
        Err(message) => r == Err::<(Seq<Detection>, nat), Trouble>(Trouble::Forward(message@)) && ran(
            before,
            after,
            seq![Stage::Tokenize],
        ),
        Ok(scores) => concludes(plus, decoder, info, text, offsets, scores@, ids.len(), r) && ran(
            before,
            after,
            seq![Stage::Tokenize] + stages_to_conclude(r),
        ),
    }
}

/// Stages that ran behind others.
proof fn lemma_ran_then(start: Tally, middle: Tally, end: Tally, first: Seq<Stage>, rest: Seq<Stage>)
    requires
        ran(start, middle, first),
        ran(middle, end, rest),
    ensures
        ran(start, end, first + rest),
{
    if start.enabled {
        lemma_counts_after(start.counts, first, rest);
        assert forall|stage: Stage| !(first + rest).contains(stage) implies #[trigger] end.time_of(
            stage,
        ) == start.time_of(stage) by {
            if first.contains(stage) {
                assert((first + rest)[first.index_of(stage)] == stage);
            }
            if rest.contains(stage) {
                assert((first + rest)[first.len() + rest.index_of(stage)] == stage);
            }
            assert(middle.time_of(stage) == start.time_of(stage));
        }
    }
}

proof fn lemma_counts_after(counts: Seq<u64>, first: Seq<Stage>, rest: Seq<Stage>)
    ensures
        counts_after(counts, first + rest) == counts_after(counts_after(counts, first), rest),
    decreases rest.len(),
{
    if rest.len() == 0 {
        assert(first + rest =~= first);
    } else {
        lemma_counts_after(counts, first, rest.drop_last());
        assert((first + rest).drop_last() =~= first + rest.drop_last());
        assert((first + rest).last() == rest.last());
    }
}

impl Engine {
    /// What detection comes to, whatever the tokenizer and the model return. A text
    /// without characters holds nothing; a decoder that is not there is refused.
    pub open spec fn detects<
        S: FnOnce(Vec<u32>) -> Result<Vec<u32>, String>,
        F: Fn(u32, u32) -> u32,
    >(
        &self,
        score: S,
        plus: F,
        text: Seq<char>,
        mode: DecoderMode,
        point: Seq<char>,
        before: Tally,
        after: Tally,
        r: Result<DetectionResult, EngineError>,
    ) -> bool {
        if text.len() == 0 {
            outcome(r) == nothing() && after == before
        } else if lacks_decoder(self.points(), mode, point) {
            &&& r matches Err(error) && refuses_point(error, self.points(), point)
            &&& after == before
        } else {
            exists|encoded: Result<(Seq<u32>, Seq<(usize, usize)>), Seq<char>>| #[trigger]
                may_encode(self.reader(), text, encoded) && goes_on_from(
                    score,
                    plus,
                    asked_decoder(self.points(), mode, point),
                    self.labels(),
                    text,
                    encoded,
                    before,
                    after,
                    outcome(r),
                )
        }
    }

    /// Finds personal information in a text: tokenizes it, has `score` give each
    /// token a score for every class, and decodes the scores. `plus` adds two
    /// scores. A text without characters, or without tokens, holds nothing. A decoder
    /// that is not there is refused before the text is tokenized.
    pub fn detect<S: FnOnce(Vec<u32>) -> Result<Vec<u32>, String>, F: Fn(u32, u32) -> u32>(
        &self,
        text: &str,
        decoder_mode: DecoderMode,
        operating_point: &str,
        score: S,
        plus: &F,
        timings: &mut StageTimings,
    ) -> (r: Result<DetectionResult, EngineError>)
        requires
            forall|ids: Vec<u32>| score.requires((ids,)),
            forall|a: u32, b: u32| plus.requires((a, b)),
        ensures
            self.detects(
                score,
                *plus,
                text@,
                decoder_mode,
                operating_point@,
                old(timings)@,
                final(timings)@,
                r,
            ),
    {
        proof {
            use_type_invariant(self);
        }
        if text.unicode_len() == 0 {
            return Ok(DetectionResult::default());
        }
        let decoder = match decoder_mode {
            DecoderMode::Viterbi => match self.decoder_for(operating_point) {
                Ok(decoder) => Some(decoder),
                Err(error) => {
                    return Err(error);
                },
            },
            DecoderMode::Argmax => None,
        };
        let ghost asked = asked_decoder(self.points(), decoder_mode, operating_point@);
        assert(asked == steps_of(decoder));
        let ghost start = timings@;
        let encoded = match self.encode(text, timings) {
            Ok(encoded) => encoded,
            Err(error) => {
                return Err(error);
            },
        };
        let tokens: usize = encoded.ids.len();
        let ghost all: Result<(Seq<u32>, Seq<(usize, usize)>), Seq<char>> = Ok(
            (encoded.ids@, encoded.offsets@),
        );
        if tokens == 0 {
            return Ok(DetectionResult::default());
        }
        let Encoded { ids, offsets } = encoded;
        let ghost given = ids;
        let scored = score(ids);
        assert(score.ensures((given,), scored));
        let ghost returned = scored;
        match scored {
            Err(message) => Err(EngineError::Forward(message)),
            Ok(scores) => {
                let ghost middle = timings@;
                let r = conclude(
                    decoder,
                    &self.label_info,
                    text,
                    offsets.as_slice(),
                    scores.as_slice(),
                    tokens,
                    plus,
                    timings,
                );
                proof {
                    lemma_ran_then(
                        start,
                        middle,
                        timings@,
                        seq![Stage::Tokenize],
                        stages_to_conclude(outcome(r)),
                    );
                }
                r
            },
        }
    }
}

/// Detections lie in the text, in order and without overlap, with the text at their
/// bytes; and they can be redacted.
pub open spec fn lie_in_the_text(found: Seq<Detection>, text: Seq<char>) -> bool {
    &&& forall|k: int|
        0 <= k < found.len() ==> text::piece(
            text,
            (#[trigger] found[k]).range.start,
            found[k].range.end,
        ) == Some(found[k].text)
    &&& forall|k: int|
        0 <= k < found.len() ==> (#[trigger] found[k]).range.start < found[k].range.end
    &&& forall|i: int, j: int|
        0 <= i < j < found.len() ==> (#[trigger] found[i]).range.end <= (
        #[trigger] found[j]).range.start
    &&& redaction::starts_within(text, found.map_values(|d: Detection| redaction::blank(d)))
}

/// What labels come to lies in the text.
pub proof fn law_found_lies_in_the_text(
    labels: Seq<usize>,
    info: LabelInfo,
    text: Seq<char>,
    offsets: Seq<(usize, usize)>,
    tokens: nat,
)
    ensures
        found_by(labels, info, text, offsets, tokens) matches Ok((found, counted)) ==> counted
            == tokens && lie_in_the_text(found, text),
{
    span_laws::law_extracted(labels, offsets, text, info);
    redaction::law_extracted_spans_start_within(labels, offsets, text, info);
}

/// What is found in nothing lies in the text.
proof fn lemma_nothing_lies_in_the_text(text: Seq<char>)
    ensures
        lie_in_the_text(Seq::empty(), text),
{
    redaction::law_nothing_to_redact(text);
    assert(Seq::<Detection>::empty().map_values(|d: Detection| redaction::blank(d)) =~= Seq::empty());
}

/// Detection, whatever the tokenizer, the model and the addition return. A text
/// without characters holds nothing, for every mode and every name. With a decoder, a
/// name that is not one of the operating points is refused, and nothing runs. Without
/// one the name does not matter. What is found comes with a number of tokens that
/// counting the tokens of the text may give too, and that it gives where the tokenizer
/// leaves nothing to chance. It lies in the text in order and without overlap.
pub proof fn law_detect<S: FnOnce(Vec<u32>) -> Result<Vec<u32>, String>, F: Fn(u32, u32) -> u32>(
    engine: Engine,
    score: S,
    plus: F,
    text: Seq<char>,
    mode: DecoderMode,
    point: Seq<char>,
    before: Tally,
    after: Tally,
    r: Result<DetectionResult, EngineError>,
)
    requires
        engine.detects(score, plus, text, mode, point, before, after, r),
    ensures
        text.len() == 0 ==> outcome(r) == nothing() && after == before,
        text.len() > 0 && mode is Viterbi && !engine.points().contains_key(point) ==> (
        r matches Err(error) && refuses_point(error, engine.points(), point) && after == before),
        mode is Argmax ==> forall|other: Seq<char>| #[trigger]
            engine.detects(score, plus, text, mode, other, before, after, r),
        r matches Ok(d) ==> engine.may_count(text, d.tokens as nat) && lie_in_the_text(
            d.found(),
            text,
        ),
        r matches Ok(d) ==> forall|n: nat|
            engine.is_settled() && #[trigger] engine.counts(text, n) ==> d.tokens == n,
{
    let decoder = asked_decoder(engine.points(), mode, point);
    let info = engine.labels();
    if mode is Argmax {
        assert forall|other: Seq<char>| #[trigger]
            engine.detects(score, plus, text, mode, other, before, after, r) by {
            assert(asked_decoder(engine.points(), mode, other) == decoder);
        }
    }
    lemma_nothing_lies_in_the_text(text);
    if r is Ok && text.len() > 0 {
        let encoded = choose|encoded: Result<(Seq<u32>, Seq<(usize, usize)>), Seq<char>>| #[trigger]
            may_encode(engine.reader(), text, encoded) && goes_on_from(
                score,
                plus,
                decoder,
                info,
                text,
                encoded,
                before,
                after,
                outcome(r),
            );
        let (ids, offsets) = encoded->Ok_0;
        assert(may_encode(engine.reader(), text, Ok((ids, offsets))));
        if ids.len() > 0 {
            let (given, scored) = choose|given: Vec<u32>, scored: Result<Vec<u32>, String>| #[trigger]
                score.ensures((given,), scored) && given@ == ids && comes_of_scores(
                    plus,
                    decoder,
                    info,
                    text,
                    ids,
                    offsets,
                    scored,
                    before,
                    after,
                    outcome(r),
                );
            let scores = scored->Ok_0@;
            let labels = choose|labels: Seq<usize>| #[trigger]
                labelled(plus, decoder, info.classes(), scores, ids.len(), labels) && outcome(r)
                    == found_by(labels, info, text, offsets, ids.len());
            law_found_lies_in_the_text(labels, info, text, offsets, ids.len());
        }
        assert(engine.may_count(text, ids.len()));
    }
    if r is Ok {
        assert(engine.may_count(text, r->Ok_0.tokens as nat));
    }
}

/// What is shown of the tokens shows the labels that the scores give.
pub open spec fn shows_labels<F: Fn(u32, u32) -> u32>(
    plus: F,
    decoder: Option<StepScores>,
    info: LabelInfo,
    text: Seq<char>,
    ids: Seq<u32>,
    offsets: Seq<(usize, usize)>,
    scores: Seq<u32>,
    listed: int,
    rows: Seq<TokenRow>,
) -> bool {
    exists|labels: Seq<usize>|
        labelled(plus, decoder, info.classes(), scores, ids.len(), labels)
            && #[trigger] inspection::shows(
            rows,
            info,
            text,
            ids,
            offsets,
            labels,
            scores,
            listed,
        )
}

/// What looking into scores comes to: what is shown, or what went wrong.
pub open spec fn inspects<F: Fn(u32, u32) -> u32>(
    plus: F,
    decoder: Option<StepScores>,
    info: LabelInfo,
    text: Seq<char>,
    ids: Seq<u32>,
    offsets: Seq<(usize, usize)>,
    scores: Seq<u32>,
    listed: int,
    r: Result<Vec<TokenRow>, EngineError>,
) -> bool {
    if info.classes() == 0 {
        r matches Err(error) && error@ is NoClasses
    } else if !scores_fit(info.classes(), scores, ids.len()) {
        r matches Err(error) && error@ is ScoreCount
    } else if offsets.len() < ids.len() {
        r matches Err(error) && error@ is OffsetCount
    } else {
        r matches Ok(rows) && shows_labels(
            plus,
            decoder,
            info,
            text,
            ids,
            offsets,
            scores,
            listed,
            rows@,
        )
    }
}

/// Looks into the scores of a text's tokens: gives every token a label, and shows it
/// with the classes that have the greatest scores.
pub fn inspect_scores<F: Fn(u32, u32) -> u32>(
    decoder: Option<&ViterbiDecoder>,
    label_info: &LabelInfo,
    text: &str,
    ids: &[u32],
    offsets: &[(usize, usize)],
    scores: &[u32],
    listed: usize,
    plus: &F,
) -> (r: Result<Vec<TokenRow>, EngineError>)
    requires
        label_info.wf(),
        decoder matches Some(d) ==> d@.wf() && d@.classes == label_info.classes(),
        forall|a: u32, b: u32| plus.requires((a, b)),
    ensures
        inspects(
            *plus,
            steps_of(decoder),
            *label_info,
            text@,
            ids@,
            offsets@,
            scores@,
            listed as int,
            r,
        ),
{
    let classes: usize = label_info.num_classes();
    let tokens: usize = ids.len();
    if classes == 0 {
        return Err(EngineError::NoClasses);
    }
    if !fits(classes, scores.len(), tokens) {
        return Err(EngineError::ScoreCount);
    }
    if offsets.len() < tokens {
        return Err(EngineError::OffsetCount);
    }
    assert(scores_fit(classes as nat, scores@, tokens as nat));
    let labels = label_tokens(decoder, classes, scores, tokens, plus);
    let rows = inspection::token_rows(
        label_info,
        text,
        ids,
        offsets,
        labels.as_slice(),
        scores,
        listed,
    );
    Ok(rows)
}

/// What looking into a text comes to, once the tokenizer has returned this.
pub open spec fn looks_on_from<S: FnOnce(Vec<u32>) -> Result<Vec<u32>, String>, F: Fn(u32, u32) -> u32>(
    score: S,
    plus: F,
    points: Map<Seq<char>, StepScores>,
    mode: DecoderMode,
    point: Seq<char>,
    info: LabelInfo,
    text: Seq<char>,
    encoded: Result<(Seq<u32>, Seq<(usize, usize)>), Seq<char>>,
    listed: int,
    r: Result<Vec<TokenRow>, EngineError>,
) -> bool {
    match encoded {
        Err(message) => r matches Err(error) && error@ == Trouble::Encode(message),
        Ok((ids, offsets)) => if ids.len() == 0 {
            r matches Ok(rows) && rows@.len() == 0
        } else {
            exists|given: Vec<u32>, scored: Result<Vec<u32>, String>| #[trigger]
                score.ensures((given,), scored) && given@ == ids && match scored {
                    Err(message) => r matches Err(error) && error@ == Trouble::Forward(message@),
                    Ok(scores) => if lacks_decoder(points, mode, point) {
                        r matches Err(error) && refuses_point(error, points, point)
                    } else {
                        inspects(
                            plus,
                            asked_decoder(points, mode, point),
                            info,
                            text,
                            ids,
                            offsets,
                            scores@,
                            listed,
                            r,
                        )
                    },
                }
        },
    }
}

impl Engine {
    /// Shows every token of a text: its label, and the classes with the greatest
    /// scores, of which `listed` are listed. A text without characters, or without
    /// tokens, shows nothing.
    pub fn inspect<S: FnOnce(Vec<u32>) -> Result<Vec<u32>, String>, F: Fn(u32, u32) -> u32>(
        &self,
        text: &str,
        decoder_mode: DecoderMode,
        operating_point: &str,
        listed: usize,
        score: S,
        plus: &F,
    ) -> (r: Result<Vec<TokenRow>, EngineError>)
        requires
            forall|ids: Vec<u32>| score.requires((ids,)),
            forall|a: u32, b: u32| plus.requires((a, b)),
        ensures
            text@.len() == 0 ==> (r matches Ok(rows) && rows@.len() == 0),
            text@.len() > 0 ==> exists|
                encoded: Result<(Seq<u32>, Seq<(usize, usize)>), Seq<char>>,
            | #[trigger]
                may_encode(self.reader(), text@, encoded) && looks_on_from(
                    score,
                    *plus,
                    self.points(),
                    decoder_mode,
                    operating_point@,
                    self.labels(),
                    text@,
                    encoded,
                    listed as int,
                    r,
                ),
    {
        proof {
            use_type_invariant(self);
        }
        if text.unicode_len() == 0 {
            return Ok(Vec::new());
        }
        let tokenizer = self.tokenizer.get();
        assert(self.reader() == *tokenizer);
        let encoded = match encode(tokenizer, text) {
            Ok(encoded) => encoded,
            Err(message) => {
                return Err(EngineError::Encode(message));
            },
        };
        let ghost all: Result<(Seq<u32>, Seq<(usize, usize)>), Seq<char>> = Ok(
            (encoded.ids@, encoded.offsets@),
        );
        if encoded.ids.len() == 0 {
            return Ok(Vec::new());
        }
        let Encoded { ids, offsets } = encoded;
        let given = ids.clone();
        let ghost handed = given;
        let scored = score(given);
        assert(score.ensures((handed,), scored));
        assert(handed@ =~= ids@);
        let ghost returned = scored;
        match scored {
            Err(message) => Err(EngineError::Forward(message)),
            Ok(scores) => {
                let decoder = match decoder_mode {
                    DecoderMode::Viterbi => match self.decoder_for(operating_point) {
                        Ok(decoder) => Some(decoder),
                        Err(error) => {
                            return Err(error);
                        },
                    },
                    DecoderMode::Argmax => None,
                };
                assert(asked_decoder(self.points(), decoder_mode, operating_point@) == steps_of(
                    decoder,
                ));
                inspect_scores(
                    decoder,
                    &self.label_info,
                    text,
                    ids.as_slice(),
                    offsets.as_slice(),
                    scores.as_slice(),
                    listed,
                    plus,
                )
            },
        }
    }
}

/// A detection comes from a span of tokens that opens with a start label and closes with
/// an end label, under the detection's label.
pub open spec fn comes_from_whole_span(
    labels: Seq<usize>,
    offsets: Seq<(usize, usize)>,
    text: Seq<char>,
    info: LabelInfo,
    d: Detection,
) -> bool {
    exists|span: spans::Range, bytes: spans::Range|
        {
            &&& #[trigger] spans::is_run(labels, info, span)
            &&& span.label == d.range.label
            &&& spans::byte_range(offsets, span) == Some(bytes)
            &&& #[trigger] spans::trimmed(text::bytes_of(text), bytes) == Some(d.range)
            &&& viterbi::opens(info.boundary@[labels[span.start] as int])
            &&& viterbi::closes(info.boundary@[labels[span.end - 1] as int])
        }
}

/// What a decoder finds comes from whole spans of tokens, wherever a path is reachable
/// and the biases cannot make up for something forbidden.
pub proof fn law_decoded_detections_are_whole_spans(
    sum: spec_fn(u32, u32) -> u32,
    info: LabelInfo,
    biases: viterbi::ViterbiBiases,
    top: u32,
    scores: Seq<u32>,
    tokens: nat,
    text: Seq<char>,
    offsets: Seq<(usize, usize)>,
    k: int,
)
    requires
        viterbi_laws::bounded(sum, info, biases, top, scores, tokens as int),
        viterbi::any_reachable(
            viterbi::final_scores(sum, viterbi::step_scores(info, biases), scores, tokens as int),
        ),
        info.background_idx < info.classes(),
        info.boundary@[info.background_idx as int] == crate::labels::Boundary::Background,
    ensures
        ({
            let steps = viterbi::step_scores(info, biases);
            let labels = class_ids(labels_of(sum, Some(steps), info.classes(), scores, tokens));
            let found = spans::extracted(labels, offsets, text, info);
            0 <= k < found.len() ==> comes_from_whole_span(labels, offsets, text, info, found[k])
        }),
{
    let steps = viterbi::step_scores(info, biases);
    let path = viterbi::decoded(sum, steps, scores, tokens as int);
    let labels = class_ids(path);
    let found = spans::extracted(labels, offsets, text, info);
    viterbi_laws::law_decoded_is_well_formed(sum, info, biases, top, scores, tokens as int);
    assert(viterbi::ids(labels) =~= path) by {
        assert forall|t: int| 0 <= t < path.len() implies #[trigger] viterbi::ids(labels)[t]
            == path[t] by {
            assert(0 <= path[t] < info.classes());
            assert(info.id2label.len() == info.classes());
        }
    }
    span_laws::law_extracted(labels, offsets, text, info);
    if 0 <= k < found.len() {
        let d = found[k];
        assert(span_laws::comes_from_tokens(labels, offsets, text, info, d.range));
        let (span, bytes) = choose|span: spans::Range, bytes: spans::Range|
            {
                &&& #[trigger] spans::is_run(labels, info, span)
                &&& spans::byte_range(offsets, span) == Some(bytes)
                &&& #[trigger] spans::trimmed(text::bytes_of(text), bytes) == Some(d.range)
            };
        span_laws::law_well_formed_spans_open_and_close(labels, info, span);
        assert(spans::is_run(labels, info, span));
        assert(spans::trimmed(text::bytes_of(text), bytes) == Some(d.range));
    }
}

} // verus!
