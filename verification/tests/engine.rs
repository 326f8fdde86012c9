use privstrip::decoders::{load_decoders, Calibration};
use privstrip::engine::{conclude, EngineError};
use privstrip::labels::LabelInfo;
use privstrip::redact;
use privstrip::settings::{TextTokenizer, TokenizerFault};
use privstrip::stream::{answer, process_stream_line};
use privstrip::timing::{report, Stage, StageTimings};
use privstrip::viterbi::ViterbiBiases;
use privstrip::{DecoderMode, DetectionResult, Engine, DEFAULT_OPERATING_POINT};
use serde_json::Value;

fn info() -> LabelInfo {
    let all = ["O", "B-person", "I-person", "E-person", "S-person"];
    let entries = all.iter().enumerate().map(|(i, l)| (i.to_string(), l.to_string())).collect();
    LabelInfo::from_config(entries).unwrap()
}

/// The parts of a tokenizer, as JSON.
struct Parts<'a> {
    truncation: &'a str,
    padding: &'a str,
    added: &'a str,
    normalizer: &'a str,
    pre_tokenizer: &'a str,
    post_processor: &'a str,
    decoder: &'a str,
    model: &'a str,
}

const PLAIN: Parts<'static> = Parts {
    truncation: "null",
    padding: "null",
    added: "[]",
    normalizer: "null",
    pre_tokenizer: "{\"type\":\"Whitespace\"}",
    post_processor: "null",
    decoder: "null",
    model: WORDS,
};

fn file(parts: &Parts) -> String {
    format!(
        "{{\"version\":\"1.0\",\"truncation\":{},\"padding\":{},\"added_tokens\":{},\
         \"normalizer\":{},\"pre_tokenizer\":{},\"post_processor\":{},\
         \"decoder\":{},\"model\":{}}}",
        parts.truncation,
        parts.padding,
        parts.added,
        parts.normalizer,
        parts.pre_tokenizer,
        parts.post_processor,
        parts.decoder,
        parts.model
    )
}

fn build(parts: &Parts) -> TextTokenizer {
    TextTokenizer::read(&file(parts)).unwrap_or_else(|e| panic!("{}", e.message()))
}

fn tokenizer(model: &str, truncation: &str) -> TextTokenizer {
    build(&Parts { model, truncation, ..PLAIN })
}

const WORDS: &str = "{\"type\":\"WordLevel\",\"vocab\":{\"[UNK]\":0,\"Call\":1,\"John\":2,\"Smith\":3},\"unk_token\":\"[UNK]\"}";
const WORDS_WITHOUT_UNKNOWN: &str =
    "{\"type\":\"WordLevel\",\"vocab\":{\"Call\":1},\"unk_token\":\"[UNK]\"}";

fn engine_of(tokenizer: TextTokenizer) -> Engine {
    let decoders = load_decoders(None, &info()).ok().unwrap();
    Engine::load(tokenizer, decoders, info())
}

fn engine() -> Engine {
    engine_of(tokenizer(WORDS, "null"))
}

fn plus(a: u32, b: u32) -> u32 {
    (f32::from_bits(a) + f32::from_bits(b)).to_bits()
}

fn bits(rows: &[[f32; 5]]) -> Vec<u32> {
    rows.iter().flatten().map(|v| v.to_bits()).collect()
}

const PERSON_AT_END: [[f32; 5]; 3] = [
    [-0.1, -5.0, -5.0, -5.0, -5.0],
    [-3.0, -1.0, -0.5, -4.0, -4.0],
    [-3.0, -4.0, -4.0, -0.1, -3.0],
];

fn detect(engine: &Engine, text: &str, mode: DecoderMode, point: &str) -> Result<DetectionResult, EngineError> {
    let mut timings = StageTimings::new(false);
    engine.detect(text, mode, point, |_| Ok(bits(&PERSON_AT_END)), &plus, &mut timings)
}

#[test]
fn spans_are_detected() {
    let result = detect(&engine(), "Call John Smith", DecoderMode::Viterbi, DEFAULT_OPERATING_POINT).unwrap();
    assert_eq!(result.tokens, 3);
    assert_eq!(result.spans.len(), 1);
    assert_eq!(result.spans[0].label, "person");
    assert_eq!(result.spans[0].text, "John Smith");
    assert_eq!((result.spans[0].byte_start, result.spans[0].byte_end), (5, 15));
    assert_eq!(redact("Call John Smith", &result.spans), "Call <PERSON>");
}

#[test]
fn model_gets_the_token_ids() {
    let mut timings = StageTimings::new(false);
    let engine = engine();
    let mut seen = Vec::new();
    let result = engine.detect(
        "John Call xyz",
        DecoderMode::Argmax,
        "unused",
        |ids| {
            seen = ids;
            Ok(bits(&PERSON_AT_END))
        },
        &plus,
        &mut timings,
    );
    assert!(result.is_ok());
    assert_eq!(seen, vec![2, 1, 0]);
}

#[test]
fn argmax_does_not_look_for_an_operating_point() {
    let result = detect(&engine(), "Call John Smith", DecoderMode::Argmax, "nope").unwrap();
    assert_eq!(result.spans[0].text, "John Smith");
}

#[test]
fn text_without_tokens_holds_nothing() {
    let empty = detect(&engine(), "", DecoderMode::Viterbi, "nope").unwrap();
    assert_eq!((empty.spans.len(), empty.tokens), (0, 0));
    let blank = detect(&engine(), "  ", DecoderMode::Viterbi, DEFAULT_OPERATING_POINT).unwrap();
    assert_eq!((blank.spans.len(), blank.tokens), (0, 0));
    let default = DetectionResult::default();
    assert_eq!((default.spans.len(), default.tokens), (0, 0));
}

#[test]
fn unknown_operating_point_is_refused() {
    let error = detect(&engine(), "Call", DecoderMode::Viterbi, "a\"b").unwrap_err();
    assert!(matches!(&error, EngineError::UnknownOperatingPoint(asked, known)
        if asked == "a\"b" && known.len() == 1 && known[0] == "default"));
    assert_eq!(error.message(), "unknown operating point \"a\\\"b\" (known: default)");
}

#[test]
fn operating_points_are_sorted() {
    let bias = ViterbiBiases::default();
    let file = Calibration {
        path: "c.json".to_string(),
        names: vec!["b".to_string(), "default".to_string(), "a".to_string()],
        points: vec![
            ("a".to_string(), bias),
            ("b".to_string(), bias),
            ("default".to_string(), bias),
        ],
    };
    let engine = Engine::load(
        tokenizer(WORDS, "null"),
        load_decoders(Some(&file), &info()).ok().unwrap(),
        info(),
    );
    assert_eq!(engine.operating_points(), vec!["a", "b", "default"]);
    assert_eq!(engine.decoder_for("a").unwrap().num_classes(), 5);
    assert_eq!(
        engine.decoder_for("z").err().unwrap().message(),
        "unknown operating point \"z\" (known: a, b, default)"
    );
    assert_eq!(engine.label_info().num_classes(), 5);
    assert_eq!(engine.tokenizer().get_vocab_size(true), 4);
}

#[test]
fn tokenizer_errors_are_passed_on() {
    let error = detect(
        &engine_of(tokenizer(WORDS_WITHOUT_UNKNOWN, "null")),
        "Call xyz",
        DecoderMode::Viterbi,
        DEFAULT_OPERATING_POINT,
    )
    .unwrap_err();
    assert!(matches!(&error, EngineError::Encode(_)));
    assert!(error.message().starts_with("encode: "));
    assert!(error.message().len() > "encode: ".len());
}

#[test]
fn model_errors_are_passed_on() {
    let mut timings = StageTimings::new(false);
    let error = engine()
        .detect(
            "Call",
            DecoderMode::Argmax,
            "",
            |_| Err("out of memory".to_string()),
            &plus,
            &mut timings,
        )
        .unwrap_err();
    assert!(matches!(&error, EngineError::Forward(_)));
    assert_eq!(error.message(), "out of memory");
}

#[test]
fn scores_must_match_the_tokens() {
    let long = "Call John Smith Call";
    let error = detect(&engine(), long, DecoderMode::Viterbi, DEFAULT_OPERATING_POINT).unwrap_err();
    assert!(matches!(&error, EngineError::ScoreCount));
    assert_eq!(error.message(), "the scores do not match the tokens");
    assert!(detect(&engine(), long, DecoderMode::Argmax, "").is_err());
    let more = detect(&engine(), "Call John", DecoderMode::Viterbi, DEFAULT_OPERATING_POINT).unwrap();
    assert_eq!((more.spans.len(), more.tokens), (0, 2));
    assert!(detect(&engine(), "Call John", DecoderMode::Argmax, "").is_ok());
}

#[test]
fn conclusions_from_scores() {
    let mut timings = StageTimings::new(false);
    let labels = info();
    let scores = bits(&PERSON_AT_END);
    let past = conclude(None, &labels, "abc", &[(0, 1), (1, 2), (2, 9)], &scores, 3, &plus, &mut timings);
    assert!(matches!(&past, Err(EngineError::OffsetsPastText)));
    assert_eq!(past.unwrap_err().message(), "a token lies outside the text");
    let none = LabelInfo::from_config(Vec::new()).unwrap();
    let empty = conclude(None, &none, "abc", &[(0, 1)], &scores, 1, &plus, &mut timings);
    assert!(matches!(&empty, Err(EngineError::NoClasses)));
    assert_eq!(empty.unwrap_err().message(), "the model has no classes");
    let fine = conclude(None, &labels, "abc", &[(0, 1), (1, 2), (2, 3)], &scores, 3, &plus, &mut timings).unwrap();
    assert_eq!(fine.spans[0].text, "bc");
}

#[test]
fn tokens_are_counted() {
    let mut timings = StageTimings::new(true);
    let engine = engine();
    assert_eq!(engine.count_tokens("", &mut timings).unwrap(), 0);
    assert_eq!(report(&timings).unwrap().rows.len(), 0);
    assert_eq!(engine.count_tokens("Call John, Smith", &mut timings).unwrap(), 4);
    let shown = report(&timings).unwrap();
    assert_eq!(shown.rows.len(), 1);
    assert_eq!(shown.rows[0].stage, Stage::Tokenize);
    assert_eq!(shown.rows[0].count, 1);
    let failing = engine_of(tokenizer(WORDS_WITHOUT_UNKNOWN, "null"));
    assert!(failing.count_tokens("xyz", &mut timings).is_err());
}

#[test]
fn truncation_is_looked_at() {
    let cut = "{\"direction\":\"Right\",\"max_length\":2,\"strategy\":\"LongestFirst\",\"stride\":0}";
    let broken = "{\"direction\":\"Right\",\"max_length\":2,\"strategy\":\"LongestFirst\",\"stride\":2}";
    let nothing = "{\"direction\":\"Right\",\"max_length\":0,\"strategy\":\"LongestFirst\",\"stride\":2}";
    let cuts = |truncation: &str| encodes(Parts { truncation, ..PLAIN });
    assert!(cuts("null"));
    assert!(cuts(cut));
    assert!(cuts(nothing));
    assert!(!cuts(broken));
    assert!(!cuts("[\"Right\",2,\"LongestFirst\",2]"));
    let mut timings = StageTimings::new(false);
    let short = engine_of(tokenizer(WORDS, cut));
    assert_eq!(short.count_tokens("Call John Smith", &mut timings).unwrap(), 2);
}

fn encodes(parts: Parts) -> bool {
    match TextTokenizer::read(&file(&parts)) {
        Ok(_) => true,
        Err(TokenizerFault::Unsound) => false,
        Err(error) => panic!("{}", error.message()),
    }
}

#[test]
fn files_that_hold_no_tokenizer() {
    let broken = TextTokenizer::read("{").err().unwrap();
    assert!(matches!(&broken, TokenizerFault::Unreadable(_)));
    assert_eq!(broken.message(), "load tokenizer: EOF while parsing an object at line 1 column 1");
    let missing = Parts { model: "{\"type\":\"WordLevel\",\"unk_token\":\"x\"}", ..PLAIN };
    let error = TextTokenizer::read(&file(&missing)).err().unwrap();
    assert_eq!(error.message(), "load tokenizer: missing field `vocab`");
    let unsound = TextTokenizer::read("{\"version\":\"1.0\"}").err().unwrap();
    assert_eq!(unsound.message(), "load tokenizer: a part of it may fail on some text");
}

#[test]
fn regular_expressions_are_given_up() {
    let slow = "{\"type\":\"Split\",\"pattern\":{\"Regex\":\"(x+x+)+(?=y)\"},\"behavior\":\"Isolated\",\"invert\":false}";
    let engine = engine_of(build(&Parts { pre_tokenizer: slow, ..PLAIN }));
    let mut timings = StageTimings::new(false);
    let text = format!("{}zy", "x".repeat(40));
    assert_eq!(engine.count_tokens(&text, &mut timings).unwrap(), 1);
}

#[test]
fn byte_level_merges() {
    let words = "[^\\\\r\\\\n\\\\p{L}\\\\p{N}]?[\\\\p{Lu}\\\\p{Lo}\\\\p{M}]*[\\\\p{Ll}\\\\p{Lo}\\\\p{M}]+(?i:'s|'t|'re)?|\\\\p{N}{1,3}| \
                 ?[^\\\\s\\\\p{L}\\\\p{N}]+[\\\\r\\\\n/]*|\\\\s*[\\\\r\\\\n]+|\\\\s+(?!\\\\S)|\\\\s+";
    let split = format!(
        "{{\"type\":\"Sequence\",\"pretokenizers\":[{{\"type\":\"Split\",\"pattern\":{{\"Regex\":\"{words}\"}},\
         \"behavior\":\"Isolated\",\"invert\":false}},{{\"type\":\"ByteLevel\",\"add_prefix_space\":false,\
         \"trim_offsets\":true,\"use_regex\":false}}]}}"
    );
    let merges = |dropout: &str, prefix: &str| {
        format!(
            "{{\"type\":\"BPE\",\"dropout\":{dropout},\"unk_token\":null,\
             \"continuing_subword_prefix\":{prefix},\"end_of_word_suffix\":null,\"fuse_unk\":false,\
             \"vocab\":{{\"a\":0,\"b\":1,\"ab\":2,\"Ġ\":3,\"Ã\":4,\"©\":5}},\"merges\":[[\"a\",\"b\"]]}}"
        )
    };
    let decoder = "{\"type\":\"ByteLevel\",\"add_prefix_space\":true,\"trim_offsets\":true,\"use_regex\":true}";
    let model = merges("null", "null");
    let engine =
        engine_of(build(&Parts { pre_tokenizer: &split, model: &model, decoder, ..PLAIN }));
    let mut timings = StageTimings::new(false);
    for _ in 0..3 {
        assert_eq!(engine.count_tokens("ab bé", &mut timings).unwrap(), 5);
    }
    assert!(encodes(Parts { model: &merges("0.5", "\"\""), ..PLAIN }));
    assert!(!encodes(Parts { model: &merges("null", "\"##\""), ..PLAIN }));
}

#[test]
fn pre_tokenizers_are_looked_at() {
    let splits = |pre_tokenizer: &str| encodes(Parts { pre_tokenizer, ..PLAIN });
    assert!(splits("null"));
    assert!(splits("{\"type\":\"Whitespace\"}"));
    assert!(splits("{\"type\":\"FixedLength\",\"length\":3}"));
    assert!(!splits("{\"type\":\"FixedLength\",\"length\":0}"));
    assert!(splits("{\"type\":\"Sequence\",\"pretokenizers\":[]}"));
    let nested = "{\"type\":\"Sequence\",\"pretokenizers\":[{\"type\":\"Whitespace\"},\
                  {\"type\":\"Sequence\",\"pretokenizers\":[{\"type\":\"FixedLength\",\"length\":0}]}]}";
    assert!(!splits(nested));
    let regex = "{\"type\":\"Sequence\",\"pretokenizers\":[\
                 {\"type\":\"Split\",\"pattern\":{\"Regex\":\"\\\\s+\"},\"behavior\":\"Isolated\",\"invert\":false},\
                 {\"type\":\"ByteLevel\",\"add_prefix_space\":false,\"trim_offsets\":true,\"use_regex\":false}]}";
    assert!(splits(regex));
    let by = |regex: &str| {
        splits(&format!(
            "{{\"type\":\"Split\",\"pattern\":{{\"Regex\":\"{regex}\"}},\"behavior\":\"Isolated\",\"invert\":false}}"
        ))
    };
    assert!(by("a+(?=b)|(?<!c)d{2,3}"));
    assert!(!by("a(?=b\\\\K)"));
    assert!(!by("(a)\\\\1"));
    assert!(!by("(?<n>a)"));
    assert!(!by("a{1000}"));
    assert!(!by("(ab){3}"));
    assert!(!by("\\\\x{41}"));
    assert!(splits("{\"type\":\"FixedLength\"}"));
    assert!(splits("{\"type\":\"CharDelimiterSplit\",\"delimiter\":\"-\"}"));
    let plain = "{\"type\":\"Split\",\"pattern\":{\"String\":\"-\"},\"behavior\":\"Removed\",\"invert\":false}";
    assert!(splits(plain));
}

const ONE: &str = "{\"Sequence\":{\"id\":\"A\",\"type_id\":0}}";
const OTHER: &str = "{\"Sequence\":{\"id\":\"B\",\"type_id\":1}}";

fn template(single: &[&str], pair: &[&str]) -> String {
    format!(
        "{{\"type\":\"TemplateProcessing\",\"single\":[{}],\"pair\":[{}],\"special_tokens\":{{}}}}",
        single.join(","),
        pair.join(",")
    )
}

fn in_turn(processors: &[String]) -> String {
    format!("{{\"type\":\"Sequence\",\"processors\":[{}]}}", processors.join(","))
}

#[test]
fn post_processors_are_looked_at() {
    let fills = |post_processor: &str| encodes(Parts { post_processor, ..PLAIN });
    let plain = template(&[ONE], &[ONE, OTHER]);
    assert!(fills(&plain));
    assert!(!fills(&template(&[ONE, OTHER], &[ONE, OTHER])));
    assert!(!fills(&template(&["{\"Sequence\":[\"B\",0]}"], &[ONE, OTHER])));
    assert!(!fills(&plain.replace("TemplateProcessing", "BertProcessing")));
    let nothing = template(&[], &[ONE, OTHER]);
    let twice = template(&[ONE, ONE], &[ONE, OTHER]);
    let thrice = template(&[ONE, ONE, ONE], &[ONE, OTHER]);
    assert!(fills(&nothing));
    assert!(fills(&in_turn(&[plain.clone(), plain.clone()])));
    assert!(!fills(&in_turn(&[nothing, plain.clone()])));
    assert!(fills(&in_turn(&[twice.clone(), plain.clone()])));
    assert!(!fills(&in_turn(&[thrice.clone(), plain.clone()])));
    assert!(fills(&in_turn(&[plain.clone(), thrice.clone()])));
    assert!(!fills(&in_turn(&[in_turn(&[thrice]), in_turn(&[plain.clone()])])));
    let bytes = "{\"type\":\"ByteLevel\",\"add_prefix_space\":true,\"trim_offsets\":false,\"use_regex\":true}";
    assert!(fills(&in_turn(&[twice, bytes.to_string(), plain.clone()])));
    let mut timings = StageTimings::new(false);
    let engine = engine_of(build(&Parts { post_processor: &plain, ..PLAIN }));
    assert_eq!(engine.count_tokens("Call John Smith", &mut timings).unwrap(), 3);
}

#[test]
fn normalizers_are_looked_at() {
    let normalizes = |normalizer: &str| encodes(Parts { normalizer, ..PLAIN });
    assert!(normalizes("{\"type\":\"NFC\"}"));
    assert!(normalizes("{\"type\":\"Prepend\",\"prepend\":\"_\"}"));
    assert!(!normalizes("{\"type\":\"Prepend\",\"prepend\":\"\"}"));
    let replace = |pattern: &str, content: &str| {
        normalizes(&format!(
            "{{\"type\":\"Sequence\",\"normalizers\":[{{\"type\":\"Replace\",\"pattern\":{pattern},\
             \"content\":\"{content}\"}},{{\"type\":\"Lowercase\"}}]}}"
        ))
    };
    assert!(replace("{\"String\":\" \"}", "_"));
    assert!(!replace("{\"String\":\"\"}", "_"));
    assert!(replace("{\"String\":\"\"}", ""));
    assert!(replace("{\"Regex\":\" +\"}", ""));
    assert!(!replace("{\"Regex\":\"^\"}", ">"));
    assert!(replace("{\"Regex\":\" {2,}\"}", " "));
    assert!(replace("{\"Regex\":\"\\\\s+\"}", " "));
    assert!(!replace("{\"Regex\":\"\\\\s*\"}", " "));
    assert!(!replace("{\"Regex\":\"\\\\b\"}", " "));
    assert!(!replace("{\"Regex\":\"x{0,2}\"}", " "));
    let mut timings = StageTimings::new(false);
    let engine = engine_of(build(&Parts { normalizer: "{\"type\":\"NFC\"}", ..PLAIN }));
    assert_eq!(engine.count_tokens("Call John", &mut timings).unwrap(), 2);
}

#[test]
fn paddings_are_looked_at() {
    let pads = |strategy: &str, multiple: &str| {
        let padding = format!(
            "{{\"strategy\":{strategy},\"direction\":\"Right\",\"pad_to_multiple_of\":{multiple},\
             \"pad_id\":0,\"pad_type_id\":0,\"pad_token\":\"[UNK]\"}}"
        );
        encodes(Parts { padding: &padding, ..PLAIN })
    };
    assert!(pads("\"BatchLongest\"", "null"));
    assert!(pads("{\"Fixed\":8}", "4"));
    assert!(pads("{\"Fixed\":99999999}", "null"));
    assert!(!pads("{\"Fixed\":18446744073709551615}", "null"));
    assert!(!pads("\"BatchLongest\"", "18446744073709551615"));
}

#[test]
fn added_tokens_are_looked_at() {
    let strip = "{\"type\":\"Strip\",\"strip_left\":true,\"strip_right\":true}";
    let bert = "{\"type\":\"BertNormalizer\",\"clean_text\":true,\"handle_chinese_chars\":true,\"strip_accents\":null,\"lowercase\":true}";
    let erase = "{\"type\":\"Replace\",\"pattern\":{\"String\":\"<\"},\"content\":\"\"}";
    let adds = |open: &str, flags: &[(bool, bool, bool)], normalizer: &str| {
        let tokens: Vec<String> = flags
            .iter()
            .enumerate()
            .map(|(i, (lstrip, rstrip, normalized))| {
                format!(
                    "{{\"id\":{},\"content\":\"{}\",\"single_word\":false,\"lstrip\":{lstrip},\
                     \"rstrip\":{rstrip},\"normalized\":{normalized},\"special\":true}}",
                    i + 4,
                    open.repeat(i + 1)
                )
            })
            .collect();
        let added = format!("[{}]", tokens.join(","));
        encodes(Parts { added: &added, normalizer, ..PLAIN })
    };
    let lowercase = "{\"type\":\"Lowercase\"}";
    assert!(adds("<", &[(false, false, false)], strip));
    assert!(adds(" ", &[(true, false, false), (true, false, false)], lowercase));
    assert!(adds("<", &[(true, false, false), (false, true, false)], "null"));
    assert!(!adds(" ", &[(true, false, false), (false, true, false)], "null"));
    assert!(adds(" ", &[(false, false, true)], "null"));
    assert!(adds(" ", &[(false, false, true)], lowercase));
    assert!(!adds(" ", &[(false, false, true)], strip));
    assert!(!adds(" ", &[(false, false, true), (false, false, false)], strip));
    assert!(adds("<", &[(false, false, true)], strip));
    assert!(adds("<", &[(false, false, true)], bert));
    assert!(!adds("<", &[(false, false, true)], erase));
    assert!(!adds("<", &[(true, false, true), (false, true, true)], erase));
    let twice = "[{\"id\":4,\"content\":\" \",\"single_word\":false,\"lstrip\":false,\"rstrip\":false,\"normalized\":true,\"special\":false},\
                 {\"id\":4,\"content\":\" \",\"single_word\":false,\"lstrip\":false,\"rstrip\":false,\"normalized\":false,\"special\":false}]";
    assert!(!encodes(Parts { added: twice, normalizer: strip, ..PLAIN }));
    let last = "{\"type\":\"WordLevel\",\"vocab\":{\"[UNK]\":0,\"<\":4294967295},\"unk_token\":\"[UNK]\"}";
    let one = "[{\"id\":4294967295,\"content\":\"<\",\"single_word\":false,\"lstrip\":false,\"rstrip\":false,\"normalized\":false,\"special\":false}]";
    assert!(!encodes(Parts { added: one, model: last, ..PLAIN }));
    let engine = engine_of(build(&Parts { added: &one.replace('<', "Call"), normalizer: strip, ..PLAIN }));
    let mut timings = StageTimings::new(false);
    assert_eq!(engine.count_tokens(" CallJohn é", &mut timings).unwrap(), 3);
}

#[test]
fn counts_agree() {
    let mut timings = StageTimings::new(false);
    let engine = engine();
    for text in ["", " ", "Call John Smith"] {
        let counted = engine.count_tokens(text, &mut timings).unwrap();
        for mode in [DecoderMode::Viterbi, DecoderMode::Argmax] {
            let found = detect(&engine, text, mode, DEFAULT_OPERATING_POINT).unwrap();
            assert_eq!(found.tokens, counted);
        }
    }
    assert!(detect(&engine, "Call John Smith", DecoderMode::Argmax, "nope").is_ok());
    assert!(detect(&engine, "", DecoderMode::Viterbi, "nope").is_ok());
    assert!(detect(&engine, "Call", DecoderMode::Viterbi, "nope").is_err());
}

#[test]
fn argmax_does_not_add() {
    let mut timings = StageTimings::new(false);
    let nothing = |_: u32, _: u32| -> u32 { unreachable!() };
    let found = engine()
        .detect(
            "Call John Smith",
            DecoderMode::Argmax,
            "",
            |_| Ok(bits(&PERSON_AT_END)),
            &nothing,
            &mut timings,
        )
        .unwrap();
    assert_eq!(found.spans.len(), 1);
    assert_eq!(found.spans[0].text, "John Smith");
}

#[test]
fn nan_scores_are_shown() {
    let rows = engine()
        .inspect(
            "Call",
            DecoderMode::Argmax,
            "",
            3,
            |_| Ok(bits(&[[-2.0, f32::NAN, -1.0, -0.5, -3.0]])),
            &plus,
        )
        .unwrap();
    assert_eq!(rows.len(), 1);
    assert_eq!((rows[0].label, rows[0].best), (3, 0));
    let names: Vec<&str> = rows[0].listed.iter().map(|(name, _)| name.as_str()).collect();
    assert_eq!(names, ["O", "B-person", "E-person"]);
}

#[test]
fn stages_of_detection_are_timed() {
    let mut timings = StageTimings::new(true);
    let result = engine().detect(
        "Call John Smith",
        DecoderMode::Viterbi,
        DEFAULT_OPERATING_POINT,
        |_| Ok(bits(&PERSON_AT_END)),
        &plus,
        &mut timings,
    );
    assert!(result.is_ok());
    let shown = report(&timings).unwrap();
    let ran: Vec<(Stage, u64)> = shown.rows.iter().map(|r| (r.stage, r.count)).collect();
    assert_eq!(ran, vec![(Stage::Tokenize, 1), (Stage::Decode, 1), (Stage::SpanExtract, 1)]);
}

#[test]
fn tokens_are_inspected() {
    let rows = engine()
        .inspect(
            "Call John Smith",
            DecoderMode::Viterbi,
            DEFAULT_OPERATING_POINT,
            2,
            |_| Ok(bits(&PERSON_AT_END)),
            &plus,
        )
        .unwrap();
    assert_eq!(rows.len(), 3);
    assert_eq!(rows[1].id, 2);
    assert_eq!((rows[1].byte_start, rows[1].byte_end), (5, 9));
    assert_eq!(rows[1].text, "John");
    assert_eq!((rows[1].label, rows[1].label_name.as_str()), (1, "B-person"));
    assert_eq!((rows[1].best, rows[1].best_name.as_str()), (2, "I-person"));
    assert_eq!(f32::from_bits(rows[1].best_score), -0.5);
    assert_eq!(
        rows[1].listed,
        vec![
            ("I-person".to_string(), (-0.5f32).to_bits()),
            ("B-person".to_string(), (-1.0f32).to_bits())
        ]
    );
    let no_rows = |text: &str| {
        engine().inspect(text, DecoderMode::Viterbi, "nope", 0, |_| Ok(Vec::new()), &plus).unwrap().len()
    };
    assert_eq!(no_rows(""), 0);
    assert_eq!(no_rows(" "), 0);
}

#[test]
fn inspection_errors() {
    let look = |text: &str, point: &str, scores: Result<Vec<u32>, String>| {
        engine().inspect(text, DecoderMode::Viterbi, point, 0, |_| scores, &plus).unwrap_err()
    };
    assert!(matches!(
        look("Call", "nope", Ok(bits(&[[0.0; 5]]))),
        EngineError::UnknownOperatingPoint(_, _)
    ));
    assert!(matches!(look("Call", "default", Ok(Vec::new())), EngineError::ScoreCount));
    assert!(matches!(look("Call", "nope", Err("x".to_string())), EngineError::Forward(_)));
    let few = privstrip::engine::inspect_scores(
        None,
        &info(),
        "Call",
        &[1],
        &[],
        &bits(&[[0.0; 5]]),
        0,
        &plus,
    )
    .unwrap_err();
    assert!(matches!(&few, EngineError::OffsetCount));
    assert_eq!(few.message(), "the byte ranges do not match the tokens");
}

#[test]
fn wire_names() {
    assert!(matches!(DecoderMode::from_wire_name("viterbi"), Some(DecoderMode::Viterbi)));
    assert!(matches!(DecoderMode::from_wire_name("argmax"), Some(DecoderMode::Argmax)));
    assert!(DecoderMode::from_wire_name("Viterbi").is_none());
    assert!(DecoderMode::from_wire_name("").is_none());
}

#[test]
fn stream_lines_are_answered() {
    let mut timings = StageTimings::new(false);
    let engine = engine();
    let request = Ok((Value::from("r1"), "Call John Smith".to_string()));
    let reply = process_stream_line(
        &engine,
        request,
        DecoderMode::Viterbi,
        "default",
        |_| Ok(bits(&PERSON_AT_END)),
        &plus,
        &mut timings,
    );
    assert_eq!(reply.get("id"), Some(&Value::from("r1")));
    assert_eq!(reply.get("tokens"), Some(&Value::from(3u64)));
    assert!(reply.get("elapsed_us").unwrap().is_u64());
    let spans = reply.get("spans").unwrap().as_array().unwrap();
    assert_eq!(spans.len(), 1);
    assert_eq!(spans[0].get("text"), Some(&Value::from("John Smith")));
    assert_eq!(spans[0].get("byte_start"), Some(&Value::from(5u64)));
    let refused = process_stream_line(
        &engine,
        Err("expected value at line 1 column 1".to_string()),
        DecoderMode::Viterbi,
        "default",
        |_| Ok(Vec::new()),
        &plus,
        &mut timings,
    );
    assert_eq!(refused.get("id"), Some(&Value::Null));
    assert_eq!(
        refused.get("error"),
        Some(&Value::from("invalid input json: expected value at line 1 column 1"))
    );
    let failed = process_stream_line(
        &engine,
        Ok((Value::from(4u64), "Call".to_string())),
        DecoderMode::Viterbi,
        "zz",
        |_| Ok(Vec::new()),
        &plus,
        &mut timings,
    );
    assert_eq!(failed.get("id"), Some(&Value::from(4u64)));
    assert_eq!(
        failed.get("error"),
        Some(&Value::from("unknown operating point \"zz\" (known: default)"))
    );
}

#[test]
fn answers_carry_the_time() {
    let reply = answer(Value::Null, Ok(DetectionResult::default()), 1234);
    assert_eq!(reply.get("elapsed_us"), Some(&Value::from(1234u64)));
    assert_eq!(reply.get("spans"), Some(&Value::Array(Vec::new())));
}
