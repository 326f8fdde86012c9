//! Answers to a stream of requests.

use serde_json::Value;
use vstd::prelude::*;

use crate::engine;
use crate::engine::{DecoderMode, DetectionResult, Engine, EngineError};
use crate::json;
use crate::json::Json;
use crate::timing;
use crate::timing::StageTimings;

verus! {

/// The answer that detection comes to.
pub open spec fn answer_of(
    id: Json,
    r: Result<DetectionResult, EngineError>,
    elapsed_us: u64,
) -> Json {
    match r {
        Ok(result) => json::answer_object(
            id,
            result.found(),
            result.tokens as nat,
            elapsed_us as nat,
        ),
        Err(error) => json::error_object(id, engine::trouble_message(error@)),
    }
}

/// The answer to a request that came to this in this time.
pub fn answer(id: Value, outcome: Result<DetectionResult, EngineError>, elapsed_us: u64) -> (r: Value)
    ensures
        json::json_of(r) == answer_of(json::json_of(id), outcome, elapsed_us),
{
    match outcome {
        Ok(result) => json::detection_json(id, &result, elapsed_us),
        Err(error) => json::detection_error_json(id, error.message()),
    }
}

/// Answers a request: its id and its text, or what is wrong with its line.
pub fn process_stream_line<
    S: FnOnce(Vec<u32>) -> Result<Vec<u32>, String>,
    F: Fn(u32, u32) -> u32,
>(
    engine: &Engine,
    request: Result<(Value, String), String>,
    decoder_mode: DecoderMode,
    operating_point: &str,
    score: S,
    plus: &F,
    timings: &mut StageTimings,
) -> (r: Value)
    requires
        forall|ids: Vec<u32>| score.requires((ids,)),
        forall|a: u32, b: u32| plus.requires((a, b)),
    ensures
        match request {
            Err(reason) => {
                &&& json::json_of(r) == json::error_object(
                    Json::Null,
                    "invalid input json: "@ + reason@,
                )
                &&& final(timings)@ == old(timings)@
            },
            Ok((id, text)) => exists|outcome: Result<DetectionResult, EngineError>, elapsed_us: u64|
                engine.detects(
                    score,
                    *plus,
                    text@,
                    decoder_mode,
                    operating_point@,
                    old(timings)@,
                    final(timings)@,
                    outcome,
                ) && json::json_of(r) == #[trigger] answer_of(json::json_of(id), outcome, elapsed_us),
        },
{
    match request {
        Err(reason) => json::refused_line_json(reason.as_str()),
        Ok((id, text)) => {
            let started = timing::now();
            let outcome = engine.detect(
                text.as_str(),
                decoder_mode,
                operating_point,
                score,
                plus,
                timings,
            );
            let elapsed_us: u64 = #[verifier::truncate] (timing::microseconds(
                &timing::since(&started),
            ) as u64);
            answer(id, outcome, elapsed_us)
        },
    }
}

/// Every answer carries the id of its request, and either spans or an error.
pub proof fn law_answer_carries_id(
    id: Json,
    r: Result<DetectionResult, EngineError>,
    elapsed_us: u64,
)
    ensures
        answer_of(id, r, elapsed_us) matches Json::Object(members) && {
            &&& members.contains_key("id"@) && members["id"@] == id
            &&& members.contains_key("spans"@) <==> r is Ok
            &&& members.contains_key("error"@) <==> r is Err
        },
{
    reveal_strlit("id");
    reveal_strlit("spans");
    reveal_strlit("tokens");
    reveal_strlit("elapsed_us");
    reveal_strlit("error");
    assert("id"@.len() == 2 && "spans"@.len() == 5 && "tokens"@.len() == 6 && "elapsed_us"@.len()
        == 10 && "error"@.len() == 5);
    assert("error"@[0] == 'e' && "spans"@[0] == 's');
}

} // verus!
