//! How stages are timed, counted and reported.

use vstd::prelude::*;

use crate::engine;
use crate::engine::Trouble;
use crate::spans::Detection;
use crate::timing;
use crate::timing::{Stage, StageRow, Tally, TimingReport};

verus! {

/// The stages come in the order in which they are reported, each under its name.
pub proof fn law_stages_in_order()
    ensures
        Stage::Tokenize.place() == 0,
        Stage::Forward.place() == 1,
        Stage::ForwardAttn.place() == 2,
        Stage::ForwardMoeRoute.place() == 3,
        Stage::ForwardMoeRouteSync.place() == 4,
        Stage::ForwardMoeExpert.place() == 5,
        Stage::Logits.place() == 6,
        Stage::LogitsSync.place() == 7,
        Stage::Decode.place() == 8,
        Stage::SpanExtract.place() == 9,
        Stage::Serialize.place() == 10,
        timing::NUM_STAGES == 11,
        Stage::Tokenize.label_text() == "tokenize"@,
        Stage::Forward.label_text() == "forward"@,
        Stage::ForwardAttn.label_text() == "  forward.attn"@,
        Stage::ForwardMoeRoute.label_text() == "  forward.moe_route"@,
        Stage::ForwardMoeRouteSync.label_text() == "    forward.moe_route_sync"@,
        Stage::ForwardMoeExpert.label_text() == "  forward.moe_expert"@,
        Stage::Logits.label_text() == "logits"@,
        Stage::LogitsSync.label_text() == "  logits_sync"@,
        Stage::Decode.label_text() == "decode"@,
        Stage::SpanExtract.label_text() == "span_extract"@,
        Stage::Serialize.label_text() == "serialize"@,
{
}

/// A stage is a part of another, or stands alone.
pub proof fn law_stages_that_stand_alone(stage: Stage)
    ensures
        stage.stands_alone() <==> !(stage is ForwardAttn || stage is ForwardMoeRoute
            || stage is ForwardMoeRouteSync || stage is ForwardMoeExpert || stage is LogitsSync),
{
}

/// Timing is asked for by `1`, `true` or `yes`, and by nothing else.
pub proof fn law_timing_is_asked_for(value: Seq<char>)
    ensures
        timing::switches_on(value) <==> value == "1"@ || value == "true"@ || value == "yes"@,
{
}

/// A run adds its time to that of its stage and one to its count, and changes nothing of
/// any other stage. Sums beyond what can be held start over from zero.
pub proof fn law_a_run_is_added(tally: Tally, stage: Stage, elapsed_ns: u64, other: Stage)
    requires
        tally.totals.len() == 11,
        tally.counts.len() == 11,
    ensures
        ({
            let now = tally.plus_run(stage, elapsed_ns);
            let i = stage.place();
            let j = other.place();
            &&& now.enabled == tally.enabled
            &&& now.totals.len() == 11 && now.counts.len() == 11
            &&& (now.totals[i] - tally.totals[i] - elapsed_ns) % 0x1_0000_0000_0000_0000 == 0
            &&& (now.counts[i] - tally.counts[i] - 1) % 0x1_0000_0000_0000_0000 == 0
            &&& other != stage ==> now.totals[j] == tally.totals[j] && now.counts[j]
                == tally.counts[j]
        }),
{
    timing::law_stages_have_places(stage, other);
}

/// Timings that are merged add up, stage by stage.
pub proof fn law_merged_timings_add_up(a: Tally, b: Tally, i: int)
    requires
        a.totals.len() == 11,
        a.counts.len() == 11,
        0 <= i < 11,
    ensures
        ({
            let all = a.plus(b);
            &&& all.enabled == a.enabled
            &&& all.totals.len() == 11 && all.counts.len() == 11
            &&& (all.totals[i] - a.totals[i] - b.totals[i]) % 0x1_0000_0000_0000_0000 == 0
            &&& (all.counts[i] - a.counts[i] - b.counts[i]) % 0x1_0000_0000_0000_0000 == 0
        }),
{
}

/// A report shows of a stage what was counted of it. The time at the top is that of the
/// stages that stand alone, and the parts of the forward pass are attention, routing and
/// experts.
pub proof fn law_reported_times(tally: Tally, row: StageRow, i: int)
    ensures
        timing::is_row(tally, row, i) ==> row.stage.place() == i && row.total_ns == tally.totals[i]
            && row.count == tally.counts[i],
        timing::toplevel_time(tally) == tally.totals[0] + tally.totals[1] + tally.totals[6]
            + tally.totals[8] + tally.totals[9] + tally.totals[10],
        timing::forward_parts_time(tally) == tally.totals[2] + tally.totals[3] + tally.totals[5],
        tally.time_of(Stage::Forward) == tally.totals[1],
{
}

/// A detection that comes to something runs the stages tokenize, decode and span_extract
/// once each, and no other; one that is refused for its scores is not decoded.
pub proof fn law_stages_of_a_detection(
    before: Tally,
    after: Tally,
    r: Result<(Seq<Detection>, nat), Trouble>,
    i: int,
)
    requires
        before.enabled,
        before.totals.len() == 11,
        before.counts.len() == 11,
        engine::ran(before, after, seq![Stage::Tokenize] + engine::stages_to_conclude(r)),
        0 <= i < 11,
    ensures
        after.enabled,
        after.counts.len() == 11,
        r is Ok ==> after.counts[i] == (if i == 0 || i == 8 || i == 9 {
            timing::counted(before.counts[i], 1)
        } else {
            before.counts[i]
        }),
        r matches Err(trouble) && (trouble is NoClasses || trouble is ScoreCount)
            ==> after.counts[i] == (if i == 0 {
            timing::counted(before.counts[i], 1)
        } else {
            before.counts[i]
        }),
{
    let rest = engine::stages_to_conclude(r);
    let all = seq![Stage::Tokenize] + rest;
    reveal_with_fuel(engine::counts_after, 4);
    if rest.len() == 0 {
        assert(all =~= seq![Stage::Tokenize]);
        assert(all.drop_last() =~= Seq::<Stage>::empty());
    } else {
        assert(all =~= seq![Stage::Tokenize, Stage::Decode, Stage::SpanExtract]);
        assert(all.drop_last() =~= seq![Stage::Tokenize, Stage::Decode]);
        assert(all.drop_last().drop_last() =~= seq![Stage::Tokenize]);
        assert(all.drop_last().drop_last().drop_last() =~= Seq::<Stage>::empty());
    }
}

/// The share of a stage is shown where the stage stands alone and some time was counted.
pub proof fn law_shares(report: TimingReport, row: StageRow)
    ensures
        report.share_shown(row) <==> report.toplevel_ns > 0 && (row.stage is Tokenize
            || row.stage is Forward || row.stage is Logits || row.stage is Decode
            || row.stage is SpanExtract || row.stage is Serialize),
{
}

} // verus!
