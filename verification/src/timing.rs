//! Time spent per stage of the pipeline, taken when it is asked for.

use std::time::{Duration, Instant};

use vstd::prelude::*;

use crate::text;

verus! {

/// A stage of the pipeline. `ForwardAttn`, `ForwardMoeRoute` and
/// `ForwardMoeExpert` are parts of `Forward`, `ForwardMoeRouteSync` is a part of
/// `ForwardMoeRoute`, and `LogitsSync` is one of `Logits`.
#[derive(Debug, Clone, Copy, PartialEq, Eq, Structural)]
pub enum Stage {
    Tokenize,
    Forward,
    ForwardAttn,
    ForwardMoeRoute,
    ForwardMoeRouteSync,
    ForwardMoeExpert,
    Logits,
    LogitsSync,
    Decode,
    SpanExtract,
    Serialize,
}

/// The number of stages.
pub const NUM_STAGES: usize = 11;

impl Stage {
    /// The place of a stage in reports, from 0.
    pub open spec fn place(self) -> int {
        match self {
            Stage::Tokenize => 0,
            Stage::Forward => 1,
            Stage::ForwardAttn => 2,
            Stage::ForwardMoeRoute => 3,
            Stage::ForwardMoeRouteSync => 4,
            Stage::ForwardMoeExpert => 5,
            Stage::Logits => 6,
            Stage::LogitsSync => 7,
            Stage::Decode => 8,
            Stage::SpanExtract => 9,
            Stage::Serialize => 10,
        }
    }

    /// The place of a stage in reports, from 0.
    pub fn index(self) -> (i: usize)
        ensures
            i == self.place(),
            i < NUM_STAGES,
    {
        match self {
            Stage::Tokenize => 0,
            Stage::Forward => 1,
            Stage::ForwardAttn => 2,
            Stage::ForwardMoeRoute => 3,
            Stage::ForwardMoeRouteSync => 4,
            Stage::ForwardMoeExpert => 5,
            Stage::Logits => 6,
            Stage::LogitsSync => 7,
            Stage::Decode => 8,
            Stage::SpanExtract => 9,
            Stage::Serialize => 10,
        }
    }

    /// The stage at a place.
    pub fn at(i: usize) -> (stage: Stage)
        requires
            i < NUM_STAGES,
        ensures
            stage.place() == i,
    {
        match i {
            0 => Stage::Tokenize,
            1 => Stage::Forward,
            2 => Stage::ForwardAttn,
            3 => Stage::ForwardMoeRoute,
            4 => Stage::ForwardMoeRouteSync,
            5 => Stage::ForwardMoeExpert,
            6 => Stage::Logits,
            7 => Stage::LogitsSync,
            8 => Stage::Decode,
            9 => Stage::SpanExtract,
            _ => Stage::Serialize,
        }
    }

    /// The name of a stage in reports, indented under the stage it is a part of.
    pub open spec fn label_text(self) -> Seq<char> {
        match self {
            Stage::Tokenize => "tokenize"@,
            Stage::Forward => "forward"@,
            Stage::ForwardAttn => "  forward.attn"@,
            Stage::ForwardMoeRoute => "  forward.moe_route"@,
            Stage::ForwardMoeRouteSync => "    forward.moe_route_sync"@,
            Stage::ForwardMoeExpert => "  forward.moe_expert"@,
            Stage::Logits => "logits"@,
            Stage::LogitsSync => "  logits_sync"@,
            Stage::Decode => "decode"@,
            Stage::SpanExtract => "span_extract"@,
            Stage::Serialize => "serialize"@,
        }
    }

    /// The name of a stage in reports, indented under the stage it is a part of.
    pub fn label(self) -> (r: &'static str)
        ensures
            r@ == self.label_text(),
    {
        match self {
            Stage::Tokenize => "tokenize",
            Stage::Forward => "forward",
            Stage::ForwardAttn => "  forward.attn",
            Stage::ForwardMoeRoute => "  forward.moe_route",
            Stage::ForwardMoeRouteSync => "    forward.moe_route_sync",
            Stage::ForwardMoeExpert => "  forward.moe_expert",
            Stage::Logits => "logits",
            Stage::LogitsSync => "  logits_sync",
            Stage::Decode => "decode",
            Stage::SpanExtract => "span_extract",
            Stage::Serialize => "serialize",
        }
    }

    /// A stage that is not a part of another.
    pub open spec fn stands_alone(self) -> bool {
        matches!(
            self,
            Stage::Tokenize | Stage::Forward | Stage::Logits | Stage::Decode | Stage::SpanExtract
                | Stage::Serialize
        )
    }

    /// Decides whether a stage is not a part of another.
    pub fn is_toplevel(self) -> (r: bool)
        ensures
            r == self.stands_alone(),
    {
        matches!(
            self,
            Stage::Tokenize | Stage::Forward | Stage::Logits | Stage::Decode | Stage::SpanExtract
                | Stage::Serialize
        )
    }
}

/// Every place is the place of one stage.
pub proof fn law_stages_have_places(a: Stage, b: Stage)
    ensures
        0 <= a.place() < NUM_STAGES,
        a.place() == b.place() ==> a == b,
{
}

/// Whether timing is switched on by the value of its setting.
pub open spec fn switches_on(value: Seq<char>) -> bool {
    value == "1"@ || value == "true"@ || value == "yes"@
}

/// Decides whether timing is switched on by its setting, where it has a value.
pub fn timing_requested(value: Option<&str>) -> (r: bool)
    ensures
        r == (value matches Some(v) && switches_on(v@)),
{
    match value {
        Some(v) => text::same_text(v, "1") || text::same_text(v, "true") || text::same_text(
            v,
            "yes",
        ),
        None => false,
    }
}

/// The sum of two counters, which start over at 2^64.
pub open spec fn counted(a: u64, b: u64) -> u64 {
    if a + b > u64::MAX {
        (a + b - u64::MAX - 1) as u64
    } else {
        (a + b) as u64
    }
}

/// What timings hold: whether they are taken, and for each stage its time in
/// nanoseconds and how often it ran.
#[verifier::ext_equal]
pub struct Tally {
    pub enabled: bool,
    pub totals: Seq<u64>,
    pub counts: Seq<u64>,
}

impl Tally {
    /// Every stage has a time and a count.
    pub open spec fn wf(self) -> bool {
        self.totals.len() == NUM_STAGES && self.counts.len() == NUM_STAGES
    }

    /// The time of a stage.
    pub open spec fn time_of(self, stage: Stage) -> u64 {
        self.totals[stage.place()]
    }

    /// One more run of a stage.
    pub open spec fn plus_run(self, stage: Stage, elapsed_ns: u64) -> Tally {
        let i = stage.place();
        Tally {
            totals: self.totals.update(i, counted(self.totals[i], elapsed_ns)),
            counts: self.counts.update(i, counted(self.counts[i], 1)),
            ..self
        }
    }

    /// Two tallies in one.
    pub open spec fn plus(self, other: Tally) -> Tally {
        Tally {
            totals: Seq::new(NUM_STAGES as nat, |i: int| counted(self.totals[i], other.totals[i])),
            counts: Seq::new(NUM_STAGES as nat, |i: int| counted(self.counts[i], other.counts[i])),
            ..self
        }
    }
}

/// The time spent per stage.
pub struct StageTimings {
    enabled: bool,
    totals_ns: Vec<u64>,
    counts: Vec<u64>,
}

impl View for StageTimings {
    type V = Tally;

    closed spec fn view(&self) -> Tally {
        Tally { enabled: self.enabled, totals: self.totals_ns@, counts: self.counts@ }
    }
}

impl StageTimings {
    /// Every stage has a time and a count.
    #[verifier::type_invariant]
    closed spec fn inv(self) -> bool {
        self@.wf()
    }

    /// Timings of nothing yet.
    pub fn new(enabled: bool) -> (r: Self)
        ensures
            r@ == (Tally {
                enabled,
                totals: Seq::new(NUM_STAGES as nat, |i: int| 0u64),
                counts: Seq::new(NUM_STAGES as nat, |i: int| 0u64),
            }),
    {
        let mut totals_ns: Vec<u64> = Vec::with_capacity(NUM_STAGES);
        let mut counts: Vec<u64> = Vec::with_capacity(NUM_STAGES);
        let mut i: usize = 0;
        while i < NUM_STAGES
            invariant
                i <= NUM_STAGES,
                totals_ns@ == Seq::new(i as nat, |k: int| 0u64),
                counts@ == Seq::new(i as nat, |k: int| 0u64),
            decreases NUM_STAGES - i,
        {
            totals_ns.push(0);
            counts.push(0);
            i = i + 1;
            assert(totals_ns@ =~= Seq::new(i as nat, |k: int| 0u64));
            assert(counts@ =~= Seq::new(i as nat, |k: int| 0u64));
        }
        StageTimings { enabled, totals_ns, counts }
    }

    /// Whether timings are taken.
    pub fn enabled(&self) -> (r: bool)
        ensures
            r == self@.enabled,
    {
        self.enabled
    }

    /// Adds one run of a stage.
    pub fn record(&mut self, stage: Stage, elapsed_ns: u64)
        ensures
            final(self)@ == old(self)@.plus_run(stage, elapsed_ns),
    {
        proof {
            use_type_invariant(&*self);
        }
        let i: usize = stage.index();
        let total: u64 = self.totals_ns[i].wrapping_add(elapsed_ns);
        let count: u64 = self.counts[i].wrapping_add(1);
        self.totals_ns[i] = total;
        self.counts[i] = count;
    }

    /// Adds the runs of other timings.
    pub fn merge(&mut self, other: &StageTimings)
        ensures
            final(self)@ == old(self)@.plus(other@),
    {
        proof {
            use_type_invariant(&*self);
            use_type_invariant(other);
        }
        let ghost had = self@;
        let mut totals_ns: Vec<u64> = Vec::with_capacity(NUM_STAGES);
        let mut counts: Vec<u64> = Vec::with_capacity(NUM_STAGES);
        let mut i: usize = 0;
        while i < NUM_STAGES
            invariant
                i <= NUM_STAGES,
                self@ == had,
                self.totals_ns@.len() == NUM_STAGES,
                self.counts@.len() == NUM_STAGES,
                other.totals_ns@.len() == NUM_STAGES,
                other.counts@.len() == NUM_STAGES,
                totals_ns@.len() == i,
                counts@.len() == i,
                forall|k: int|
                    0 <= k < i ==> #[trigger] totals_ns@[k] == counted(
                        had.totals[k],
                        other@.totals[k],
                    ),
                forall|k: int|
                    0 <= k < i ==> #[trigger] counts@[k] == counted(had.counts[k], other@.counts[k]),
            decreases NUM_STAGES - i,
        {
            totals_ns.push(self.totals_ns[i].wrapping_add(other.totals_ns[i]));
            counts.push(self.counts[i].wrapping_add(other.counts[i]));
            i = i + 1;
        }
        *self = StageTimings { enabled: self.enabled, totals_ns, counts };
        assert(self@ =~= had.plus(other@));
    }
}

/// A point in time.
#[verifier::external_type_specification]
#[verifier::external_body]
pub struct ExInstant(std::time::Instant);

/// `Instant::now` reads the clock. Nothing is stated of what it shows.
#[verifier::external_body]
pub(crate) fn now() -> (r: Instant) {
    Instant::now()
}

/// `Instant::elapsed` is the time since a point in time. Nothing is stated of how
/// long that is.
#[verifier::external_body]
pub(crate) fn since(start: &Instant) -> (r: Duration) {
    start.elapsed()
}

/// `Duration::as_nanos` is a duration in nanoseconds. As the duration is the
/// clock's, nothing is stated of the number.
#[verifier::external_body]
fn nanoseconds(duration: &Duration) -> (r: u128) {
    duration.as_nanos()
}

/// `Duration::as_micros` is a duration in microseconds. As the duration is the
/// clock's, nothing is stated of the number.
#[verifier::external_body]
pub(crate) fn microseconds(duration: &Duration) -> (r: u128) {
    duration.as_micros()
}

/// Runs one stage. When timings are taken, the run is added to them.
pub fn time_stage<F: FnOnce() -> R, R>(timings: &mut StageTimings, stage: Stage, f: F) -> (r: R)
    requires
        f.requires(()),
    ensures
        f.ensures((), r),
        old(timings)@.wf(),
        !old(timings)@.enabled ==> final(timings)@ == old(timings)@,
        old(timings)@.enabled ==> exists|elapsed_ns: u64|
            final(timings)@ == #[trigger] old(timings)@.plus_run(stage, elapsed_ns),
{
    proof {
        use_type_invariant(&*timings);
    }
    if !timings.enabled() {
        return f();
    }
    let start = now();
    let r = f();
    let elapsed_ns: u64 = #[verifier::truncate] (nanoseconds(&since(&start)) as u64);
    timings.record(stage, elapsed_ns);
    r
}

/// A line of a report: a stage that ran, its time and how often it ran.
#[derive(Debug, Clone, Copy)]
pub struct StageRow {
    pub stage: Stage,
    pub total_ns: u64,
    pub count: u64,
}

/// What a report shows.
#[derive(Debug)]
pub struct TimingReport {
    /// The stages that ran, in order.
    pub rows: Vec<StageRow>,
    /// The time of all stages that are not a part of another.
    pub toplevel_ns: u128,
    /// The time of the forward pass.
    pub forward_ns: u64,
    /// The time of the parts of the forward pass.
    pub forward_parts_ns: u128,
}

/// The line of the stage at a place.
pub open spec fn is_row(tally: Tally, row: StageRow, i: int) -> bool {
    &&& row.stage.place() == i
    &&& row.total_ns == tally.totals[i]
    &&& row.count == tally.counts[i]
}

/// The places, below `n`, of the stages that ran.
pub open spec fn places_run(tally: Tally, n: int) -> Seq<int>
    decreases n,
{
    if n <= 0 {
        Seq::empty()
    } else if tally.counts[n - 1] == 0 {
        places_run(tally, n - 1)
    } else {
        places_run(tally, n - 1).push(n - 1)
    }
}

/// The time of all stages that are not a part of another.
pub open spec fn toplevel_time(tally: Tally) -> int {
    tally.time_of(Stage::Tokenize) + tally.time_of(Stage::Forward) + tally.time_of(Stage::Logits)
        + tally.time_of(Stage::Decode) + tally.time_of(Stage::SpanExtract) + tally.time_of(
        Stage::Serialize,
    )
}

/// The time of the parts of the forward pass.
pub open spec fn forward_parts_time(tally: Tally) -> int {
    tally.time_of(Stage::ForwardAttn) + tally.time_of(Stage::ForwardMoeRoute) + tally.time_of(
        Stage::ForwardMoeExpert,
    )
}

impl TimingReport {
    /// The share of a stage in the whole is shown, when there is a whole to have
    /// one of.
    pub open spec fn share_shown(&self, row: StageRow) -> bool {
        row.stage.stands_alone() && self.toplevel_ns > 0
    }

    /// Decides whether a line shows the share of its stage in the whole.
    pub fn shows_share(&self, row: &StageRow) -> (r: bool)
        ensures
            r == self.share_shown(*row),
    {
        row.stage.is_toplevel() && self.toplevel_ns > 0
    }

    /// Decides whether the report shows how much of the forward pass its parts
    /// cover.
    pub fn shows_coverage(&self) -> (r: bool)
        ensures
            r == (self.forward_ns > 0 && self.forward_parts_ns > 0),
    {
        self.forward_ns > 0 && self.forward_parts_ns > 0
    }
}

/// What there is to report, where timings are taken.
pub fn report(timings: &StageTimings) -> (r: Option<TimingReport>)
    ensures
        r is Some <==> timings@.enabled,
        r matches Some(shown) ==> {
            &&& shown.rows@.len() == places_run(timings@, NUM_STAGES as int).len()
            &&& forall|k: int|
                0 <= k < shown.rows@.len() ==> is_row(
                    timings@,
                    #[trigger] shown.rows@[k],
                    places_run(timings@, NUM_STAGES as int)[k],
                )
            &&& shown.toplevel_ns == toplevel_time(timings@)
            &&& shown.forward_ns == timings@.time_of(Stage::Forward)
            &&& shown.forward_parts_ns == forward_parts_time(timings@)
        },
{
    proof {
        use_type_invariant(timings);
    }
    if !timings.enabled {
        return None;
    }
    let mut rows: Vec<StageRow> = Vec::with_capacity(NUM_STAGES);
    let mut i: usize = 0;
    while i < NUM_STAGES
        invariant
            i <= NUM_STAGES,
            timings.totals_ns@.len() == NUM_STAGES,
            timings.counts@.len() == NUM_STAGES,
            rows@.len() == places_run(timings@, i as int).len(),
            forall|k: int|
                0 <= k < rows@.len() ==> is_row(
                    timings@,
                    #[trigger] rows@[k],
                    places_run(timings@, i as int)[k],
                ),
        decreases NUM_STAGES - i,
    {
        let count: u64 = timings.counts[i];
        if count != 0 {
            rows.push(StageRow { stage: Stage::at(i), total_ns: timings.totals_ns[i], count });
        }
        i = i + 1;
    }
    let toplevel_ns: u128 = timings.totals_ns[0] as u128 + timings.totals_ns[1] as u128
        + timings.totals_ns[6] as u128 + timings.totals_ns[8] as u128 + timings.totals_ns[9] as u128
        + timings.totals_ns[10] as u128;
    let forward_parts_ns: u128 = timings.totals_ns[2] as u128 + timings.totals_ns[3] as u128
        + timings.totals_ns[5] as u128;
    Some(
        TimingReport { rows, toplevel_ns, forward_ns: timings.totals_ns[1], forward_parts_ns },
    )
}

/// A report shows every stage that ran, in order, and no other.
pub proof fn law_report_shows_what_ran(tally: Tally, n: int, i: int)
    requires
        0 <= n,
    ensures
        places_run(tally, n).contains(i) <==> 0 <= i < n && tally.counts[i] != 0,
        forall|a: int, b: int|
            0 <= a < b < places_run(tally, n).len() ==> #[trigger] places_run(tally, n)[a]
                < #[trigger] places_run(tally, n)[b],
        forall|a: int|
            0 <= a < places_run(tally, n).len() ==> 0 <= #[trigger] places_run(tally, n)[a] < n,
    decreases n,
{
    if n > 0 {
        law_report_shows_what_ran(tally, n - 1, i);
        let init = places_run(tally, n - 1);
        if tally.counts[n - 1] != 0 {
            let all = places_run(tally, n);
            assert(all[init.len() as int] == n - 1);
            if init.contains(i) {
                assert(all[init.index_of(i)] == i);
            }
            if all.contains(i) && i != n - 1 {
                assert(init[all.index_of(i)] == i);
            }
        }
    }
}

/// A run counts once for its stage and for no other, whatever the clock shows.
pub proof fn law_runs_are_counted(tally: Tally, stage: Stage, elapsed_ns: u64, other: Stage)
    requires
        tally.wf(),
    ensures
        ({
            let now = tally.plus_run(stage, elapsed_ns);
            &&& now.enabled == tally.enabled
            &&& now.counts[stage.place()] == counted(tally.counts[stage.place()], 1)
            &&& other != stage ==> now.counts[other.place()] == tally.counts[other.place()]
                && now.totals[other.place()] == tally.totals[other.place()]
        }),
{
    law_stages_have_places(stage, other);
    law_stages_have_places(other, stage);
}

} // verus!
