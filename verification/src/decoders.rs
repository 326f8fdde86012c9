//! Decoders by the name of their operating point.

use vstd::prelude::*;

use crate::engine::DEFAULT_OPERATING_POINT;
use crate::labels::LabelInfo;
use crate::sorting;
use crate::text;
use crate::viterbi;
use crate::viterbi::{StepScores, ViterbiBiases, ViterbiDecoder};

verus! {

/// The decoders of entries by name.
spec fn by_name(entries: Seq<(String, ViterbiDecoder)>) -> Map<Seq<char>, StepScores>
    decreases entries.len(),
{
    if entries.len() == 0 {
        Map::empty()
    } else {
        by_name(entries.drop_last()).insert(entries.last().0@, entries.last().1@)
    }
}

/// The names of entries.
spec fn names_of(entries: Seq<(String, ViterbiDecoder)>) -> Seq<Seq<char>> {
    entries.map_values(|entry: (String, ViterbiDecoder)| entry.0@)
}

/// No two entries have the same name.
spec fn named_apart(entries: Seq<(String, ViterbiDecoder)>) -> bool {
    forall|i: int, j: int|
        0 <= i < j < entries.len() ==> (#[trigger] entries[i]).0@ != (#[trigger] entries[j]).0@
}

/// A name stands for the entry that has it.
proof fn lemma_by_name(entries: Seq<(String, ViterbiDecoder)>)
    requires
        named_apart(entries),
    ensures
        forall|i: int|
            0 <= i < entries.len() ==> by_name(entries).contains_key((#[trigger] entries[i]).0@)
                && by_name(entries)[entries[i].0@] == entries[i].1@,
        forall|name: Seq<char>| #[trigger]
            by_name(entries).contains_key(name) <==> names_of(entries).contains(name),
    decreases entries.len(),
{
    if entries.len() > 0 {
        let init = entries.drop_last();
        assert forall|i: int, j: int| 0 <= i < j < init.len() implies (#[trigger] init[i]).0@ != (
        #[trigger] init[j]).0@ by {
            assert(entries[i].0@ != entries[j].0@);
        }
        lemma_by_name(init);
        let last = entries.len() - 1;
        assert(names_of(entries) =~= names_of(init).push(entries.last().0@));
        assert forall|i: int| 0 <= i < entries.len() implies by_name(entries).contains_key(
            (#[trigger] entries[i]).0@,
        ) && by_name(entries)[entries[i].0@] == entries[i].1@ by {
            if i < last {
                assert(init[i] == entries[i]);
                assert(entries[i].0@ != entries[last].0@);
            }
        }
        assert forall|name: Seq<char>| #[trigger]
            by_name(entries).contains_key(name) <==> names_of(entries).contains(name) by {
            if by_name(entries).contains_key(name) {
                if name == entries.last().0@ {
                    assert(names_of(entries)[last] == name);
                } else {
                    assert(by_name(init).contains_key(name));
                    let k = names_of(init).index_of(name);
                    assert(names_of(entries)[k] == name);
                }
            }
            if names_of(entries).contains(name) {
                let k = names_of(entries).index_of(name);
                if k < last {
                    assert(names_of(init)[k] == name);
                    assert(by_name(init).contains_key(name));
                }
            }
        }
    } else {
        assert forall|name: Seq<char>| #[trigger]
            by_name(entries).contains_key(name) <==> names_of(entries).contains(name) by {}
    }
}

/// An ascending list of the names in a set.
pub open spec fn lists(names: Seq<Seq<char>>, all: Set<Seq<char>>) -> bool {
    &&& text::ascending(names)
    &&& forall|name: Seq<char>| #[trigger] all.contains(name) <==> names.contains(name)
}

/// One decoder for each operating point.
pub struct DecoderSet {
    entries: Vec<(String, ViterbiDecoder)>,
}

impl View for DecoderSet {
    type V = Map<Seq<char>, StepScores>;

    closed spec fn view(&self) -> Map<Seq<char>, StepScores> {
        by_name(self.entries@)
    }
}

/// The order of texts is strict.
proof fn lemma_precedes_is_strict()
    ensures
        sorting::strict_order(|a: Seq<char>, b: Seq<char>| text::precedes(a, b)),
{
    let before = |a: Seq<char>, b: Seq<char>| text::precedes(a, b);
    assert forall|a: Seq<char>| !#[trigger] before(a, a) by {
        text::law_precedes_is_total_order(a, a, a);
    }
    assert forall|a: Seq<char>, b: Seq<char>, c: Seq<char>| #[trigger]
        before(a, b) && #[trigger] before(b, c) implies before(a, c) by {
        text::law_precedes_is_total_order(a, b, c);
    }
    assert forall|a: Seq<char>, b: Seq<char>, c: Seq<char>|
        #![trigger before(a, b), before(c, b)]
        #![trigger before(a, c), before(b, c)]
        #![trigger before(a, b), before(a, c)]
        before(a, b) implies before(a, c) || before(c, b) by {
        text::law_precedes_is_total_order(a, c, b);
        text::law_precedes_is_total_order(c, a, b);
    }
}

/// Texts that differ, put in order, are an ascending list of the same texts.
proof fn lemma_sorted_names(names: Seq<Seq<char>>)
    requires
        forall|i: int, j: int|
            0 <= i < j < names.len() ==> #[trigger] names[i] != #[trigger] names[j],
    ensures
        ({
            let sorted = sorting::stable_sort(
                names,
                |a: Seq<char>, b: Seq<char>| text::precedes(a, b),
            );
            &&& text::ascending(sorted)
            &&& forall|name: Seq<char>| names.contains(name) <==> sorted.contains(name)
        }),
{
    broadcast use vstd::seq_lib::group_to_multiset_ensures;

    let before = |a: Seq<char>, b: Seq<char>| text::precedes(a, b);
    let differ = |a: Seq<char>, b: Seq<char>| a != b;
    let sorted = sorting::stable_sort(names, before);
    lemma_precedes_is_strict();
    sorting::law_stable_sort(names, before);
    assert(sorting::pairwise(names, differ)) by {
        assert forall|i: int, j: int| 0 <= i < j < names.len() implies differ(
            #[trigger] names[i],
            #[trigger] names[j],
        ) by {}
    }
    sorting::law_sort_keeps_pairwise(names, before, differ);
    assert forall|i: int, j: int| 0 <= i < j < sorted.len() implies text::precedes(
        #[trigger] sorted[i],
        #[trigger] sorted[j],
    ) by {
        assert(!before(sorted[j], sorted[i]));
        assert(differ(sorted[i], sorted[j]));
        text::law_precedes_is_total_order(sorted[i], sorted[j], sorted[i]);
    }
    assert forall|name: Seq<char>| names.contains(name) <==> sorted.contains(name) by {
        assert(names.to_multiset().contains(name) <==> sorted.to_multiset().contains(name));
    }
}

impl DecoderSet {
    /// No two decoders have the same name.
    #[verifier::type_invariant]
    closed spec fn inv(self) -> bool {
        named_apart(self.entries@)
    }

    /// No decoders.
    pub fn new() -> (r: Self)
        ensures
            r@ == Map::<Seq<char>, StepScores>::empty(),
    {
        DecoderSet { entries: Vec::new() }
    }

    /// The place of the decoder with a name.
    fn find(&self, name: &str) -> (r: Option<usize>)
        ensures
            match r {
                Some(k) => k < self.entries@.len() && self.entries@[k as int].0@ == name@,
                None => !names_of(self.entries@).contains(name@),
            },
    {
        let mut i: usize = 0;
        while i < self.entries.len()
            invariant
                i <= self.entries@.len(),
                forall|k: int| 0 <= k < i ==> (#[trigger] self.entries@[k]).0@ != name@,
            decreases self.entries.len() - i,
        {
            if text::same_text(self.entries[i].0.as_str(), name) {
                return Some(i);
            }
            i = i + 1;
        }
        proof {
            if names_of(self.entries@).contains(name@) {
                let k = names_of(self.entries@).index_of(name@);
                assert(self.entries@[k].0@ == name@);
            }
        }
        None
    }

    /// Gives a name a decoder, in place of the one it had.
    pub fn insert(&mut self, name: String, decoder: ViterbiDecoder)
        ensures
            final(self)@ == old(self)@.insert(name@, decoder@),
    {
        proof {
            use_type_invariant(&*self);
            lemma_by_name(self.entries@);
        }
        let found = self.find(name.as_str());
        let ghost had = self.entries@;
        let mut entries: Vec<(String, ViterbiDecoder)> = Vec::new();
        std::mem::swap(&mut entries, &mut self.entries);
        match found {
            Some(k) => {
                entries.set(k, (name, decoder));
                proof {
                    assert(named_apart(entries@)) by {
                        assert forall|i: int, j: int| 0 <= i < j < entries@.len() implies (
                        #[trigger] entries@[i]).0@ != (#[trigger] entries@[j]).0@ by {
                            assert(had[i].0@ != had[j].0@);
                        }
                    }
                    lemma_by_name(entries@);
                    assert(names_of(entries@) =~= names_of(had));
                    lemma_updated(had, k as int, name, decoder);
                }
            },
            None => {
                entries.push((name, decoder));
                proof {
                    assert forall|i: int, j: int| 0 <= i < j < entries@.len() implies (
                    #[trigger] entries@[i]).0@ != (#[trigger] entries@[j]).0@ by {
                        if j < had.len() {
                            assert(had[i].0@ != had[j].0@);
                        } else {
                            assert(names_of(had)[i] == had[i].0@);
                        }
                    }
                    assert(entries@.drop_last() =~= had);
                }
            },
        }
        self.entries = entries;
    }

    /// The decoder with a name.
    pub fn get(&self, name: &str) -> (r: Option<&ViterbiDecoder>)
        ensures
            match r {
                Some(decoder) => self@.contains_key(name@) && self@[name@] == decoder@,
                None => !self@.contains_key(name@),
            },
    {
        proof {
            use_type_invariant(self);
            lemma_by_name(self.entries@);
        }
        match self.find(name) {
            Some(k) => Some(&self.entries[k].1),
            None => None,
        }
    }

    /// The names of the decoders, in ascending order.
    pub fn names(&self) -> (r: Vec<&str>)
        ensures
            lists(r@.map_values(|name: &str| name@), self@.dom()),
    {
        proof {
            use_type_invariant(self);
            lemma_by_name(self.entries@);
        }
        let ghost model = |name: &str| name@;
        let ghost order = |a: Seq<char>, b: Seq<char>| text::precedes(a, b);
        let mut all: Vec<&str> = Vec::with_capacity(self.entries.len());
        let mut i: usize = 0;
        while i < self.entries.len()
            invariant
                i <= self.entries@.len(),
                all@.len() == i,
                forall|k: int| 0 <= k < i ==> (#[trigger] all@[k])@ == self.entries@[k].0@,
            decreases self.entries.len() - i,
        {
            all.push(self.entries[i].0.as_str());
            i = i + 1;
        }
        assert(sorting::modelled(all@, model) =~= names_of(self.entries@));
        let before = |a: &&str, b: &&str| -> (r: bool)
            ensures
                r == text::precedes(a@, b@),
            { text::comes_before(a, b) };
        let sorted = sorting::sort_by::<_, Seq<char>, _>(all, before, Ghost(model), Ghost(order));
        proof {
            let names = names_of(self.entries@);
            assert forall|i: int, j: int| 0 <= i < j < names.len() implies #[trigger] names[i]
                != #[trigger] names[j] by {
                assert(self.entries@[i].0@ != self.entries@[j].0@);
            }
            lemma_sorted_names(names);
        }
        sorted
    }
}

/// A new decoder at a place takes the place of the one with its name.
proof fn lemma_updated(
    had: Seq<(String, ViterbiDecoder)>,
    k: int,
    name: String,
    decoder: ViterbiDecoder,
)
    requires
        named_apart(had),
        0 <= k < had.len(),
        had[k].0@ == name@,
        named_apart(had.update(k, (name, decoder))),
    ensures
        by_name(had.update(k, (name, decoder))) == by_name(had).insert(name@, decoder@),
{
    let now = had.update(k, (name, decoder));
    lemma_by_name(had);
    lemma_by_name(now);
    assert(names_of(now) =~= names_of(had));
    let a = by_name(now);
    let b = by_name(had).insert(name@, decoder@);
    assert forall|n: Seq<char>| #[trigger] a.contains_key(n) <==> b.contains_key(n) by {
        if n == name@ {
            assert(now[k].0@ == name@);
        } else {
            assert(by_name(now).contains_key(n) <==> names_of(now).contains(n));
            assert(by_name(had).contains_key(n) <==> names_of(had).contains(n));
        }
    }
    assert forall|n: Seq<char>| #[trigger] a.contains_key(n) implies a[n] == b[n] by {
        let i = names_of(now).index_of(n);
        assert(now[i].0@ == n);
        if i != k {
            assert(had[i].0@ == n);
            if n == name@ {
                if i < k {
                    assert(had[i].0@ != had[k].0@);
                } else {
                    assert(had[k].0@ != had[i].0@);
                }
            }
        } else {
            assert(now[k].0@ == name@);
        }
    }
    assert(a =~= b);
}

/// The biases of an operating point: those that stand first with its name.
pub open spec fn biases_at(points: Seq<(String, ViterbiBiases)>, name: Seq<char>) -> Option<
    ViterbiBiases,
>
    decreases points.len(),
{
    if points.len() == 0 {
        None
    } else {
        match biases_at(points.drop_last(), name) {
            Some(biases) => Some(biases),
            None => if points.last().0@ == name {
                Some(points.last().1)
            } else {
                None
            },
        }
    }
}

/// What is said of an operating point that a calibration lacks.
pub open spec fn missing_point(path: Seq<char>, name: Seq<char>) -> Seq<char> {
    "operating point "@ + text::quoted_of(name) + " not found in "@ + path
}

/// The first biases with a name stay so, however many follow.
proof fn lemma_biases_stay(points: Seq<(String, ViterbiBiases)>, name: Seq<char>, n: int)
    requires
        0 <= n <= points.len(),
        biases_at(points.take(n), name) is Some,
    ensures
        biases_at(points, name) == biases_at(points.take(n), name),
    decreases points.len(),
{
    if n < points.len() {
        assert(points.drop_last().take(n) =~= points.take(n));
        lemma_biases_stay(points.drop_last(), name, n);
    } else {
        assert(points.take(n) =~= points);
    }
}

impl ViterbiBiases {
    /// The biases of a named operating point, out of those that the calibration
    /// file at `path` holds.
    pub fn from_calibration_file(
        path: &str,
        points: &Vec<(String, ViterbiBiases)>,
        operating_point: &str,
    ) -> (r: Result<ViterbiBiases, String>)
        ensures
            match r {
                Ok(biases) => biases_at(points@, operating_point@) == Some(biases),
                Err(message) => biases_at(points@, operating_point@) is None && message@
                    == missing_point(path@, operating_point@),
            },
    {
        let mut i: usize = 0;
        while i < points.len()
            invariant
                i <= points@.len(),
                biases_at(points@.take(i as int), operating_point@) is None,
            decreases points.len() - i,
        {
            proof {
                assert(points@.take(i + 1).drop_last() =~= points@.take(i as int));
            }
            if text::same_text(points[i].0.as_str(), operating_point) {
                proof {
                    lemma_biases_stay(points@, operating_point@, i + 1);
                }
                return Ok(points[i].1);
            }
            i = i + 1;
        }
        assert(points@.take(points@.len() as int) =~= points@);
        let mut message = "operating point ".to_owned();
        message.append(text::quoted(operating_point).as_str());
        message.append(" not found in ");
        message.append(path);
        Err(message)
    }
}

/// What a calibration file holds, and where it is.
pub struct Calibration {
    pub path: String,
    /// The operating points that it declares.
    pub names: Vec<String>,
    /// The biases that it gives them.
    pub points: Vec<(String, ViterbiBiases)>,
}

/// The first of the declared operating points that has no biases.
pub open spec fn first_missing(
    names: Seq<Seq<char>>,
    points: Seq<(String, ViterbiBiases)>,
) -> Option<Seq<char>>
    decreases names.len(),
{
    if names.len() == 0 {
        None
    } else {
        match first_missing(names.drop_last(), points) {
            Some(name) => Some(name),
            None => if biases_at(points, names.last()) is None {
                Some(names.last())
            } else {
                None
            },
        }
    }
}

/// The decoders of declared operating points.
pub open spec fn calibrated(
    info: LabelInfo,
    names: Seq<Seq<char>>,
    points: Seq<(String, ViterbiBiases)>,
) -> Map<Seq<char>, StepScores> {
    Map::new(
        |name: Seq<char>| names.contains(name),
        |name: Seq<char>| viterbi::step_scores(info, biases_at(points, name)->0),
    )
}

/// The first point without biases is the same, however many names follow.
proof fn lemma_missing_stays(
    names: Seq<Seq<char>>,
    points: Seq<(String, ViterbiBiases)>,
    n: int,
)
    requires
        0 <= n <= names.len(),
        first_missing(names.take(n), points) is Some,
    ensures
        first_missing(names, points) == first_missing(names.take(n), points),
    decreases names.len(),
{
    if n < names.len() {
        assert(names.drop_last().take(n) =~= names.take(n));
        lemma_missing_stays(names.drop_last(), points, n);
    } else {
        assert(names.take(n) =~= names);
    }
}

/// What is said of a calibration without operating points.
pub open spec fn no_points(path: Seq<char>) -> Seq<char> {
    "no operating points declared in "@ + path
}

/// Builds one decoder for each operating point that a calibration declares. Without
/// a calibration there is one decoder, without biases, under the default name.
pub fn load_decoders(calibration: Option<&Calibration>, label_info: &LabelInfo) -> (r: Result<
    DecoderSet,
    String,
>)
    requires
        label_info.wf(),
    ensures
        match calibration {
            None => r matches Ok(decoders) && decoders@ == map![
                DEFAULT_OPERATING_POINT@ => viterbi::step_scores(*label_info, viterbi::no_biases()),
            ],
            Some(file) => match r {
                Ok(decoders) => {
                    &&& file.names@.len() > 0
                    &&& first_missing(text::views(file.names@), file.points@) is None
                    &&& decoders@ == calibrated(*label_info, text::views(file.names@), file.points@)
                },
                Err(message) => if file.names@.len() == 0 {
                    message@ == no_points(file.path@)
                } else {
                    first_missing(text::views(file.names@), file.points@) matches Some(name)
                        && message@ == missing_point(file.path@, name)
                },
            },
        },
{
    let mut decoders = DecoderSet::new();
    match calibration {
        None => {
            let decoder = ViterbiDecoder::with_biases(label_info, ViterbiBiases::default());
            decoders.insert(DEFAULT_OPERATING_POINT.to_owned(), decoder);
            Ok(decoders)
        },
        Some(file) => {
            if file.names.len() == 0 {
                return Err("no operating points declared in ".to_owned().concat(file.path.as_str()));
            }
            let ghost names = text::views(file.names@);
            let mut i: usize = 0;
            assert(decoders@ =~= calibrated(*label_info, names.take(0), file.points@));
            while i < file.names.len()
                invariant
                    label_info.wf(),
                    calibration == Some(file),
                    i <= file.names@.len(),
                    names == text::views(file.names@),
                    first_missing(names.take(i as int), file.points@) is None,
                    decoders@ == calibrated(*label_info, names.take(i as int), file.points@),
                decreases file.names.len() - i,
            {
                let name = &file.names[i];
                proof {
                    assert(names.take(i + 1).drop_last() =~= names.take(i as int));
                    assert(names.take(i + 1).last() == name@);
                    lemma_one_more_name(*label_info, names.take(i as int), name@, file.points@);
                    assert(names.take(i + 1) =~= names.take(i as int).push(name@));
                }
                match ViterbiBiases::from_calibration_file(
                    file.path.as_str(),
                    &file.points,
                    name.as_str(),
                ) {
                    Ok(biases) => {
                        decoders.insert(name.clone(), ViterbiDecoder::with_biases(label_info, biases));
                    },
                    Err(message) => {
                        proof {
                            lemma_missing_stays(names, file.points@, i + 1);
                        }
                        return Err(message);
                    },
                }
                i = i + 1;
            }
            assert(names.take(names.len() as int) =~= names);
            Ok(decoders)
        },
    }
}

/// One more name is one more decoder.
proof fn lemma_one_more_name(
    info: LabelInfo,
    names: Seq<Seq<char>>,
    name: Seq<char>,
    points: Seq<(String, ViterbiBiases)>,
)
    ensures
        calibrated(info, names.push(name), points) == calibrated(info, names, points).insert(
            name,
            viterbi::step_scores(info, biases_at(points, name)->0),
        ),
{
    let more = names.push(name);
    assert forall|n: Seq<char>| more.contains(n) <==> names.contains(n) || n == name by {
        if names.contains(n) {
            assert(more[names.index_of(n)] == n);
        }
        if n == name {
            assert(more[names.len() as int] == n);
        }
        if more.contains(n) && n != name {
            let k = more.index_of(n);
            assert(names[k] == n);
        }
    }
    assert(calibrated(info, more, points) =~= calibrated(info, names, points).insert(
        name,
        viterbi::step_scores(info, biases_at(points, name)->0),
    ));
}

/// The decoders of a calibration do not depend on the order, or the number of
/// times, in which it declares its operating points.
pub proof fn law_order_of_points_is_free(
    info: LabelInfo,
    a: Seq<Seq<char>>,
    b: Seq<Seq<char>>,
    points: Seq<(String, ViterbiBiases)>,
)
    requires
        forall|name: Seq<char>| a.contains(name) <==> b.contains(name),
    ensures
        calibrated(info, a, points) == calibrated(info, b, points),
        first_missing(a, points) is None <==> first_missing(b, points) is None,
{
    assert(calibrated(info, a, points) =~= calibrated(info, b, points));
    lemma_none_missing(a, points);
    lemma_none_missing(b, points);
    if first_missing(a, points) is None {
        assert forall|i: int| 0 <= i < b.len() implies biases_at(points, #[trigger] b[i]) is Some by {
            assert(b.contains(b[i]));
            assert(a.contains(b[i]));
            assert(biases_at(points, a[a.index_of(b[i])]) is Some);
        }
    }
    if first_missing(b, points) is None {
        assert forall|i: int| 0 <= i < a.len() implies biases_at(points, #[trigger] a[i]) is Some by {
            assert(a.contains(a[i]));
            assert(b.contains(a[i]));
            assert(biases_at(points, b[b.index_of(a[i])]) is Some);
        }
    }
}

proof fn lemma_none_missing(names: Seq<Seq<char>>, points: Seq<(String, ViterbiBiases)>)
    ensures
        first_missing(names, points) is None <==> forall|i: int|
            0 <= i < names.len() ==> biases_at(points, #[trigger] names[i]) is Some,
    decreases names.len(),
{
    if names.len() > 0 {
        let init = names.drop_last();
        lemma_none_missing(init, points);
        assert forall|i: int| 0 <= i < init.len() implies init[i] == #[trigger] names[i] by {}
        if first_missing(names, points) is None {
            assert forall|i: int| 0 <= i < names.len() implies biases_at(
                points,
                #[trigger] names[i],
            ) is Some by {
                if i < init.len() {
                    assert(biases_at(points, init[i]) is Some);
                }
            }
        }
        if forall|i: int| 0 <= i < names.len() ==> biases_at(points, #[trigger] names[i]) is Some {
            assert forall|i: int| 0 <= i < init.len() implies biases_at(
                points,
                #[trigger] init[i],
            ) is Some by {
                assert(biases_at(points, names[i]) is Some);
            }
            assert(biases_at(points, names[names.len() - 1]) is Some);
        }
    }
}

} // verus!
