//! How labels are read, and which class and which operating point they describe.

use vstd::prelude::*;

use crate::decoders;
use crate::engine;
use crate::engine::{DecoderMode, DEFAULT_OPERATING_POINT};
use crate::labels;
use crate::labels::{Boundary, LabelFault, LabelInfo, Reading};
use crate::text;
use crate::viterbi;
use crate::viterbi::ViterbiBiases;

verus! {

/// A label is a tag, a dash and a span label.
pub open spec fn tagged(label: Seq<char>, tag: char) -> bool {
    label.len() >= 2 && label[0] == tag && label[1] == '-'
}

/// Labels are read by their first two characters: `O` alone is the background; `B`, `I`,
/// `E` or `S` and a dash make a boundary, and the span label is all that follows. Any other
/// label has an unknown tag if there is a dash in it, and is malformed if there is none.
pub proof fn law_labels_are_read(label: Seq<char>)
    ensures
        label == seq!['O'] ==> labels::reading(label) == Reading::Background,
        tagged(label, 'B') ==> labels::reading(label) == Reading::Tagged(Boundary::B, label.skip(2)),
        tagged(label, 'I') ==> labels::reading(label) == Reading::Tagged(Boundary::I, label.skip(2)),
        tagged(label, 'E') ==> labels::reading(label) == Reading::Tagged(Boundary::E, label.skip(2)),
        tagged(label, 'S') ==> labels::reading(label) == Reading::Tagged(Boundary::S, label.skip(2)),
        label != seq!['O'] && !tagged(label, 'B') && !tagged(label, 'I') && !tagged(label, 'E')
            && !tagged(label, 'S') ==> labels::reading(label) == (if label.contains('-') {
            Reading::UnknownTag
        } else {
            Reading::Malformed
        }),
{
    label.index_of_first_ensures('-');
    if label != seq!['O'] {
        if label.len() >= 2 && label[1] == '-' && label[0] != '-' {
            assert(label.contains('-'));
            let dash = label.index_of_first('-')->0;
            assert(dash == 1);
            let tag = label.take(1);
            assert(tag[0] == label[0]);
            if label[0] == 'B' {
                assert(tag =~= seq!['B']);
            } else if label[0] == 'I' {
                assert(tag =~= seq!['I']);
                assert(tag != seq!['B']) by {
                    assert(seq!['B'][0] == 'B');
                }
            } else if label[0] == 'E' {
                assert(tag =~= seq!['E']);
                assert(tag != seq!['B'] && tag != seq!['I']) by {
                    assert(seq!['B'][0] == 'B' && seq!['I'][0] == 'I');
                }
            } else if label[0] == 'S' {
                assert(tag =~= seq!['S']);
                assert(tag != seq!['B'] && tag != seq!['I'] && tag != seq!['E']) by {
                    assert(seq!['B'][0] == 'B' && seq!['I'][0] == 'I' && seq!['E'][0] == 'E');
                }
            } else {
                assert(seq!['B'][0] == 'B' && seq!['I'][0] == 'I' && seq!['E'][0] == 'E'
                    && seq!['S'][0] == 'S');
            }
        } else if label.contains('-') {
            let dash = label.index_of_first('-')->0;
            let tag = label.take(dash);
            if tag.len() == 1 {
                assert(label[1] == '-');
                assert(label[0] != '-');
            }
            assert(tag.len() != 1);
            assert(seq!['B'].len() == 1 && seq!['I'].len() == 1 && seq!['E'].len() == 1
                && seq!['S'].len() == 1);
        }
    }
}

/// What a class is, by its entry: the last entry with its number gives its name and its
/// boundary, and the last of them with a tag gives its span label. A class without an
/// entry has no name and is background.
pub proof fn law_entries_describe_classes(
    entries: Seq<(int, Seq<char>)>,
    number: int,
    label: Seq<char>,
    id: int,
)
    ensures
        ({
            let more = entries.push((number, label));
            &&& number != id ==> {
                &&& labels::class_label(more, id) == labels::class_label(entries, id)
                &&& labels::class_boundary(more, id) == labels::class_boundary(entries, id)
                &&& labels::class_span(more, id) == labels::class_span(entries, id)
            }
            &&& number == id ==> {
                &&& labels::class_label(more, id) == label
                &&& match labels::reading(label) {
                    Reading::Tagged(boundary, rest) => labels::class_boundary(more, id) == boundary
                        && labels::class_span(more, id) == Some(rest),
                    _ => labels::class_boundary(more, id) == Boundary::Background
                        && labels::class_span(more, id) == labels::class_span(entries, id),
                }
            }
            &&& labels::background_class(more) == (if label == seq!['O'] && number
                > labels::background_class(entries) {
                number
            } else {
                labels::background_class(entries)
            })
        }),
        labels::class_label(Seq::empty(), id) == Seq::<char>::empty(),
        labels::class_boundary(Seq::empty(), id) == Boundary::Background,
        labels::class_span(Seq::empty(), id) is None,
        labels::background_class(Seq::empty()) == 0,
{
    let more = entries.push((number, label));
    assert(more.drop_last() =~= entries);
    law_labels_are_read(label);
}

/// The label set holds, for each class, what its entries say.
pub proof fn law_label_set(entries: Seq<(int, Seq<char>)>, info: LabelInfo, id: int)
    requires
        labels::describes(entries, info),
        0 <= id < entries.len(),
    ensures
        info.id2label@.len() == entries.len(),
        info.boundary@.len() == entries.len(),
        info.span_label@.len() == entries.len(),
        info.id2label@[id]@ == labels::class_label(entries, id),
        info.boundary@[id] == labels::class_boundary(entries, id),
        match info.span_label@[id] {
            Some(name) => labels::class_span(entries, id) == Some(name@),
            None => labels::class_span(entries, id) is None,
        },
        info.background_idx == labels::background_class(entries),
{
    assert(info.span_name(id) == labels::class_span(entries, id));
}

/// Which entry stops the reading of labels: of those that cannot be read the one with the
/// least number, and of equal numbers the first. What it says names the label.
pub proof fn law_first_fault(entries: Seq<(int, Seq<char>)>)
    ensures
        match labels::first_unreadable(entries) {
            Some(k) => {
                let label = entries[k].1;
                &&& 0 <= k < entries.len()
                &&& label != seq!['O'] && !tagged(label, 'B') && !tagged(label, 'I') && !tagged(
                    label,
                    'E',
                ) && !tagged(label, 'S')
                &&& forall|j: int|
                    0 <= j < entries.len() && (entries[j].0 < entries[k].0 || (entries[j].0
                        == entries[k].0 && j < k)) ==> {
                        let other = (#[trigger] entries[j]).1;
                        other == seq!['O'] || tagged(other, 'B') || tagged(other, 'I') || tagged(
                            other,
                            'E',
                        ) || tagged(other, 'S')
                    }
                &&& labels::fault_of(label) == (if label.contains('-') {
                    LabelFault::UnknownTag(label)
                } else {
                    LabelFault::Malformed(label)
                })
            },
            None => forall|j: int|
                0 <= j < entries.len() ==> {
                    let other = (#[trigger] entries[j]).1;
                    other == seq!['O'] || tagged(other, 'B') || tagged(other, 'I') || tagged(
                        other,
                        'E',
                    ) || tagged(other, 'S')
                },
        },
{
    labels::lemma_first_unreadable(entries);
    assert forall|label: Seq<char>| #[trigger] labels::unreadable(label) <==> label != seq!['O']
        && !tagged(label, 'B') && !tagged(label, 'I') && !tagged(label, 'E') && !tagged(
        label,
        'S',
    ) by {
        law_labels_are_read(label);
    }
    if let Some(k) = labels::first_unreadable(entries) {
        law_labels_are_read(entries[k].1);
    }
}

/// The first class number that is none stops the reading of a configuration; where there
/// is none, each entry has its number.
pub proof fn law_first_bad_number(entries: Seq<(String, String)>)
    ensures
        match labels::first_bad_id(entries) {
            Some(k) => {
                &&& 0 <= k < entries.len()
                &&& text::parsed_usize(entries[k].0@) is None
                &&& forall|j: int|
                    0 <= j < k ==> text::parsed_usize((#[trigger] entries[j]).0@) is Some
            },
            None => forall|j: int|
                0 <= j < entries.len() ==> {
                    &&& text::parsed_usize((#[trigger] entries[j]).0@) is Some
                    &&& labels::numbered(entries)[j] == (
                        text::parsed_usize(entries[j].0@)->0 as int,
                        entries[j].1@,
                    )
                },
        },
        labels::numbered(entries).len() == entries.len(),
    decreases entries.len(),
{
    if entries.len() > 0 {
        let init = entries.drop_last();
        law_first_bad_number(init);
        assert forall|j: int| 0 <= j < init.len() implies init[j] == #[trigger] entries[j] by {}
        assert(entries[entries.len() - 1] == entries.last());
        if labels::first_bad_id(entries) is None {
            assert forall|j: int| 0 <= j < entries.len() implies text::parsed_usize(
                (#[trigger] entries[j]).0@,
            ) is Some by {
                if j < init.len() {
                    assert(text::parsed_usize(init[j].0@) is Some);
                }
            }
        }
    }
}

/// What the errors of labels say.
pub proof fn law_label_faults(label: Seq<char>)
    ensures
        labels::fault_message(LabelFault::UnknownTag(label)) == "unknown boundary tag in label "@
            + label,
        labels::fault_message(LabelFault::Malformed(label)) == "malformed label "@ + label,
        labels::fault_message(LabelFault::BadId(label)) == text::usize_fault_of(label),
{
}

/// The biases of an operating point are those that stand first under its name.
pub proof fn law_biases_of_a_point(points: Seq<(String, ViterbiBiases)>, name: Seq<char>)
    ensures
        match decoders::biases_at(points, name) {
            Some(biases) => exists|k: int|
                {
                    &&& 0 <= k < points.len()
                    &&& (#[trigger] points[k]).0@ == name
                    &&& points[k].1 == biases
                    &&& forall|j: int| 0 <= j < k ==> (#[trigger] points[j]).0@ != name
                },
            None => forall|j: int| 0 <= j < points.len() ==> (#[trigger] points[j]).0@ != name,
        },
    decreases points.len(),
{
    if points.len() > 0 {
        let init = points.drop_last();
        law_biases_of_a_point(init, name);
        assert forall|j: int| 0 <= j < init.len() implies init[j] == #[trigger] points[j] by {}
        assert(points[points.len() - 1] == points.last());
        match decoders::biases_at(init, name) {
            Some(biases) => {
                let k = choose|k: int|
                    {
                        &&& 0 <= k < init.len()
                        &&& (#[trigger] init[k]).0@ == name
                        &&& init[k].1 == biases
                        &&& forall|j: int| 0 <= j < k ==> (#[trigger] init[j]).0@ != name
                    };
                assert(points[k].0@ == name);
                assert forall|j: int| 0 <= j < k implies (#[trigger] points[j]).0@ != name by {
                    assert(init[j].0@ != name);
                }
            },
            None => {
                assert forall|j: int| 0 <= j < init.len() implies (#[trigger] points[j]).0@ != name by {
                    assert(init[j].0@ != name);
                }
            },
        }
    }
}

/// There is a decoder for each operating point that is declared, with its biases and no
/// others; where nothing is declared, the one that is called default. Loading fails at the
/// first that has no biases.
pub proof fn law_operating_points(
    info: LabelInfo,
    names: Seq<Seq<char>>,
    points: Seq<(String, ViterbiBiases)>,
    name: Seq<char>,
)
    ensures
        decoders::calibrated(info, names, points).contains_key(name) <==> names.contains(name),
        names.contains(name) ==> (decoders::biases_at(points, name) matches Some(biases)
            ==> decoders::calibrated(info, names, points)[name] == viterbi::step_scores(
            info,
            biases,
        )),
        DEFAULT_OPERATING_POINT@ == seq!['d', 'e', 'f', 'a', 'u', 'l', 't'],
        match decoders::first_missing(names, points) {
            Some(missing) => exists|k: int|
                {
                    &&& 0 <= k < names.len()
                    &&& #[trigger] names[k] == missing
                    &&& decoders::biases_at(points, missing) is None
                    &&& forall|j: int|
                        0 <= j < k ==> decoders::biases_at(points, #[trigger] names[j]) is Some
                },
            None => forall|j: int|
                0 <= j < names.len() ==> decoders::biases_at(points, #[trigger] names[j]) is Some,
        },
    decreases names.len(),
{
    reveal_strlit("default");
    assert("default"@ =~= seq!['d', 'e', 'f', 'a', 'u', 'l', 't']);
    if names.len() > 0 {
        let init = names.drop_last();
        law_operating_points(info, init, points, name);
        assert forall|j: int| 0 <= j < init.len() implies init[j] == #[trigger] names[j] by {}
        assert(names[names.len() - 1] == names.last());
        match decoders::first_missing(init, points) {
            Some(missing) => {
                let k = choose|k: int|
                    {
                        &&& 0 <= k < init.len()
                        &&& #[trigger] init[k] == missing
                        &&& decoders::biases_at(points, missing) is None
                        &&& forall|j: int|
                            0 <= j < k ==> decoders::biases_at(points, #[trigger] init[j]) is Some
                    };
                assert(names[k] == missing);
                assert forall|j: int| 0 <= j < k implies decoders::biases_at(
                    points,
                    #[trigger] names[j],
                ) is Some by {
                    assert(decoders::biases_at(points, init[j]) is Some);
                }
            },
            None => {
                assert forall|j: int| 0 <= j < init.len() implies decoders::biases_at(
                    points,
                    #[trigger] names[j],
                ) is Some by {
                    assert(decoders::biases_at(points, init[j]) is Some);
                }
            },
        }
    }
}

/// There are two ways to decode, and each has a name; no other name stands for one. Only
/// one of them asks for an operating point.
pub proof fn law_ways_to_decode(
    name: Seq<char>,
    points: Map<Seq<char>, viterbi::StepScores>,
    point: Seq<char>,
)
    ensures
        name == "viterbi"@ ==> engine::mode_named(name) == Some(DecoderMode::Viterbi),
        name == "argmax"@ ==> engine::mode_named(name) == Some(DecoderMode::Argmax),
        name != "viterbi"@ && name != "argmax"@ ==> engine::mode_named(name) is None,
        engine::asked_decoder(points, DecoderMode::Viterbi, point) == Some(points[point]),
        engine::asked_decoder(points, DecoderMode::Argmax, point) is None,
        engine::lacks_decoder(points, DecoderMode::Viterbi, point) <==> !points.contains_key(point),
        !engine::lacks_decoder(points, DecoderMode::Argmax, point),
{
    reveal_strlit("viterbi");
    reveal_strlit("argmax");
    assert("viterbi"@.len() == 7 && "argmax"@.len() == 6);
}

/// Labels can be taken where every class number is below the number of entries; and where
/// one cannot be read, if that one's number is.
pub proof fn law_labels_that_can_be_taken(entries: Seq<(int, Seq<char>)>)
    ensures
        labels::first_unreadable(entries) is None ==> (labels::ids_fit(entries) <==> forall|k: int|
            0 <= k < entries.len() ==> 0 <= (#[trigger] entries[k]).0 < entries.len()),
        labels::first_unreadable(entries) matches Some(k) ==> (labels::ids_fit(entries)
            <==> entries[k].0 < entries.len()),
{
}

/// What is said of operating points that are missing.
pub proof fn law_missing_points(path: Seq<char>, name: Seq<char>)
    ensures
        decoders::missing_point(path, name) == "operating point "@ + text::quoted_of(name)
            + " not found in "@ + path,
        decoders::no_points(path) == "no operating points declared in "@ + path,
{
}

/// The operating points are listed in ascending order, each of them once.
pub proof fn law_listed_points(names: Seq<Seq<char>>, all: Set<Seq<char>>, name: Seq<char>)
    requires
        decoders::lists(names, all),
    ensures
        all.contains(name) <==> exists|k: int| 0 <= k < names.len() && #[trigger] names[k] == name,
        forall|i: int, j: int|
            0 <= i < j < names.len() ==> text::precedes(#[trigger] names[i], #[trigger] names[j]),
{
    if names.contains(name) {
        let k = names.index_of(name);
        assert(names[k] == name);
    }
    assert(all.contains(name) <==> names.contains(name));
}

} // verus!
