//! Label names, and what each says of a token's place in a span.

use vstd::prelude::*;
use vstd::string::*;

use crate::sorting;
use crate::text;

verus! {

/// Where in a span a token stands: at its start, inside, at its end, alone, or
/// outside of any span.
#[derive(Debug, Clone, Copy, PartialEq, Eq, Structural)]
pub enum Boundary {
    Background,
    B,
    I,
    E,
    S,
}

/// The label set of a checkpoint, indexed by class id.
#[derive(Debug, Clone)]
pub struct LabelInfo {
    pub id2label: Vec<String>,
    pub boundary: Vec<Boundary>,
    pub span_label: Vec<Option<String>>,
    pub background_idx: usize,
}

/// The text of an optional string.
pub open spec fn text_of(s: Option<String>) -> Option<Seq<char>> {
    match s {
        Some(s) => Some(s@),
        None => None,
    }
}

impl LabelInfo {
    /// Every class has a name, a boundary and an entry for its span label.
    pub open spec fn wf(&self) -> bool {
        &&& self.boundary@.len() == self.id2label@.len()
        &&& self.span_label@.len() == self.id2label@.len()
    }

    /// Every class with a boundary has a span label.
    pub open spec fn names_spans(&self) -> bool {
        forall|id: int|
            0 <= id < self.boundary@.len() && #[trigger] self.boundary@[id] != Boundary::Background
                ==> self.span_name(id) is Some
    }

    /// The number of classes.
    pub open spec fn classes(&self) -> nat {
        self.id2label@.len()
    }

    /// The span label of a class.
    pub open spec fn span_name(&self, id: int) -> Option<Seq<char>> {
        text_of(self.span_label@[id])
    }

    /// The number of classes.
    pub fn num_classes(&self) -> (n: usize)
        ensures
            n == self.classes(),
    {
        self.id2label.len()
    }
}

/// Why a label set cannot be built.
#[derive(Debug)]
pub enum LabelError {
    /// A class id is not a number.
    BadId(String),
    /// A label's tag is none of `B`, `I`, `E` and `S`.
    UnknownTag(String),
    /// A label is neither `O` nor a tag and a span label with a dash between.
    Malformed(String),
}

/// What an error stands for.
pub enum LabelFault {
    BadId(Seq<char>),
    UnknownTag(Seq<char>),
    Malformed(Seq<char>),
}

impl View for LabelError {
    type V = LabelFault;

    open spec fn view(&self) -> LabelFault {
        match *self {
            LabelError::BadId(s) => LabelFault::BadId(s@),
            LabelError::UnknownTag(s) => LabelFault::UnknownTag(s@),
            LabelError::Malformed(s) => LabelFault::Malformed(s@),
        }
    }
}

/// What an error says.
pub open spec fn fault_message(fault: LabelFault) -> Seq<char> {
    match fault {
        LabelFault::BadId(id) => text::usize_fault_of(id),
        LabelFault::UnknownTag(label) => "unknown boundary tag in label "@ + label,
        LabelFault::Malformed(label) => "malformed label "@ + label,
    }
}

impl LabelError {
    /// What the error says.
    pub fn message(&self) -> (r: String)
        ensures
            r@ == fault_message(self@),
    {
        match self {
            LabelError::BadId(id) => text::usize_fault(id.as_str()),
            LabelError::UnknownTag(label) => "unknown boundary tag in label ".to_owned().concat(
                label.as_str(),
            ),
            LabelError::Malformed(label) => "malformed label ".to_owned().concat(label.as_str()),
        }
    }
}

/// What a label says: background, or a boundary of a span label; or what is wrong
/// with it.
pub enum Reading {
    Background,
    Tagged(Boundary, Seq<char>),
    UnknownTag,
    Malformed,
}

/// The boundary that a tag names.
pub open spec fn tag_boundary(tag: Seq<char>) -> Option<Boundary> {
    if tag == seq!['B'] {
        Some(Boundary::B)
    } else if tag == seq!['I'] {
        Some(Boundary::I)
    } else if tag == seq!['E'] {
        Some(Boundary::E)
    } else if tag == seq!['S'] {
        Some(Boundary::S)
    } else {
        None
    }
}

/// How a label reads: `O`, or a tag and a span label around the first dash.
pub open spec fn reading(label: Seq<char>) -> Reading {
    if label == seq!['O'] {
        Reading::Background
    } else {
        match label.index_of_first('-') {
            None => Reading::Malformed,
            Some(dash) => match tag_boundary(label.take(dash)) {
                None => Reading::UnknownTag,
                Some(boundary) => Reading::Tagged(boundary, label.skip(dash + 1)),
            },
        }
    }
}

/// A class and its label.
pub open spec fn entry_of(entry: (usize, String)) -> (int, Seq<char>) {
    (entry.0 as int, entry.1@)
}

/// Classes and their labels.
pub open spec fn entries_of(entries: Seq<(usize, String)>) -> Seq<(int, Seq<char>)> {
    sorting::modelled(entries, |entry: (usize, String)| entry_of(entry))
}

/// Whether a label cannot be read.
pub open spec fn unreadable(label: Seq<char>) -> bool {
    reading(label) is UnknownTag || reading(label) is Malformed
}

/// The entry at which building stops: of the entries that cannot be read, the
/// first of those with the least class.
pub open spec fn first_unreadable(entries: Seq<(int, Seq<char>)>) -> Option<int>
    decreases entries.len(),
{
    if entries.len() == 0 {
        None
    } else {
        let before = first_unreadable(entries.drop_last());
        let last = entries.last();
        if unreadable(last.1) && (before matches Some(k) ==> last.0 < entries[k].0) {
            Some(entries.len() - 1)
        } else {
            before
        }
    }
}

/// The fault of a label that cannot be read.
pub open spec fn fault_of(label: Seq<char>) -> LabelFault {
    if reading(label) is UnknownTag {
        LabelFault::UnknownTag(label)
    } else {
        LabelFault::Malformed(label)
    }
}

/// The label of a class: that of its last entry, or none.
pub open spec fn last_label(entries: Seq<(int, Seq<char>)>, id: int) -> Option<Seq<char>>
    decreases entries.len(),
{
    if entries.len() == 0 {
        None
    } else if entries.last().0 == id {
        Some(entries.last().1)
    } else {
        last_label(entries.drop_last(), id)
    }
}

/// The name of a class: its label, or nothing.
pub open spec fn class_label(entries: Seq<(int, Seq<char>)>, id: int) -> Seq<char> {
    match last_label(entries, id) {
        Some(label) => label,
        None => Seq::empty(),
    }
}

/// The boundary of a class: what its label says, or background.
pub open spec fn class_boundary(entries: Seq<(int, Seq<char>)>, id: int) -> Boundary {
    match last_label(entries, id) {
        Some(label) => match reading(label) {
            Reading::Tagged(boundary, _) => boundary,
            _ => Boundary::Background,
        },
        None => Boundary::Background,
    }
}

/// The span label of a class: that of its last entry that has one, or none.
pub open spec fn class_span(entries: Seq<(int, Seq<char>)>, id: int) -> Option<Seq<char>>
    decreases entries.len(),
{
    if entries.len() == 0 {
        None
    } else {
        match reading(entries.last().1) {
            Reading::Tagged(_, rest) if entries.last().0 == id => Some(rest),
            _ => class_span(entries.drop_last(), id),
        }
    }
}

/// The background class: the greatest whose label is `O`, or 0.
pub open spec fn background_class(entries: Seq<(int, Seq<char>)>) -> int
    decreases entries.len(),
{
    if entries.len() == 0 {
        0
    } else {
        let before = background_class(entries.drop_last());
        if reading(entries.last().1) is Background && entries.last().0 > before {
            entries.last().0
        } else {
            before
        }
    }
}

/// A label set is the one that entries describe.
pub open spec fn describes(entries: Seq<(int, Seq<char>)>, info: LabelInfo) -> bool {
    &&& info.wf()
    &&& info.classes() == entries.len()
    &&& info.background_idx == background_class(entries)
    &&& forall|id: int|
        0 <= id < entries.len() ==> (#[trigger] info.id2label@[id])@ == class_label(entries, id)
    &&& forall|id: int|
        0 <= id < entries.len() ==> #[trigger] info.boundary@[id] == class_boundary(entries, id)
    &&& forall|id: int|
        0 <= id < entries.len() ==> #[trigger] info.span_name(id) == class_span(entries, id)
}

/// A label as it reads.
enum Parsed {
    Background,
    Tagged(Boundary, String),
    UnknownTag,
    Malformed,
}

impl View for Parsed {
    type V = Reading;

    closed spec fn view(&self) -> Reading {
        match *self {
            Parsed::Background => Reading::Background,
            Parsed::Tagged(boundary, rest) => Reading::Tagged(boundary, rest@),
            Parsed::UnknownTag => Reading::UnknownTag,
            Parsed::Malformed => Reading::Malformed,
        }
    }
}

/// Reads a label.
fn read_label(label: &str) -> (r: Parsed)
    ensures
        r@ == reading(label@),
{
    let chars = text::chars_of(label);
    if chars.len() == 1 && chars[0] == 'O' {
        assert(label@ =~= seq!['O']);
        return Parsed::Background;
    }
    assert(label@ != seq!['O']) by {
        if label@ == seq!['O'] {
            assert(label@[0] == 'O');
        }
    }
    let mut dash: usize = 0;
    while dash < chars.len() && chars[dash] != '-'
        invariant
            dash <= chars@.len(),
            forall|k: int| 0 <= k < dash ==> #[trigger] chars@[k] != '-',
        ensures
            dash < chars@.len() ==> chars@[dash as int] == '-',
        decreases chars.len() - dash,
    {
        dash = dash + 1;
    }
    proof {
        label@.index_of_first_ensures('-');
        if dash < chars@.len() {
            assert(label@[dash as int] == '-');
            assert(label@.contains('-'));
            let first = label@.index_of_first('-')->0;
            if first < dash {
                assert(chars@[first] != '-');
            } else if first > dash {
                assert(label@[dash as int] != '-');
            }
        }
    }
    if dash == chars.len() {
        return Parsed::Malformed;
    }
    let ghost tag = label@.take(dash as int);
    if dash != 1 {
        assert(tag_boundary(tag) is None) by {
            assert(seq!['B'].len() == 1 && seq!['I'].len() == 1 && seq!['E'].len() == 1
                && seq!['S'].len() == 1);
        }
        return Parsed::UnknownTag;
    }
    let c: char = chars[0];
    assert(tag =~= seq![c]);
    assert(seq![c][0] == c);
    assert(seq!['B'][0] == 'B' && seq!['I'][0] == 'I' && seq!['E'][0] == 'E' && seq!['S'][0] == 'S');
    let rest = text::text_of_chars(&chars, 2, chars.len());
    assert(rest@ =~= label@.skip(2));
    if c == 'B' {
        Parsed::Tagged(Boundary::B, rest)
    } else if c == 'I' {
        Parsed::Tagged(Boundary::I, rest)
    } else if c == 'E' {
        Parsed::Tagged(Boundary::E, rest)
    } else if c == 'S' {
        Parsed::Tagged(Boundary::S, rest)
    } else {
        Parsed::UnknownTag
    }
}

/// Finds the entry at which building stops.
fn find_unreadable(entries: &Vec<(usize, String)>) -> (r: Option<usize>)
    ensures
        match r {
            Some(k) => k < entries@.len() && first_unreadable(entries_of(entries@)) == Some(k as int),
            None => first_unreadable(entries_of(entries@)) is None,
        },
{
    let ghost all = entries_of(entries@);
    let mut found: Option<usize> = None;
    let mut i: usize = 0;
    while i < entries.len()
        invariant
            i <= entries@.len(),
            all == entries_of(entries@),
            match found {
                Some(k) => k < i && first_unreadable(all.take(i as int)) == Some(k as int),
                None => first_unreadable(all.take(i as int)) is None,
            },
        decreases entries.len() - i,
    {
        proof {
            assert(all.take(i + 1).drop_last() =~= all.take(i as int));
            assert(all.take(i + 1).last() == entry_of(entries@[i as int]));
            if let Some(k) = found {
                assert(all.take(i + 1)[k as int] == entry_of(entries@[k as int]));
            }
        }
        let bad = matches!(
            read_label(entries[i].1.as_str()),
            Parsed::UnknownTag | Parsed::Malformed
        );
        if bad {
            match found {
                Some(k) => {
                    if entries[i].0 < entries[k].0 {
                        found = Some(i);
                    }
                },
                None => {
                    found = Some(i);
                },
            }
        }
        i = i + 1;
    }
    assert(all.take(all.len() as int) =~= all);
    found
}

/// A boundary other than background comes with a span label.
proof fn lemma_boundary_has_span(entries: Seq<(int, Seq<char>)>, id: int)
    ensures
        class_boundary(entries, id) != Boundary::Background ==> class_span(entries, id) is Some,
    decreases entries.len(),
{
    if entries.len() > 0 && entries.last().0 != id {
        lemma_boundary_has_span(entries.drop_last(), id);
        assert(last_label(entries, id) == last_label(entries.drop_last(), id));
        assert(class_span(entries, id) == class_span(entries.drop_last(), id));
    }
}

/// The background class is one of the classes of the entries, or 0.
proof fn lemma_background_in_range(entries: Seq<(int, Seq<char>)>, n: int)
    requires
        forall|k: int| 0 <= k < entries.len() ==> 0 <= (#[trigger] entries[k]).0 < n,
    ensures
        0 <= background_class(entries),
        entries.len() > 0 ==> background_class(entries) < n,
    decreases entries.len(),
{
    if entries.len() > 0 {
        assert(0 <= entries[entries.len() - 1].0 < n);
        assert forall|k: int| 0 <= k < entries.drop_last().len() implies 0 <= (
        #[trigger] entries.drop_last()[k]).0 < n by {
            assert(entries.drop_last()[k] == entries[k]);
        }
        lemma_background_in_range(entries.drop_last(), n);
    }
}

/// Every class id is below the number of entries.
pub open spec fn ids_below_len(entries: Seq<(int, Seq<char>)>) -> bool {
    forall|k: int| 0 <= k < entries.len() ==> 0 <= (#[trigger] entries[k]).0 < entries.len()
}

/// Building comes to an end: every class id is below the number of entries, or
/// that of the entry at which building stops is.
pub open spec fn ids_fit(entries: Seq<(int, Seq<char>)>) -> bool {
    match first_unreadable(entries) {
        Some(k) => entries[k].0 < entries.len(),
        None => ids_below_len(entries),
    }
}

/// Whether a label set can be built from entries, or be refused with an error.
pub fn accepts(entries: &Vec<(usize, String)>) -> (r: bool)
    ensures
        r == ids_fit(entries_of(entries@)),
{
    let ghost all = entries_of(entries@);
    let n: usize = entries.len();
    if let Some(k) = find_unreadable(entries) {
        assert(all[k as int] == entry_of(entries@[k as int]));
        return entries[k].0 < n;
    }
    let mut i: usize = 0;
    while i < n
        invariant
            i <= n,
            n == entries@.len(),
            all == entries_of(entries@),
            first_unreadable(all) is None,
            forall|k: int| 0 <= k < i ==> 0 <= (#[trigger] all[k]).0 < n,
        decreases n - i,
    {
        assert(all[i as int] == entry_of(entries@[i as int]));
        if entries[i].0 >= n {
            return false;
        }
        i = i + 1;
    }
    true
}

impl LabelInfo {
    /// Builds a label set from the label of each class id.
    pub fn from_entries(entries: Vec<(usize, String)>) -> (r: Result<LabelInfo, LabelError>)
        requires
            ids_fit(entries_of(entries@)),
        ensures
            match r {
                Ok(info) => {
                    &&& first_unreadable(entries_of(entries@)) is None
                    &&& describes(entries_of(entries@), info)
                    &&& info.names_spans()
                },
                Err(error) => {
                    &&& first_unreadable(entries_of(entries@)) matches Some(k)
                    &&& error@ == fault_of(entries_of(entries@)[k].1)
                },
            },
    {
        let ghost all = entries_of(entries@);
        if let Some(k) = find_unreadable(&entries) {
            assert(all[k as int] == entry_of(entries@[k as int]));
            let label = entries[k].1.clone();
            proof {
                lemma_first_unreadable(all);
            }
            return match read_label(label.as_str()) {
                Parsed::UnknownTag => Err(LabelError::UnknownTag(label)),
                _ => Err(LabelError::Malformed(label)),
            };
        }
        let n: usize = entries.len();
        let mut id2label: Vec<String> = Vec::with_capacity(n);
        let mut boundary: Vec<Boundary> = Vec::with_capacity(n);
        let mut span_label: Vec<Option<String>> = Vec::with_capacity(n);
        let mut background_idx: usize = 0;
        let mut i: usize = 0;
        while i < n
            invariant
                i <= n,
                id2label@.len() == i,
                boundary@.len() == i,
                span_label@.len() == i,
                forall|id: int| 0 <= id < i ==> (#[trigger] id2label@[id])@ == Seq::<char>::empty(),
                forall|id: int| 0 <= id < i ==> #[trigger] boundary@[id] == Boundary::Background,
                forall|id: int| 0 <= id < i ==> text_of(#[trigger] span_label@[id]) is None,
            decreases n - i,
        {
            id2label.push(String::new());
            boundary.push(Boundary::Background);
            span_label.push(None);
            i = i + 1;
        }
        let mut at: usize = 0;
        while at < n
            invariant
                at <= n,
                n == entries@.len(),
                all == entries_of(entries@),
                ids_below_len(all),
                id2label@.len() == n,
                boundary@.len() == n,
                span_label@.len() == n,
                background_idx == background_class(all.take(at as int)),
                forall|id: int|
                    0 <= id < n ==> (#[trigger] id2label@[id])@ == class_label(
                        all.take(at as int),
                        id,
                    ),
                forall|id: int|
                    0 <= id < n ==> #[trigger] boundary@[id] == class_boundary(
                        all.take(at as int),
                        id,
                    ),
                forall|id: int|
                    0 <= id < n ==> text_of(#[trigger] span_label@[id]) == class_span(
                        all.take(at as int),
                        id,
                    ),
            decreases n - at,
        {
            let id: usize = entries[at].0;
            let label = entries[at].1.clone();
            proof {
                assert(all[at as int] == entry_of(entries@[at as int]));
                assert(all.take(at + 1).drop_last() =~= all.take(at as int));
                assert(all.take(at + 1).last() == entry_of(entries@[at as int]));
            }
            match read_label(label.as_str()) {
                Parsed::Background => {
                    boundary.set(id, Boundary::Background);
                    if id > background_idx {
                        background_idx = id;
                    }
                },
                Parsed::Tagged(b, rest) => {
                    boundary.set(id, b);
                    span_label.set(id, Some(rest));
                },
                _ => {
                    boundary.set(id, Boundary::Background);
                },
            }
            id2label.set(id, label);
            at = at + 1;
        }
        assert(all.take(n as int) =~= all);
        let info = LabelInfo { id2label, boundary, span_label, background_idx };
        proof {
            assert(describes(all, info));
            law_described_labels_are_sound(all, info);
        }
        Ok(info)
    }
}

/// The entry at which building stops cannot be read, and when there is none every
/// entry can.
pub(crate) proof fn lemma_first_unreadable(entries: Seq<(int, Seq<char>)>)
    ensures
        match first_unreadable(entries) {
            Some(k) => {
                &&& 0 <= k < entries.len()
                &&& unreadable(entries[k].1)
                &&& forall|j: int|
                    0 <= j < entries.len() && unreadable((#[trigger] entries[j]).1) ==> entries[k].0
                        < entries[j].0 || (entries[k].0 == entries[j].0 && k <= j)
            },
            None => forall|j: int|
                0 <= j < entries.len() ==> !unreadable((#[trigger] entries[j]).1),
        },
    decreases entries.len(),
{
    if entries.len() > 0 {
        let init = entries.drop_last();
        lemma_first_unreadable(init);
        assert forall|j: int| 0 <= j < init.len() implies init[j] == #[trigger] entries[j] by {}
        if let Some(k) = first_unreadable(init) {
            assert(init[k] == entries[k]);
        }
    }
}

/// The first entry whose class id is not a number.
pub open spec fn first_bad_id(entries: Seq<(String, String)>) -> Option<int>
    decreases entries.len(),
{
    if entries.len() == 0 {
        None
    } else {
        match first_bad_id(entries.drop_last()) {
            Some(k) => Some(k),
            None => if text::parsed_usize(entries.last().0@) is None {
                Some(entries.len() - 1)
            } else {
                None
            },
        }
    }
}

/// The entries with their class ids as numbers.
pub open spec fn numbered(entries: Seq<(String, String)>) -> Seq<(int, Seq<char>)> {
    entries.map_values(
        |entry: (String, String)|
            (
                match text::parsed_usize(entry.0@) {
                    Some(id) => id as int,
                    None => 0,
                },
                entry.1@,
            ),
    )
}

/// Reads the class ids of a configuration's labels.
pub fn number_entries(entries: Vec<(String, String)>) -> (r: Result<Vec<(usize, String)>, LabelError>)
    ensures
        match r {
            Ok(out) => {
                &&& first_bad_id(entries@) is None
                &&& entries_of(out@) == numbered(entries@)
            },
            Err(error) => {
                &&& first_bad_id(entries@) matches Some(k)
                &&& error@ == LabelFault::BadId(entries@[k].0@)
            },
        },
{
    let mut out: Vec<(usize, String)> = Vec::with_capacity(entries.len());
    let mut i: usize = 0;
    while i < entries.len()
        invariant
            i <= entries@.len(),
            out@.len() == i,
            first_bad_id(entries@.take(i as int)) is None,
            forall|k: int| 0 <= k < i ==> entry_of(#[trigger] out@[k]) == numbered(entries@)[k],
        decreases entries.len() - i,
    {
        proof {
            assert(entries@.take(i + 1).drop_last() =~= entries@.take(i as int));
        }
        match text::parse_usize(entries[i].0.as_str()) {
            Some(id) => {
                out.push((id, entries[i].1.clone()));
            },
            None => {
                proof {
                    lemma_bad_id_stays(entries@, i as int);
                }
                return Err(LabelError::BadId(entries[i].0.clone()));
            },
        }
        i = i + 1;
    }
    assert(entries@.take(entries@.len() as int) =~= entries@);
    assert(entries_of(out@) =~= numbered(entries@));
    Ok(out)
}

/// The first bad class id is the same however many entries follow.
proof fn lemma_bad_id_stays(entries: Seq<(String, String)>, k: int)
    requires
        0 <= k < entries.len(),
        first_bad_id(entries.take(k + 1)) == Some(k),
    ensures
        first_bad_id(entries) == Some(k),
    decreases entries.len(),
{
    if k + 1 < entries.len() {
        assert(entries.drop_last().take(k + 1) =~= entries.take(k + 1));
        lemma_bad_id_stays(entries.drop_last(), k);
    } else {
        assert(entries.take(k + 1) =~= entries);
    }
}

impl LabelInfo {
    /// Builds a label set from the `id2label` entries of a configuration: class id
    /// and label, both as text.
    pub fn from_config(id2label: Vec<(String, String)>) -> (r: Result<LabelInfo, LabelError>)
        requires
            first_bad_id(id2label@) is None ==> ids_fit(numbered(id2label@)),
        ensures
            match r {
                Ok(info) => {
                    &&& first_bad_id(id2label@) is None
                    &&& first_unreadable(numbered(id2label@)) is None
                    &&& describes(numbered(id2label@), info)
                    &&& info.names_spans()
                },
                Err(error) => match first_bad_id(id2label@) {
                    Some(k) => error@ == LabelFault::BadId(id2label@[k].0@),
                    None => {
                        &&& first_unreadable(numbered(id2label@)) matches Some(k)
                        &&& error@ == fault_of(numbered(id2label@)[k].1)
                    },
                },
            },
    {
        match number_entries(id2label) {
            Ok(entries) => LabelInfo::from_entries(entries),
            Err(error) => Err(error),
        }
    }
}

/// A label set that entries describe is sound: a class with a boundary has a span
/// label, and the background class is a class.
pub proof fn law_described_labels_are_sound(entries: Seq<(int, Seq<char>)>, info: LabelInfo)
    requires
        describes(entries, info),
        ids_below_len(entries),
    ensures
        info.wf(),
        info.names_spans(),
        info.classes() > 0 ==> info.background_idx < info.classes(),
{
    assert forall|id: int|
        0 <= id < info.classes() && #[trigger] info.boundary@[id] != Boundary::Background implies info.span_name(
        id,
    ) is Some by {
        lemma_boundary_has_span(entries, id);
    }
    lemma_background_in_range(entries, entries.len() as int);
}

/// Where no class id comes twice, every class has the label that stands with it,
/// and the boundary and span label that it names.
pub proof fn law_distinct_ids_keep_their_labels(
    entries: Seq<(int, Seq<char>)>,
    info: LabelInfo,
    k: int,
)
    requires
        describes(entries, info),
        ids_below_len(entries),
        first_unreadable(entries) is None,
        forall|i: int, j: int|
            0 <= i < j < entries.len() ==> (#[trigger] entries[i]).0 != (#[trigger] entries[j]).0,
        0 <= k < entries.len(),
    ensures
        ({
            let id = entries[k].0;
            &&& info.id2label@[id]@ == entries[k].1
            &&& match reading(entries[k].1) {
                Reading::Tagged(boundary, rest) => info.boundary@[id] == boundary
                    && info.span_name(id) == Some(rest),
                _ => info.boundary@[id] == Boundary::Background && info.span_name(id) is None,
            }
        }),
{
    lemma_sole_entry(entries, k);
    assert(0 <= entries[k].0 < entries.len());
    assert(info.id2label@[entries[k].0]@ == class_label(entries, entries[k].0));
    assert(info.boundary@[entries[k].0] == class_boundary(entries, entries[k].0));
}

proof fn lemma_sole_entry(entries: Seq<(int, Seq<char>)>, k: int)
    requires
        forall|i: int, j: int|
            0 <= i < j < entries.len() ==> (#[trigger] entries[i]).0 != (#[trigger] entries[j]).0,
        0 <= k < entries.len(),
    ensures
        last_label(entries, entries[k].0) == Some(entries[k].1),
        class_span(entries, entries[k].0) == (match reading(entries[k].1) {
            Reading::Tagged(_, rest) => Some(rest),
            _ => None,
        }),
    decreases entries.len(),
{
    let init = entries.drop_last();
    let id = entries[k].0;
    assert forall|i: int, j: int| 0 <= i < j < init.len() implies (#[trigger] init[i]).0 != (
    #[trigger] init[j]).0 by {
        assert(entries[i].0 != entries[j].0);
    }
    if k < init.len() {
        assert(init[k] == entries[k]);
        lemma_sole_entry(init, k);
        assert(entries[k].0 != entries[entries.len() - 1].0);
    } else {
        assert forall|i: int| 0 <= i < init.len() implies (#[trigger] init[i]).0 != id by {
            assert(entries[i].0 != entries[k].0);
        }
        lemma_absent_span(init, id);
    }
}

proof fn lemma_absent_span(entries: Seq<(int, Seq<char>)>, id: int)
    requires
        forall|i: int| 0 <= i < entries.len() ==> (#[trigger] entries[i]).0 != id,
    ensures
        class_span(entries, id) is None,
    decreases entries.len(),
{
    if entries.len() > 0 {
        let init = entries.drop_last();
        assert forall|i: int| 0 <= i < init.len() implies (#[trigger] init[i]).0 != id by {
            assert(init[i] == entries[i]);
        }
        assert(entries[entries.len() - 1].0 != id);
        lemma_absent_span(init, id);
    }
}

} // verus!
