//! What is shown of each token when its labels are looked into.

use vstd::prelude::*;

use crate::labels::LabelInfo;
use crate::routing;
use crate::routing::Placed;
use crate::text;

verus! {

/// What is shown of a token.
#[derive(Debug)]
pub struct TokenRow {
    pub id: u32,
    pub byte_start: usize,
    pub byte_end: usize,
    /// The text at its bytes, or nothing where they do not fall between characters.
    pub text: String,
    /// The class it was given, and its name.
    pub label: usize,
    pub label_name: String,
    /// The class that comes first by score, its name and its score.
    pub best: usize,
    pub best_name: String,
    pub best_score: u32,
    /// The names and the scores of the classes that come first by score.
    pub listed: Vec<(String, u32)>,
}

/// The name of a class and its score.
pub open spec fn is_listed(entry: (String, u32), info: LabelInfo, p: Placed) -> bool {
    entry.0@ == info.id2label@[p.place]@ && entry.1 == p.score
}

/// The scores of a token.
pub open spec fn scores_of(scores: Seq<u32>, classes: int, t: int) -> Seq<u32> {
    scores.subrange(t * classes, t * classes + classes)
}

/// What is shown of a token is this.
pub open spec fn is_row_of(
    row: TokenRow,
    info: LabelInfo,
    text: Seq<char>,
    id: u32,
    bytes: (usize, usize),
    label: usize,
    own: Seq<u32>,
    listed: int,
) -> bool {
    let ranked = routing::by_score(own);
    let best = ranked[0];
    let count = if listed < ranked.len() {
        listed
    } else {
        ranked.len() as int
    };
    &&& row.id == id
    &&& row.byte_start == bytes.0
    &&& row.byte_end == bytes.1
    &&& row.text@ == (match text::piece(text, bytes.0 as int, bytes.1 as int) {
        Some(piece) => piece,
        None => Seq::empty(),
    })
    &&& row.label == label
    &&& row.label_name@ == info.id2label@[label as int]@
    &&& row.best == best.place
    &&& row.best_name@ == info.id2label@[best.place]@
    &&& row.best_score == best.score
    &&& row.listed@.len() == count
    &&& forall|i: int|
        0 <= i < row.listed@.len() ==> is_listed(#[trigger] row.listed@[i], info, ranked[i])
}

/// Copies a stretch of scores.
fn copy_scores(scores: &[u32], start: usize, end: usize) -> (r: Vec<u32>)
    requires
        start <= end <= scores@.len(),
    ensures
        r@ == scores@.subrange(start as int, end as int),
{
    let mut r: Vec<u32> = Vec::with_capacity(end - start);
    let mut i: usize = start;
    while i < end
        invariant
            start <= i <= end <= scores@.len(),
            r@ == scores@.subrange(start as int, i as int),
        decreases end - i,
    {
        r.push(scores[i]);
        i = i + 1;
        assert(r@ =~= scores@.subrange(start as int, i as int));
    }
    r
}

/// Shows a token.
pub fn token_row(
    info: &LabelInfo,
    text: &str,
    id: u32,
    bytes: (usize, usize),
    label: usize,
    own: &[u32],
    listed: usize,
) -> (row: TokenRow)
    requires
        info.wf(),
        info.classes() > 0,
        own@.len() == info.classes(),
        label < info.classes(),
    ensures
        is_row_of(row, *info, text@, id, bytes, label, own@, listed as int),
{
    let ranked = routing::rank_classes(own);
    let n: usize = ranked.len();
    proof {
        routing::law_by_score(own@);
        assert(routing::all_placed(ranked@).len() == n);
        assert forall|i: int| 0 <= i < n implies routing::placed_of(#[trigger] ranked@[i])
            == routing::by_score(own@)[i] by {
            assert(routing::all_placed(ranked@)[i] == routing::placed_of(ranked@[i]));
        }
    }
    let shown: usize = if listed < n {
        listed
    } else {
        n
    };
    let mut names: Vec<(String, u32)> = Vec::with_capacity(shown);
    let mut i: usize = 0;
    while i < shown
        invariant
            i <= shown <= n,
            n == ranked@.len(),
            n == own@.len(),
            info.wf(),
            own@.len() == info.classes(),
            routing::by_score(own@).len() == n,
            forall|k: int|
                0 <= k < n ==> routing::placed_of(#[trigger] ranked@[k]) == routing::by_score(own@)[k],
            forall|k: int| 0 <= k < n ==> (#[trigger] ranked@[k]).0 < n,
            names@.len() == i,
            forall|k: int|
                0 <= k < i ==> is_listed(#[trigger] names@[k], *info, routing::by_score(own@)[k]),
        decreases shown - i,
    {
        let (place, value) = ranked[i];
        names.push((info.id2label[place].clone(), value));
        i = i + 1;
    }
    let piece = match text::slice(text, bytes.0, bytes.1) {
        Some(piece) => piece.to_owned(),
        None => String::new(),
    };
    let (best, best_score) = ranked[0];
    TokenRow {
        id,
        byte_start: bytes.0,
        byte_end: bytes.1,
        text: piece,
        label,
        label_name: info.id2label[label].clone(),
        best,
        best_name: info.id2label[best].clone(),
        best_score,
        listed: names,
    }
}

/// What is shown of the tokens of a text.
pub open spec fn shows(
    rows: Seq<TokenRow>,
    info: LabelInfo,
    text: Seq<char>,
    ids: Seq<u32>,
    offsets: Seq<(usize, usize)>,
    labels: Seq<usize>,
    scores: Seq<u32>,
    listed: int,
) -> bool {
    &&& rows.len() == ids.len()
    &&& forall|t: int|
        0 <= t < rows.len() ==> is_row_of(
            #[trigger] rows[t],
            info,
            text,
            ids[t],
            offsets[t],
            labels[t],
            scores_of(scores, info.classes() as int, t),
            listed,
        )
}

/// Shows the tokens of a text.
pub fn token_rows(
    info: &LabelInfo,
    text: &str,
    ids: &[u32],
    offsets: &[(usize, usize)],
    labels: &[usize],
    scores: &[u32],
    listed: usize,
) -> (rows: Vec<TokenRow>)
    requires
        info.wf(),
        info.classes() > 0,
        offsets@.len() >= ids@.len(),
        labels@.len() == ids@.len(),
        scores@.len() >= ids@.len() * info.classes(),
        forall|t: int| 0 <= t < labels@.len() ==> #[trigger] labels@[t] < info.classes(),
    ensures
        shows(rows@, *info, text@, ids@, offsets@, labels@, scores@, listed as int),
{
    let classes: usize = info.num_classes();
    let len: usize = ids.len();
    let total: usize = scores.len();
    let mut rows: Vec<TokenRow> = Vec::with_capacity(len);
    let mut t: usize = 0;
    while t < len
        invariant
            info.wf(),
            classes == info.classes(),
            classes > 0,
            t <= len,
            len == ids@.len(),
            total == scores@.len(),
            offsets@.len() >= len,
            labels@.len() == len,
            total >= len * classes,
            forall|k: int| 0 <= k < labels@.len() ==> #[trigger] labels@[k] < classes,
            rows@.len() == t,
            forall|k: int|
                0 <= k < t ==> is_row_of(
                    #[trigger] rows@[k],
                    *info,
                    text@,
                    ids@[k],
                    offsets@[k],
                    labels@[k],
                    scores_of(scores@, classes as int, k),
                    listed as int,
                ),
        decreases len - t,
    {
        proof {
            assert((t + 1) * classes == t * classes + classes) by (nonlinear_arith);
            assert((t + 1) * classes <= len * classes) by (nonlinear_arith)
                requires
                    t + 1 <= len,
                    0 <= classes,
            ;
            assert(0 <= t * classes) by (nonlinear_arith)
                requires
                    0 <= t,
                    0 <= classes,
            ;
        }
        let own = copy_scores(scores, t * classes, t * classes + classes);
        rows.push(token_row(info, text, ids[t], offsets[t], labels[t], own.as_slice(), listed));
        t = t + 1;
    }
    rows
}

} // verus!
