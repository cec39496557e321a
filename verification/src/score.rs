//! How well a name answers a query.
//!
//! A score is a number from zero to one. It keeps the counts it was made of; its
//! value is what the formula gives in double precision.
use vstd::prelude::*;
use vstd::string::StrSliceExecFns;
use crate::distance::{edit_distance, lemma_distance_bound, levenshtein_distance, max_of};
use crate::double::{
    above_nine_tenths, lemma_above_nine_tenths, lemma_constants, lemma_quotient_is_double,
    lemma_ratio_range, lemma_rounded_grows, lemma_tenth_range, product, ratio, ratio_of,
    rest_of_one, rounded, tenth_of, NINE_TENTHS, ONE, TENTH,
};
use crate::text::{chars_of, has_char, has_part, matches_at, occurs_at, occurs_in, same_text};

verus! {

/// The score of a name for a query.
#[derive(Debug, Clone, Copy, PartialEq, Eq, Structural)]
pub enum Score {
    /// The name is the query, or there is no query: one.
    Whole,
    /// The name lacks a character of the query: zero.
    Nothing,
    /// The name begins with the query: nine tenths, and a tenth of `matched / length`.
    Opening { matched: usize, length: usize },
    /// The query stands inside the name: `matched / length`.
    Within { matched: usize, length: usize },
    /// The name is some edits away from the query: `1 - distance / length`.
    Near { distance: usize, length: usize },
}

impl Score {
    /// The counts make a fraction between zero and one.
    pub open spec fn wf(self) -> bool {
        match self {
            Score::Whole => true,
            Score::Nothing => true,
            Score::Opening { matched, length } => 0 < length && matched <= length,
            Score::Within { matched, length } => 0 < length && matched <= length,
            Score::Near { distance, length } => 0 < length && distance <= length,
        }
    }

    /// The score in double precision, step by step as its formula says.
    pub open spec fn value(self) -> nat {
        match self {
            Score::Whole => ONE as nat,
            Score::Nothing => 0,
            Score::Opening { matched, length } => rounded(
                (NINE_TENTHS + product(ratio(matched as nat, length as nat), TENTH as nat)) as nat,
                true,
            ),
            Score::Within { matched, length } => ratio(matched as nat, length as nat),
            Score::Near { distance, length } => rounded(
                (ONE - ratio(distance as nat, length as nat)) as nat,
                true,
            ),
        }
    }

    /// The score is as high as `other`, or higher.
    pub open spec fn at_least(self, other: Score) -> bool {
        self.value() >= other.value()
    }

    /// The two scores are equal.
    pub open spec fn ties(self, other: Score) -> bool {
        self.value() == other.value()
    }

    /// The score in double precision, as `ONE` holds one.
    pub fn to_value(self) -> (value: u128)
        requires
            self.wf(),
        ensures
            value == self.value(),
            value <= ONE,
    {
        match self {
            Score::Whole => ONE,
            Score::Nothing => 0,
            Score::Opening { matched, length } => above_nine_tenths(
                tenth_of(ratio_of(matched, length)),
            ),
            Score::Within { matched, length } => ratio_of(matched, length),
            Score::Near { distance, length } => rest_of_one(ratio_of(distance, length)),
        }
    }

    /// Whether this score is as high as `other`, or higher.
    pub fn reaches(self, other: Score) -> (yes: bool)
        requires
            self.wf(),
            other.wf(),
        ensures
            yes == self.at_least(other),
    {
        self.to_value() >= other.to_value()
    }
}

/// `item` holds every character of `query`.
pub open spec fn holds_all(item: Seq<char>, query: Seq<char>) -> bool {
    forall|i: int| 0 <= i < query.len() ==> item.contains(#[trigger] query[i])
}

/// The score of the name `item` for `query`.
pub open spec fn score_of(item: Seq<char>, query: Seq<char>) -> Score {
    if query.len() == 0 || item == query {
        Score::Whole
    } else if !holds_all(item, query) {
        Score::Nothing
    } else if occurs_at(query, item, 0) {
        Score::Opening { matched: query.len() as usize, length: item.len() as usize }
    } else if occurs_in(query, item) {
        Score::Within { matched: query.len() as usize, length: item.len() as usize }
    } else {
        Score::Near {
            distance: edit_distance(item, query) as usize,
            length: max_of(item.len(), query.len()) as usize,
        }
    }
}

/// Scores are well formed for all texts that fit in memory.
pub proof fn lemma_score_wf(item: Seq<char>, query: Seq<char>)
    requires
        item.len() <= usize::MAX,
        query.len() <= usize::MAX,
    ensures
        score_of(item, query).wf(),
{
    lemma_distance_bound(item, query);
}

/// The score of the name `item` for `query`.
pub fn calculate_score(item: &str, query: &str) -> (score: Score)
    ensures
        score == score_of(item@, query@),
        score.wf(),
{
    if query.is_empty() || same_text(item, query) {
        return Score::Whole;
    }
    let name = chars_of(item);
    let wanted = chars_of(query);
    let mut i: usize = 0;
    while i < wanted.len()
        invariant
            i <= wanted@.len(),
            name@ == item@,
            wanted@ == query@,
            query@.len() != 0,
            item@ != query@,
            forall|j: int| 0 <= j < i ==> name@.contains(#[trigger] wanted@[j]),
        decreases wanted@.len() - i,
    {
        if !has_char(&name, wanted[i]) {
            assert(!holds_all(item@, query@)) by {
                assert(!item@.contains(query@[i as int]));
            }
            return Score::Nothing;
        }
        i = i + 1;
    }
    assert(holds_all(item@, query@));
    if matches_at(&wanted, &name, 0) {
        return Score::Opening { matched: wanted.len(), length: name.len() };
    }
    if has_part(&wanted, &name) {
        return Score::Within { matched: wanted.len(), length: name.len() };
    }
    let distance: usize = levenshtein_distance(item, query);
    let length: usize = if name.len() >= wanted.len() { name.len() } else { wanted.len() };
    proof {
        lemma_distance_bound(item@, query@);
    }
    Score::Near { distance, length }
}

/// A score is at least zero and at most one.
pub proof fn lemma_score_range(score: Score)
    requires
        score.wf(),
    ensures
        score.value() <= ONE,
        Score::Whole.at_least(score),
        score.at_least(Score::Nothing),
{
    lemma_constants();
    match score {
        Score::Opening { matched, length } => {
            lemma_ratio_range(matched as nat, length as nat);
            let tenth = product(ratio(matched as nat, length as nat), TENTH as nat);
            lemma_tenth_range(ratio(matched as nat, length as nat));
            lemma_rounded_grows(
                (NINE_TENTHS + tenth) as nat,
                true,
                (NINE_TENTHS + TENTH) as nat,
                true,
            );
        },
        Score::Within { matched, length } => {
            lemma_ratio_range(matched as nat, length as nat);
        },
        Score::Near { distance, length } => {
            lemma_ratio_range(distance as nat, length as nat);
            let far = ratio(distance as nat, length as nat);
            lemma_rounded_grows((ONE - far) as nat, true, ONE as nat, true);
        },
        _ => {},
    }
}

/// Of two scores one is at least the other, and they tie when both are.
pub proof fn lemma_scores_total(a: Score, b: Score)
    ensures
        a.at_least(b) || b.at_least(a),
        a.ties(b) <==> a.at_least(b) && b.at_least(a),
{
}

/// The order of scores goes through.
pub proof fn lemma_scores_transitive(a: Score, b: Score, c: Score)
    requires
        a.at_least(b),
        b.at_least(c),
    ensures
        a.at_least(c),
{
}

/// The query itself is the whole, and so is every name where there is no query;
/// nothing else is, and nothing scores higher.
pub proof fn lemma_whole_score(item: Seq<char>, query: Seq<char>)
    requires
        item.len() <= usize::MAX,
        query.len() <= usize::MAX,
    ensures
        score_of(item, query) == Score::Whole <==> query.len() == 0 || item == query,
        Score::Whole.at_least(score_of(item, query)),
{
    lemma_score_wf(item, query);
    lemma_score_range(score_of(item, query));
}

/// A name that begins with the query scores nine tenths or more, and no less than a
/// name of the same length that holds the query further on. It scores more, unless
/// the query is so long a part of the name that their ratio is one in double
/// precision.
pub proof fn lemma_opening_first(item: Seq<char>, other: Seq<char>, query: Seq<char>)
    requires
        item.len() <= usize::MAX,
        query.len() != 0,
        query != item,
        occurs_at(query, item, 0),
        other.len() == item.len(),
        occurs_in(query, other),
        !occurs_at(query, other, 0),
    ensures
        score_of(item, query).value() >= NINE_TENTHS,
        score_of(item, query).at_least(score_of(other, query)),
        ratio(query.len(), item.len()) < ONE ==> !score_of(other, query).at_least(
            score_of(item, query),
        ),
{
    lemma_part_holds_all(query, item);
    lemma_part_holds_all(query, other);
    assert(other != query) by {
        assert(other.subrange(0, other.len() as int) =~= other);
    }
    let q = query.len();
    let n = item.len();
    assert(score_of(item, query) == Score::Opening { matched: q as usize, length: n as usize });
    assert(score_of(other, query) == Score::Within { matched: q as usize, length: n as usize });
    lemma_ratio_range(q, n);
    lemma_quotient_is_double(rounded(q, true), rounded(n, true));
    lemma_above_nine_tenths(ratio(q, n));
}

/// A text holds every character of its parts.
proof fn lemma_part_holds_all(part: Seq<char>, whole: Seq<char>)
    requires
        occurs_in(part, whole),
    ensures
        holds_all(whole, part),
{
    let at = choose|at: int| #[trigger] occurs_at(part, whole, at);
    assert forall|i: int| 0 <= i < part.len() implies whole.contains(#[trigger] part[i]) by {
        assert(whole.subrange(at, at + part.len())[i] == whole[at + i]);
    }
}

} // verus!
