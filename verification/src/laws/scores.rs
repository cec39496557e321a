//! What a score says of the two texts it was made of.
use vstd::prelude::*;
use crate::distance::{
    deletes, edit_distance, edits_to, inserts, lemma_shortest_edit, one_edit, replaces,
};
use crate::double::{
    lemma_constants, lemma_ratio_error, lemma_ratio_range, lemma_rounding_error, lemma_tenth_range,
    product, ratio, rounded, DIGITS, NINE_TENTHS, ONE, TENTH,
};
use crate::score::{score_of, Score};
use crate::text::{occurs_at, occurs_in};

verus! {

/// However one text is turned into the other, one character inserted, deleted or
/// replaced at a time, it takes as many steps as the distance says, or more. The
/// chain holds the texts on the way, from `a` to `b`.
pub proof fn lemma_no_chain_is_shorter(a: Seq<char>, b: Seq<char>, chain: Seq<Seq<char>>)
    requires
        chain.len() > 0,
        chain[0] == a,
        chain.last() == b,
        forall|k: int, next: int|
            #![trigger chain[k], chain[next]]
            0 <= k && next == k + 1 && next < chain.len() ==> {
                ||| exists|i: int, c: char|
                    0 <= i <= chain[k].len() && chain[next] == #[trigger] chain[k].insert(i, c)
                ||| exists|i: int|
                    0 <= i < chain[k].len() && chain[next] == #[trigger] chain[k].remove(i)
                ||| exists|i: int, c: char|
                    0 <= i < chain[k].len() && chain[next] == #[trigger] chain[k].update(i, c)
            },
    ensures
        edit_distance(a, b) <= chain.len() - 1,
{
    assert forall|k: int, next: int|
        #![trigger chain[k], chain[next]]
        0 <= k && next == k + 1 && next < chain.len() implies one_edit(chain[k], chain[next]) by {
        let x = chain[k];
        let y = chain[next];
        if exists|i: int, c: char| 0 <= i <= x.len() && y == #[trigger] x.insert(i, c) {
            let (i, c) = choose|i: int, c: char|
                0 <= i <= x.len() && y == #[trigger] x.insert(i, c);
            assert(inserts(x, y, i, c));
        } else if exists|i: int| 0 <= i < x.len() && y == #[trigger] x.remove(i) {
            let i = choose|i: int| 0 <= i < x.len() && y == #[trigger] x.remove(i);
            assert(deletes(x, y, i));
        } else {
            let (i, c) = choose|i: int, c: char| 0 <= i < x.len() && y == #[trigger] x.update(i, c);
            assert(replaces(x, y, i, c));
        }
    }
    lemma_chain_is_run(a, b, chain);
    lemma_shortest_edit(a, b);
}

/// Every text of the chain is one edit from the next.
spec fn is_chain(chain: Seq<Seq<char>>) -> bool {
    forall|k: int, next: int|
        #![trigger chain[k], chain[next]]
        0 <= k && next == k + 1 && next < chain.len() ==> one_edit(chain[k], chain[next])
}

/// A chain of texts is a run of edits.
proof fn lemma_chain_is_run(a: Seq<char>, b: Seq<char>, chain: Seq<Seq<char>>)
    requires
        chain.len() > 0,
        chain[0] == a,
        chain.last() == b,
        is_chain(chain),
    ensures
        edits_to(a, b, (chain.len() - 1) as nat),
    decreases chain.len(),
{
    if chain.len() > 1 {
        let next = chain[1];
        assert(one_edit(chain[0], chain[1]));
        let rest = chain.drop_first();
        assert forall|k: int, after: int|
            #![trigger rest[k], rest[after]]
            0 <= k && after == k + 1 && after < rest.len() implies one_edit(
            rest[k],
            rest[after],
        ) by {
            assert(rest[k] == chain[k + 1]);
            assert(rest[after] == chain[after + 1]);
        }
        lemma_chain_is_run(next, b, rest);
        assert(one_edit(a, next) && edits_to(next, b, (chain.len() - 2) as nat));
    }
}

/// There is a chain of texts from `a` to `b` that takes as many steps as the distance
/// says, each of which inserts, deletes or replaces one character.
pub proof fn lemma_shortest_chain(a: Seq<char>, b: Seq<char>) -> (chain: Seq<Seq<char>>)
    ensures
        chain.len() == edit_distance(a, b) + 1,
        chain[0] == a,
        chain.last() == b,
        forall|k: int, next: int|
            #![trigger chain[k], chain[next]]
            0 <= k && next == k + 1 && next < chain.len() ==> {
                &&& chain[k].len() - 1 <= chain[next].len() <= chain[k].len() + 1
                &&& {
                    ||| exists|i: int, c: char|
                        0 <= i <= chain[k].len() && chain[next] == #[trigger] chain[k].insert(i, c)
                    ||| exists|i: int|
                        0 <= i < chain[k].len() && chain[next] == #[trigger] chain[k].remove(i)
                    ||| exists|i: int, c: char|
                        0 <= i < chain[k].len() && chain[next] == #[trigger] chain[k].update(i, c)
                }
            },
{
    lemma_shortest_edit(a, b);
    let chain = lemma_run_is_chain(a, b, edit_distance(a, b));
    assert forall|k: int, next: int|
        #![trigger chain[k], chain[next]]
        0 <= k && next == k + 1 && next < chain.len() implies {
        &&& chain[k].len() - 1 <= chain[next].len() <= chain[k].len() + 1
        &&& {
            ||| exists|i: int, c: char|
                0 <= i <= chain[k].len() && chain[next] == #[trigger] chain[k].insert(i, c)
            ||| exists|i: int|
                0 <= i < chain[k].len() && chain[next] == #[trigger] chain[k].remove(i)
            ||| exists|i: int, c: char|
                0 <= i < chain[k].len() && chain[next] == #[trigger] chain[k].update(i, c)
        }
    } by {
        let x = chain[k];
        let y = chain[next];
        assert(one_edit(x, y));
        if exists|i: int, c: char| #[trigger] inserts(x, y, i, c) {
            let (i, c) = choose|i: int, c: char| #[trigger] inserts(x, y, i, c);
            assert(y == chain[k].insert(i, c));
        } else if exists|i: int| #[trigger] deletes(x, y, i) {
            let i = choose|i: int| #[trigger] deletes(x, y, i);
            assert(y == chain[k].remove(i));
        } else {
            let (i, c) = choose|i: int, c: char| #[trigger] replaces(x, y, i, c);
            assert(y == chain[k].update(i, c));
        }
    }
    chain
}

/// A run of edits is a chain of texts.
proof fn lemma_run_is_chain(a: Seq<char>, b: Seq<char>, n: nat) -> (chain: Seq<Seq<char>>)
    requires
        edits_to(a, b, n),
    ensures
        chain.len() == n + 1,
        chain[0] == a,
        chain.last() == b,
        is_chain(chain),
    decreases n,
{
    if n == 0 {
        seq![a]
    } else {
        let step = choose|step: Seq<char>| #[trigger]
            one_edit(a, step) && edits_to(step, b, (n - 1) as nat);
        let rest = lemma_run_is_chain(step, b, (n - 1) as nat);
        let chain = seq![a] + rest;
        assert(chain.last() == rest.last());
        assert forall|k: int, next: int|
            #![trigger chain[k], chain[next]]
            0 <= k && next == k + 1 && next < chain.len() implies one_edit(
            chain[k],
            chain[next],
        ) by {
            if k == 0 {
                assert(chain[next] == step);
            } else {
                assert(chain[k] == rest[k - 1]);
                assert(chain[next] == rest[next - 1]);
            }
        }
        chain
    }
}

/// The query itself is the whole, and so is any name where there is no query.
pub proof fn lemma_score_of_whole(item: Seq<char>, query: Seq<char>)
    requires
        query.len() == 0 || item == query,
    ensures
        score_of(item, query) == Score::Whole,
{
}

/// A score is nothing exactly where a character of the query is missing from the
/// name, however long the two are.
pub proof fn lemma_score_of_nothing(item: Seq<char>, query: Seq<char>)
    ensures
        score_of(item, query) == Score::Nothing <==> exists|i: int|
            0 <= i < query.len() && !item.contains(#[trigger] query[i]),
{
    if query.len() > 0 && item == query {
        assert forall|i: int| 0 <= i < query.len() implies item.contains(#[trigger] query[i]) by {
            assert(item[i] == query[i]);
        }
    }
    if exists|i: int| 0 <= i < query.len() && !item.contains(#[trigger] query[i]) {
        let i = choose|i: int| 0 <= i < query.len() && !item.contains(#[trigger] query[i]);
        assert(item != query);
        assert(score_of(item, query) == Score::Nothing);
    }
}

/// A name that begins with the query, and goes on, opens with it: the score keeps how
/// many of its characters the query has.
pub proof fn lemma_score_of_opening(item: Seq<char>, query: Seq<char>)
    requires
        item.len() <= usize::MAX,
        0 < query.len() < item.len(),
        item.take(query.len() as int) == query,
    ensures
        score_of(item, query) == (Score::Opening {
            matched: query.len() as usize,
            length: item.len() as usize,
        }),
{
    assert(item.subrange(0, query.len() as int) =~= item.take(query.len() as int));
    assert(occurs_at(query, item, 0));
    assert forall|i: int| 0 <= i < query.len() implies item.contains(#[trigger] query[i]) by {
        assert(item[i] == item.take(query.len() as int)[i]);
    }
}

/// A name that holds the query further on, and does not begin with it, holds it
/// within: the score keeps how many of its characters the query has.
pub proof fn lemma_score_of_within(item: Seq<char>, query: Seq<char>, at: int)
    requires
        item.len() <= usize::MAX,
        0 < query.len(),
        0 < at,
        at + query.len() <= item.len(),
        item.subrange(at, at + query.len()) == query,
        item.take(query.len() as int) != query,
    ensures
        score_of(item, query) == (Score::Within {
            matched: query.len() as usize,
            length: item.len() as usize,
        }),
{
    assert(occurs_at(query, item, at));
    assert(item.subrange(0, query.len() as int) =~= item.take(query.len() as int));
    assert forall|i: int| 0 <= i < query.len() implies item.contains(#[trigger] query[i]) by {
        assert(item[at + i] == item.subrange(at, at + query.len())[i]);
    }
}

/// A name that has every character of the query, but not the query itself, is near
/// it: the score keeps the distance and the length of the longer text, whichever of
/// the two that is.
pub proof fn lemma_score_of_near(item: Seq<char>, query: Seq<char>)
    requires
        item.len() <= usize::MAX,
        0 < query.len() <= usize::MAX,
        forall|i: int| 0 <= i < query.len() ==> item.contains(#[trigger] query[i]),
        forall|at: int, end: int|
            0 <= at && end == at + query.len() && end <= item.len() ==> #[trigger] item.subrange(
                at,
                end,
            ) != query,
    ensures
        score_of(item, query) == (Score::Near {
            distance: edit_distance(item, query) as usize,
            length: (if item.len() >= query.len() { item.len() } else { query.len() }) as usize,
        }),
        edit_distance(item, query) <= usize::MAX,
{
    assert(item != query) by {
        assert(item.subrange(0, item.len() as int) =~= item);
    }
    assert forall|at: int| !occurs_at(query, item, at) by {
        if occurs_at(query, item, at) {
            assert(item.subrange(at, at + query.len()) == query);
        }
    }
    assert(!occurs_in(query, item));
    crate::distance::lemma_distance_bound(item, query);
}

/// The value of a score is what its formula says, of `ONE`, to about fifteen decimal
/// digits: one for the whole, zero for nothing, the part of the name that the query is
/// where it stands within, nine tenths and a tenth of that part where it opens the name,
/// and one less the part of the longer text that is edited where it is near.
pub proof fn lemma_value_of_score(score: Score)
    requires
        score.wf(),
    ensures
        ({
            let one = 0x1000_0000_0000_0000_0000_0000_0000_0000int;
            let value = score.value() as int;
            match score {
                Score::Whole => value == one,
                Score::Nothing => value == 0,
                Score::Within { matched, length } => length < 0x20_0000_0000_0000 ==> -(matched
                    * one) <= (value * length - matched * one) * 0x20_0000_0000_0000 <= matched
                    * one,
                Score::Near { distance, length } => length < 0x20_0000_0000_0000 ==> -(length
                    * one) <= (value * length - (length - distance) * one) * 0x10_0000_0000_0000
                    <= length * one,
                Score::Opening { matched, length } => length < 0x20_0000_0000_0000 ==> -(10
                    * length * one) <= (10 * length * value - (9 * length + matched) * one)
                    * 0x4_0000_0000_0000 <= 10 * length * one,
            }
        }),
{
    lemma_constants();
    let one = ONE as int;
    match score {
        Score::Within { matched, length } => {
            if length < DIGITS {
                lemma_ratio_error(matched as nat, length as nat);
            }
        },
        Score::Near { distance, length } => {
            if length < DIGITS {
                lemma_ratio_error(distance as nat, length as nat);
                lemma_ratio_range(distance as nat, length as nat);
                let far = ratio(distance as nat, length as nat);
                lemma_rounding_error((ONE - far) as nat, 1);
                let value = score.value() as int;
                let l = length as int;
                let d = distance as int;
                let r = far as int;
                let e1 = value - (one - r);
                let e2 = r * l - d * one;
                assert(value * l - (l - d) * one == e1 * l - e2) by (nonlinear_arith)
                    requires
                        e1 == value - (one - r),
                        e2 == r * l - d * one,
                ;
                assert(-(one * l) <= (e1 * DIGITS) * l <= one * l) by (nonlinear_arith)
                    requires
                        -one <= e1 * DIGITS <= one,
                        l >= 0,
                ;
                assert((e1 * DIGITS) * l == (e1 * l) * DIGITS) by (nonlinear_arith);
                assert(0 <= d * one <= l * one) by (nonlinear_arith)
                    requires
                        0 <= d <= l,
                        one >= 0,
                ;
                assert(one * l == l * one) by (nonlinear_arith);
            }
        },
        Score::Opening { matched, length } => {
            if length < DIGITS {
                lemma_value_of_opening(matched as nat, length as nat);
            }
        },
        _ => {},
    }
}

/// Scores are compared by their values.
pub proof fn lemma_compared_by_value(a: Score, b: Score)
    ensures
        a.at_least(b) <==> a.value() >= b.value(),
        a.ties(b) <==> a.value() == b.value(),
{
}

/// How far the value of an opening is off.
proof fn lemma_value_of_opening(matched: nat, length: nat)
    requires
        matched <= length,
        0 < length < DIGITS,
    ensures
        ({
            let value = rounded(
                (NINE_TENTHS + product(ratio(matched, length), TENTH as nat)) as nat,
                true,
            );
            -(10 * length * ONE) <= (10 * length * value - (9 * length + matched) * ONE)
                * 0x4_0000_0000_0000 <= 10 * length * ONE
        }),
{
    lemma_constants();
    lemma_ratio_error(matched, length);
    lemma_ratio_range(matched, length);
    let one = ONE as int;
    let tenth = TENTH as int;
    let nine = NINE_TENTHS as int;
    let l = length as int;
    let m = matched as int;
    let r = ratio(matched, length) as int;
    let top = (r * tenth) as nat;
    assert(top >= 0) by (nonlinear_arith)
        requires
            top == r * tenth,
            r >= 0,
            tenth >= 0,
    ;
    lemma_ratio_floor(matched, length);
    lemma_rounding_error(top, ONE as nat);
    lemma_tenth_range(r as nat);
    let p = product(r as nat, TENTH as nat) as int;
    let sum = (nine + p) as nat;
    lemma_rounding_error(sum, 1);
    let v = rounded(sum, true) as int;
    let e1 = v - (nine + p);
    let e2 = p * one - r * tenth;
    let e3 = r * l - m * one;
    let big = DIGITS as int;
    // Each of the three roundings, and the constants, are off by little.
    assert(-(2 * one) <= e1 * big <= 2 * one);
    assert(0 <= r * tenth <= one * tenth) by (nonlinear_arith)
        requires
            0 <= r <= one,
            tenth >= 0,
    ;
    assert(-(one * tenth) <= e2 * big <= one * tenth);
    assert(0 <= m * one <= l * one) by (nonlinear_arith)
        requires
            0 <= m <= l,
            one >= 0,
    ;
    assert(-(l * one) <= e3 * big <= l * one);
    let d9 = 10 * nine - 9 * one;
    let d1 = 10 * tenth - one;
    assert(d9 * big == 2 * one);
    assert(2 * (d1 * big) == one);
    let total = 10 * l * v - (9 * l + m) * one;
    assert(10 * l * v == 10 * l * e1 + 10 * l * nine + 10 * l * p) by (nonlinear_arith)
        requires
            v == e1 + nine + p,
    ;
    assert(one * (10 * l * e1) == 10 * (l * one) * e1) by (nonlinear_arith);
    assert(one * (10 * l * nine) == (l * one) * (10 * nine)) by (nonlinear_arith);
    assert((l * one) * (10 * nine) == (l * one) * d9 + (l * one) * (9 * one)) by (nonlinear_arith)
        requires
            10 * nine == d9 + 9 * one,
    ;
    assert(one * (10 * l * p) == 10 * l * (p * one)) by (nonlinear_arith);
    assert(10 * l * (p * one) == 10 * l * e2 + 10 * l * (r * tenth)) by (nonlinear_arith)
        requires
            p * one == e2 + r * tenth,
    ;
    assert(10 * l * (r * tenth) == (l * r) * (10 * tenth)) by (nonlinear_arith);
    assert((l * r) * (10 * tenth) == (l * r) * d1 + (l * r) * one) by (nonlinear_arith)
        requires
            10 * tenth == d1 + one,
    ;
    assert((l * r) * one == one * (r * l)) by (nonlinear_arith);
    assert(one * (r * l) == one * e3 + one * (m * one)) by (nonlinear_arith)
        requires
            r * l == e3 + m * one,
    ;
    assert(one * ((9 * l + m) * one) == (l * one) * (9 * one) + one * (m * one))
        by (nonlinear_arith);
    assert(one * total == one * (10 * l * v) - one * ((9 * l + m) * one)) by (nonlinear_arith)
        requires
            total == 10 * l * v - (9 * l + m) * one,
    ;
    assert(one * (10 * l * v) == one * (10 * l * e1) + one * (10 * l * nine) + one * (10 * l * p))
        by (nonlinear_arith)
        requires
            10 * l * v == 10 * l * e1 + 10 * l * nine + 10 * l * p,
    ;
    assert(one * total == 10 * (l * one) * e1 + (l * one) * d9 + 10 * l * e2 + (l * r) * d1 + one
        * e3);
    let unit = (l * one) * one;
    assert(-(20 * unit) <= (10 * (l * one) * e1) * big <= 20 * unit) by (nonlinear_arith)
        requires
            -(2 * one) <= e1 * big <= 2 * one,
            unit == (l * one) * one,
            l * one >= 0,
    ;
    assert(((l * one) * d9) * big == 2 * unit) by (nonlinear_arith)
        requires
            d9 * big == 2 * one,
            unit == (l * one) * one,
    ;
    assert(-(2 * unit) <= (10 * l * e2) * big <= 2 * unit) by (nonlinear_arith)
        requires
            -(one * tenth) <= e2 * big <= one * tenth,
            10 * tenth <= 2 * one,
            unit == (l * one) * one,
            l >= 0,
            one >= 0,
    ;
    assert(0 <= ((l * r) * d1) * big <= unit) by (nonlinear_arith)
        requires
            2 * (d1 * big) == one,
            0 <= r <= one,
            l >= 0,
            one >= 0,
            unit == (l * one) * one,
    ;
    assert(-unit <= (one * e3) * big <= unit) by (nonlinear_arith)
        requires
            -(l * one) <= e3 * big <= l * one,
            one >= 0,
            unit == (l * one) * one,
    ;
    assert((one * total) * big == (10 * (l * one) * e1) * big + ((l * one) * d9) * big + (10 * l
        * e2) * big + ((l * r) * d1) * big + (one * e3) * big) by (nonlinear_arith)
        requires
            one * total == 10 * (l * one) * e1 + (l * one) * d9 + 10 * l * e2 + (l * r) * d1 + one
                * e3,
    ;
    assert(-(26 * unit) <= (one * total) * big <= 26 * unit);
    assert(-(80 * (l * one)) <= total * big <= 80 * (l * one)) by (nonlinear_arith)
        requires
            -(26 * unit) <= (one * total) * big <= 26 * unit,
            unit == (l * one) * one,
            one > 0,
            l * one >= 0,
    ;
    assert(big == 8 * 0x4_0000_0000_0000);
    assert(10 * l * one == 10 * (l * one)) by (nonlinear_arith);
}

/// A quotient that is not zero is large enough for a tenth of it to be rounded.
proof fn lemma_ratio_floor(a: nat, b: nat)
    requires
        a <= b,
        0 < b < DIGITS,
    ensures
        ratio(a, b) * (TENTH as nat) / (ONE as nat) >= DIGITS || ratio(a, b) * (TENTH as nat) % (
        ONE as nat) == 0,
{
    lemma_ratio_error(a, b);
    let r = ratio(a, b) as int;
    let one = ONE as int;
    let big = DIGITS as int;
    if r > 0 {
        if a == 0 {
            assert(r * b > 0) by (nonlinear_arith)
                requires
                    r > 0,
                    b > 0,
            ;
            assert(a * one == 0) by (nonlinear_arith)
                requires
                    a == 0,
            ;
        }
        assert(a * one >= one) by (nonlinear_arith)
            requires
                a >= 1,
                one >= 0,
        ;
        let w = r * b;
        let t = a * one;
        assert(2 * w >= t) by (nonlinear_arith)
            requires
                -t <= (w - t) * big,
                t >= 0,
                big >= 2,
        ;
        if r < 0x40_0000_0000_0000_0000 {
            assert(w <= 0x40_0000_0000_0000_0000 * 0x20_0000_0000_0000) by (nonlinear_arith)
                requires
                    w == r * b,
                    0 <= r <= 0x40_0000_0000_0000_0000,
                    0 <= b <= 0x20_0000_0000_0000,
            ;
        }
    }
}

} // verus!
