//! The edit distance between two texts.
use vstd::prelude::*;
use crate::text::chars_of;

verus! {

/// The smaller of two numbers.
pub open spec fn min_of(a: nat, b: nat) -> nat {
    if a <= b { a } else { b }
}

/// The larger of two numbers.
pub open spec fn max_of(a: nat, b: nat) -> nat {
    if a >= b { a } else { b }
}

/// The cost of putting `b` where `a` stood.
pub open spec fn replacement_cost(a: char, b: char) -> nat {
    if a == b { 0 } else { 1 }
}

/// The Levenshtein distance, by the last characters of the two texts: the last
/// of `b` is inserted, the last of `a` is deleted, or one takes the place of
/// the other. `lemma_shortest_edit` ties it to sequences of edits.
pub open spec fn edit_distance(a: Seq<char>, b: Seq<char>) -> nat
    decreases a.len() + b.len(),
{
    if a.len() == 0 {
        b.len()
    } else if b.len() == 0 {
        a.len()
    } else {
        min_of(
            min_of(
                edit_distance(a, b.drop_last()) + 1,
                edit_distance(a.drop_last(), b) + 1,
            ),
            edit_distance(a.drop_last(), b.drop_last()) + replacement_cost(a.last(), b.last()),
        )
    }
}

/// The distance is at most the length of the longer text.
pub proof fn lemma_distance_bound(a: Seq<char>, b: Seq<char>)
    ensures
        edit_distance(a, b) <= max_of(a.len(), b.len()),
    decreases a.len() + b.len(),
{
    if a.len() != 0 && b.len() != 0 {
        lemma_distance_bound(a.drop_last(), b.drop_last());
    }
}

/// The Levenshtein distance of `s1` and `s2`, computed row by row.
pub fn levenshtein_distance(s1: &str, s2: &str) -> (distance: usize)
    ensures
        distance == edit_distance(s1@, s2@),
{
    let a = chars_of(s1);
    let b = chars_of(s2);
    let rows: usize = a.len();
    let columns: usize = b.len();
    if rows == 0 {
        return columns;
    }
    if columns == 0 {
        return rows;
    }
    // `above[j]` is the distance of the rows done so far and the first `j + 1`
    // characters of `b`; the distance to no character is the row number.
    let mut above: Vec<usize> = Vec::new();
    let mut j: usize = 0;
    while j < columns
        invariant
            j <= columns,
            columns == b@.len(),
            above@.len() == j,
            forall|k: int| 0 <= k < j ==> above@[k] == edit_distance(
                a@.take(0),
                #[trigger] b@.take(k + 1),
            ),
        decreases columns - j,
    {
        above.push(j + 1);
        j = j + 1;
    }
    let mut i: usize = 0;
    while i < rows
        invariant
            i <= rows,
            rows == a@.len(),
            columns == b@.len(),
            columns > 0,
            above@.len() == columns,
            forall|k: int| 0 <= k < columns ==> above@[k] == edit_distance(
                a@.take(i as int),
                #[trigger] b@.take(k + 1),
            ),
        decreases rows - i,
    {
        let mut row: Vec<usize> = Vec::new();
        let mut left: usize = i + 1;
        let mut diagonal: usize = i;
        let mut k: usize = 0;
        while k < columns
            invariant
                k <= columns,
                i < rows,
                rows == a@.len(),
                columns == b@.len(),
                above@.len() == columns,
                forall|n: int| 0 <= n < columns ==> above@[n] == edit_distance(
                    a@.take(i as int),
                    #[trigger] b@.take(n + 1),
                ),
                row@.len() == k,
                forall|n: int| 0 <= n < k ==> row@[n] == edit_distance(
                    a@.take(i + 1),
                    #[trigger] b@.take(n + 1),
                ),
                left == edit_distance(a@.take(i + 1), b@.take(k as int)),
                diagonal == edit_distance(a@.take(i as int), b@.take(k as int)),
            decreases columns - k,
        {
            let cost: u128 = if a[i] == b[k] { 0 } else { 1 };
            let up: usize = above[k];
            let mut best: u128 = left as u128 + 1;
            if up as u128 + 1 < best {
                best = up as u128 + 1;
            }
            if diagonal as u128 + cost < best {
                best = diagonal as u128 + cost;
            }
            proof {
                let x = a@.take(i + 1);
                let y = b@.take(k + 1);
                assert(x.drop_last() =~= a@.take(i as int));
                assert(y.drop_last() =~= b@.take(k as int));
                assert(best == edit_distance(x, y));
                lemma_distance_bound(x, y);
            }
            let here: usize = best as usize;
            row.push(here);
            diagonal = up;
            left = here;
            k = k + 1;
        }
        above = row;
        i = i + 1;
    }
    assert(a@.take(rows as int) =~= a@);
    assert(b@.take((columns - 1) + 1) =~= b@);
    above[columns - 1]
}

/// `b` is `a` with one character inserted, deleted or replaced.
pub open spec fn one_edit(a: Seq<char>, b: Seq<char>) -> bool {
    ||| exists|i: int, c: char| #[trigger] inserts(a, b, i, c)
    ||| exists|i: int| #[trigger] deletes(a, b, i)
    ||| exists|i: int, c: char| #[trigger] replaces(a, b, i, c)
}

/// `b` is `a` with `c` inserted before position `i`.
pub open spec fn inserts(a: Seq<char>, b: Seq<char>, i: int, c: char) -> bool {
    0 <= i <= a.len() && b == a.insert(i, c)
}

/// `b` is `a` without the character at position `i`.
pub open spec fn deletes(a: Seq<char>, b: Seq<char>, i: int) -> bool {
    0 <= i < a.len() && b == a.remove(i)
}

/// `b` is `a` with `c` in place of the character at position `i`.
pub open spec fn replaces(a: Seq<char>, b: Seq<char>, i: int, c: char) -> bool {
    0 <= i < a.len() && b == a.update(i, c)
}

/// `b` comes out of `a` after `n` edits, one after the other.
pub open spec fn edits_to(a: Seq<char>, b: Seq<char>, n: nat) -> bool
    decreases n,
{
    if n == 0 {
        a == b
    } else {
        exists|next: Seq<char>| #[trigger] one_edit(a, next) && edits_to(next, b, (n - 1) as nat)
    }
}

/// An edit may be made behind a common last character.
proof fn lemma_edit_under(a: Seq<char>, b: Seq<char>, last: char)
    requires
        one_edit(a, b),
    ensures
        one_edit(a.push(last), b.push(last)),
{
    if exists|i: int, c: char| #[trigger] inserts(a, b, i, c) {
        let (i, c) = choose|i: int, c: char| #[trigger] inserts(a, b, i, c);
        assert(b.push(last) =~= a.push(last).insert(i, c));
        assert(inserts(a.push(last), b.push(last), i, c));
    } else if exists|i: int| #[trigger] deletes(a, b, i) {
        let i = choose|i: int| #[trigger] deletes(a, b, i);
        assert(b.push(last) =~= a.push(last).remove(i));
        assert(deletes(a.push(last), b.push(last), i));
    } else {
        let (i, c) = choose|i: int, c: char| #[trigger] replaces(a, b, i, c);
        assert(b.push(last) =~= a.push(last).update(i, c));
        assert(replaces(a.push(last), b.push(last), i, c));
    }
}

/// Edits may be made behind a common last character.
proof fn lemma_edits_under(a: Seq<char>, b: Seq<char>, n: nat, last: char)
    requires
        edits_to(a, b, n),
    ensures
        edits_to(a.push(last), b.push(last), n),
    decreases n,
{
    if n != 0 {
        let next = choose|next: Seq<char>| #[trigger]
            one_edit(a, next) && edits_to(next, b, (n - 1) as nat);
        lemma_edit_under(a, next, last);
        lemma_edits_under(next, b, (n - 1) as nat, last);
        assert(one_edit(a.push(last), next.push(last)));
    }
}

/// Two runs of edits, one after the other, are a run.
proof fn lemma_edits_join(a: Seq<char>, b: Seq<char>, c: Seq<char>, m: nat, n: nat)
    requires
        edits_to(a, b, m),
        edits_to(b, c, n),
    ensures
        edits_to(a, c, m + n),
    decreases m,
{
    if m != 0 {
        let next = choose|next: Seq<char>| #[trigger]
            one_edit(a, next) && edits_to(next, b, (m - 1) as nat);
        lemma_edits_join(next, b, c, (m - 1) as nat, n);
        assert((m + n - 1) as nat == (m - 1) as nat + n);
        assert(one_edit(a, next) && edits_to(next, c, (m + n - 1) as nat));
    }
}

/// One edit is a run of one edit.
proof fn lemma_single_edit(a: Seq<char>, b: Seq<char>)
    requires
        one_edit(a, b),
    ensures
        edits_to(a, b, 1),
{
    assert(edits_to(b, b, 0));
    assert(one_edit(a, b) && edits_to(b, b, (1 - 1) as nat));
}

/// As many edits as the distance says are enough.
proof fn lemma_distance_reached(a: Seq<char>, b: Seq<char>)
    ensures
        edits_to(a, b, edit_distance(a, b)),
    decreases a.len() + b.len(),
{
    if a.len() == 0 && b.len() == 0 {
        assert(a =~= b);
    } else if a.len() == 0 || (b.len() != 0 && edit_distance(a, b) == edit_distance(
        a,
        b.drop_last(),
    ) + 1) {
        let shorter = b.drop_last();
        lemma_distance_reached(a, shorter);
        assert(shorter.insert(shorter.len() as int, b.last()) =~= b);
        assert(inserts(shorter, b, shorter.len() as int, b.last()));
        lemma_single_edit(shorter, b);
        lemma_edits_join(a, shorter, b, edit_distance(a, shorter), 1);
    } else if b.len() == 0 || edit_distance(a, b) == edit_distance(a.drop_last(), b) + 1 {
        let shorter = a.drop_last();
        lemma_distance_reached(shorter, b);
        assert(a.remove(a.len() - 1) =~= shorter);
        assert(deletes(a, shorter, a.len() - 1));
        lemma_single_edit(a, shorter);
        lemma_edits_join(a, shorter, b, 1, edit_distance(shorter, b));
    } else {
        let x = a.drop_last();
        let y = b.drop_last();
        lemma_distance_reached(x, y);
        lemma_edits_under(x, y, edit_distance(x, y), a.last());
        assert(x.push(a.last()) =~= a);
        let z = y.push(a.last());
        if a.last() == b.last() {
            assert(z =~= b);
        } else {
            assert(z.update(y.len() as int, b.last()) =~= b);
            assert(replaces(z, b, y.len() as int, b.last()));
            lemma_single_edit(z, b);
            lemma_edits_join(a, z, b, edit_distance(x, y), 1);
        }
    }
}

/// A last character more on the left changes the distance by one at most.
proof fn lemma_distance_push(a: Seq<char>, c: char, b: Seq<char>)
    ensures
        edit_distance(a.push(c), b) <= edit_distance(a, b) + 1,
        edit_distance(a, b) <= edit_distance(a.push(c), b) + 1,
    decreases b.len(),
{
    assert(a.push(c).drop_last() =~= a);
    if b.len() != 0 {
        lemma_distance_push(a, c, b.drop_last());
    }
}

/// One edit changes the distance to any text by one at most.
proof fn lemma_edit_step(a: Seq<char>, m: Seq<char>, b: Seq<char>)
    requires
        one_edit(a, m),
    ensures
        edit_distance(a, b) <= edit_distance(m, b) + 1,
    decreases a.len() + b.len(),
{
    if a.len() == 0 {
        assert(m.len() == 1) by {
            let (i, c) = choose|i: int, c: char| #[trigger] inserts(a, m, i, c);
        }
        assert(m =~= a.push(m[0]));
        lemma_distance_push(a, m[0], b);
    } else if m == a.drop_last() {
        assert(m.push(a.last()) =~= a);
        lemma_distance_push(m, a.last(), b);
    } else if m.len() == a.len() + 1 && m.drop_last() == a {
        assert(a.push(m.last()) =~= m);
        lemma_distance_push(a, m.last(), b);
    } else {
        lemma_edit_inside(a, m);
        let x = a.drop_last();
        let z = m.drop_last();
        if b.len() != 0 {
            let y = b.drop_last();
            lemma_edit_step(a, m, y);
            if x != z {
                lemma_edit_step(x, z, b);
                lemma_edit_step(x, z, y);
            }
        }
    }
}

/// An edit that neither drops the last character nor adds one behind it keeps
/// the last character and edits what stands before it, or replaces the last
/// character alone.
proof fn lemma_edit_inside(a: Seq<char>, m: Seq<char>)
    requires
        one_edit(a, m),
        a.len() != 0,
        m != a.drop_last(),
        !(m.len() == a.len() + 1 && m.drop_last() == a),
    ensures
        m.len() != 0,
        m.len() <= a.len() + 1,
        a.len() <= m.len() + 1,
        a.drop_last() == m.drop_last() || (a.last() == m.last() && one_edit(
            a.drop_last(),
            m.drop_last(),
        )),
{
    let x = a.drop_last();
    let z = m.drop_last();
    if exists|i: int, c: char| #[trigger] inserts(a, m, i, c) {
        let (i, c) = choose|i: int, c: char| #[trigger] inserts(a, m, i, c);
        if i == a.len() {
            assert(m.drop_last() =~= a);
        }
        assert(z =~= x.insert(i, c));
        assert(inserts(x, z, i, c));
    } else if exists|i: int| #[trigger] deletes(a, m, i) {
        let i = choose|i: int| #[trigger] deletes(a, m, i);
        if i == a.len() - 1 {
            assert(m =~= a.drop_last());
        }
        assert(z =~= x.remove(i));
        assert(deletes(x, z, i));
    } else {
        let (i, c) = choose|i: int, c: char| #[trigger] replaces(a, m, i, c);
        if i == a.len() - 1 {
            assert(z =~= x);
        } else {
            assert(z =~= x.update(i, c));
            assert(replaces(x, z, i, c));
        }
    }
}

/// Fewer edits than the distance says are never enough.
proof fn lemma_distance_needed(a: Seq<char>, b: Seq<char>, n: nat)
    requires
        edits_to(a, b, n),
    ensures
        edit_distance(a, b) <= n,
    decreases n,
{
    if n == 0 {
        lemma_distance_self(a);
    } else {
        let next = choose|next: Seq<char>| #[trigger]
            one_edit(a, next) && edits_to(next, b, (n - 1) as nat);
        lemma_distance_needed(next, b, (n - 1) as nat);
        lemma_edit_step(a, next, b);
    }
}

/// A text is at no distance from itself.
proof fn lemma_distance_self(a: Seq<char>)
    ensures
        edit_distance(a, a) == 0,
    decreases a.len(),
{
    if a.len() != 0 {
        lemma_distance_self(a.drop_last());
    }
}

/// The distance is the length of the shortest run of single-character edits
/// that turns one text into the other.
pub proof fn lemma_shortest_edit(a: Seq<char>, b: Seq<char>)
    ensures
        edits_to(a, b, edit_distance(a, b)),
        forall|n: nat| #[trigger] edits_to(a, b, n) ==> edit_distance(a, b) <= n,
{
    lemma_distance_reached(a, b);
    assert forall|n: nat| #[trigger] edits_to(a, b, n) implies edit_distance(a, b) <= n by {
        lemma_distance_needed(a, b, n);
    }
}

/// The distance is zero exactly between equal texts.
pub proof fn lemma_distance_zero(a: Seq<char>, b: Seq<char>)
    ensures
        edit_distance(a, b) == 0 <==> a == b,
{
    lemma_distance_self(a);
    lemma_distance_reached(a, b);
}

/// The distance does not depend on which text comes first.
pub proof fn lemma_distance_symmetric(a: Seq<char>, b: Seq<char>)
    ensures
        edit_distance(a, b) == edit_distance(b, a),
    decreases a.len() + b.len(),
{
    if a.len() != 0 && b.len() != 0 {
        lemma_distance_symmetric(a, b.drop_last());
        lemma_distance_symmetric(a.drop_last(), b);
        lemma_distance_symmetric(a.drop_last(), b.drop_last());
    }
}

/// A detour over a third text is never shorter.
pub proof fn lemma_distance_triangle(a: Seq<char>, b: Seq<char>, c: Seq<char>)
    ensures
        edit_distance(a, c) <= edit_distance(a, b) + edit_distance(b, c),
{
    lemma_distance_reached(a, b);
    lemma_distance_reached(b, c);
    lemma_edits_join(a, b, c, edit_distance(a, b), edit_distance(b, c));
    lemma_distance_needed(a, c, edit_distance(a, b) + edit_distance(b, c));
}

} // verus!
