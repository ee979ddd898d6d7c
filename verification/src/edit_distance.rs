//! How many single characters lie between two texts.

use vstd::prelude::*;
use crate::text;

verus! {

broadcast use vstd::string::group_string_axioms;

/// The smallest of three numbers.
pub open spec fn least(a: nat, b: nat, c: nat) -> nat {
    if a <= b && a <= c {
        a
    } else if b <= c {
        b
    } else {
        c
    }
}

/// How far two texts are apart: the fewest insertions, deletions and
/// replacements of single characters that turn one into the other, as
/// [`law_distance_is_fewest_edits`] says.
pub open spec fn distance(a: Seq<char>, b: Seq<char>) -> nat
    decreases a.len() + b.len(),
{
    if a.len() == 0 {
        b.len()
    } else if b.len() == 0 {
        a.len()
    } else {
        least(
            distance(a.drop_last(), b) + 1,
            distance(a, b.drop_last()) + 1,
            distance(a.drop_last(), b.drop_last()) + (if a.last() != b.last() {
                1nat
            } else {
                0
            }),
        )
    }
}

/// No text is further away than the length of the longer one.
pub proof fn law_distance_is_bounded(a: Seq<char>, b: Seq<char>)
    ensures
        distance(a, b) <= a.len() || distance(a, b) <= b.len(),
        distance(a, b) + a.len() >= b.len(),
        distance(a, b) + b.len() >= a.len(),
    decreases a.len() + b.len(),
{
    if a.len() > 0 && b.len() > 0 {
        law_distance_is_bounded(a.drop_last(), b.drop_last());
        law_distance_is_bounded(a.drop_last(), b);
        law_distance_is_bounded(a, b.drop_last());
    }
}

/// The way back is as long as the way there.
pub proof fn law_distance_is_symmetric(a: Seq<char>, b: Seq<char>)
    ensures
        distance(a, b) == distance(b, a),
    decreases a.len() + b.len(),
{
    if a.len() > 0 && b.len() > 0 {
        law_distance_is_symmetric(a.drop_last(), b.drop_last());
        law_distance_is_symmetric(a.drop_last(), b);
        law_distance_is_symmetric(a, b.drop_last());
    }
}

/// Two texts are no distance apart if and only if they are the same.
pub proof fn law_no_distance_means_same(a: Seq<char>, b: Seq<char>)
    ensures
        distance(a, b) == 0 <==> a == b,
    decreases a.len() + b.len(),
{
    if a.len() > 0 && b.len() > 0 {
        law_no_distance_means_same(a.drop_last(), b.drop_last());
        if a.last() == b.last() && a.drop_last() == b.drop_last() {
            assert(a =~= a.drop_last().push(a.last()));
            assert(b =~= b.drop_last().push(b.last()));
        }
    } else if a.len() == 0 && b.len() == 0 {
        assert(a =~= b);
    }
}

/// A way over a third text is no shorter.
pub proof fn law_no_shortcut(a: Seq<char>, b: Seq<char>, c: Seq<char>)
    ensures
        distance(a, c) <= distance(a, b) + distance(b, c),
    decreases a.len() + b.len() + c.len(),
{
    law_distance_is_bounded(a, b);
    law_distance_is_bounded(b, c);
    law_distance_is_bounded(a, c);
    if a.len() > 0 && b.len() > 0 && c.len() > 0 {
        law_no_shortcut(a.drop_last(), b, c);
        law_no_shortcut(a, b.drop_last(), c);
        law_no_shortcut(a, b, c.drop_last());
        law_no_shortcut(a.drop_last(), b.drop_last(), c);
        law_no_shortcut(a, b.drop_last(), c.drop_last());
        law_no_shortcut(a.drop_last(), b.drop_last(), c.drop_last());
    }
}

/// Whether one text becomes another when one character is inserted.
pub open spec fn inserts(a: Seq<char>, b: Seq<char>) -> bool {
    exists|i: int, c: char| 0 <= i <= a.len() && b == #[trigger] a.insert(i, c)
}

/// Whether one text becomes another when one character is replaced.
pub open spec fn replaces(a: Seq<char>, b: Seq<char>) -> bool {
    exists|i: int, c: char| 0 <= i < a.len() && b == #[trigger] a.update(i, c)
}

/// Whether one text becomes another when one character is inserted, deleted or
/// replaced.
pub open spec fn is_edit(a: Seq<char>, b: Seq<char>) -> bool {
    inserts(a, b) || inserts(b, a) || replaces(a, b)
}

/// Whether a text becomes the next one of a row by one edit.
pub open spec fn edited_at(row: Seq<Seq<char>>, i: int) -> bool {
    is_edit(row[i], row[i + 1])
}

/// Whether a row of texts leads from one text to another, each made from the one
/// before by one edit.
pub open spec fn leads(row: Seq<Seq<char>>, a: Seq<char>, b: Seq<char>) -> bool {
    &&& row.len() > 0
    &&& row[0] == a
    &&& row.last() == b
    &&& forall|i: int| 0 <= i < row.len() - 1 ==> #[trigger] edited_at(row, i)
}

proof fn lemma_same_end(a: Seq<char>, b: Seq<char>, end: Seq<char>)
    ensures
        distance(a + end, b + end) <= distance(a, b),
    decreases end.len(),
{
    if end.len() == 0 {
        assert(a + end =~= a);
        assert(b + end =~= b);
    } else {
        lemma_same_end(a, b, end.drop_last());
        assert((a + end).drop_last() =~= a + end.drop_last());
        assert((b + end).drop_last() =~= b + end.drop_last());
    }
}

proof fn lemma_insertion_is_near(a: Seq<char>, i: int, c: char)
    requires
        0 <= i <= a.len(),
    ensures
        distance(a, a.insert(i, c)) <= 1,
{
    let front = a.take(i);
    law_no_distance_means_same(front, front);
    law_distance_is_bounded(front, front.push(c));
    assert(front.push(c).drop_last() =~= front);
    lemma_same_end(front, front.push(c), a.skip(i));
    assert(front + a.skip(i) =~= a);
    assert(front.push(c) + a.skip(i) =~= a.insert(i, c));
}

proof fn lemma_edit_is_near(a: Seq<char>, b: Seq<char>)
    requires
        is_edit(a, b),
    ensures
        distance(a, b) <= 1,
{
    if inserts(a, b) {
        let (i, c) = choose|i: int, c: char| 0 <= i <= a.len() && b == #[trigger] a.insert(i, c);
        lemma_insertion_is_near(a, i, c);
    } else if inserts(b, a) {
        let (i, c) = choose|i: int, c: char| 0 <= i <= b.len() && a == #[trigger] b.insert(i, c);
        lemma_insertion_is_near(b, i, c);
        law_distance_is_symmetric(a, b);
    } else {
        let (i, c) = choose|i: int, c: char| 0 <= i < a.len() && b == #[trigger] a.update(i, c);
        let front = a.take(i);
        let one = front.push(a[i]);
        let other = front.push(c);
        law_no_distance_means_same(front, front);
        assert(one.drop_last() =~= front);
        assert(other.drop_last() =~= front);
        lemma_same_end(one, other, a.skip(i + 1));
        assert(one + a.skip(i + 1) =~= a);
        assert(other + a.skip(i + 1) =~= b);
    }
}

proof fn lemma_no_row_is_shorter(row: Seq<Seq<char>>, a: Seq<char>, b: Seq<char>)
    requires
        leads(row, a, b),
    ensures
        row.len() > distance(a, b),
    decreases row.len(),
{
    if row.len() == 1 {
        law_no_distance_means_same(a, b);
    } else {
        let front = row.drop_last();
        let mid = front.last();
        assert forall|i: int| 0 <= i < front.len() - 1 implies #[trigger] edited_at(front, i) by {
            assert(edited_at(row, i));
        }
        lemma_no_row_is_shorter(front, a, mid);
        assert(edited_at(row, row.len() - 2));
        lemma_edit_is_near(mid, b);
        law_no_shortcut(a, mid, b);
    }
}

proof fn lemma_edit_before(a: Seq<char>, b: Seq<char>, x: char)
    requires
        is_edit(a, b),
    ensures
        is_edit(a.push(x), b.push(x)),
{
    if inserts(a, b) {
        let (i, c) = choose|i: int, c: char| 0 <= i <= a.len() && b == #[trigger] a.insert(i, c);
        assert(b.push(x) =~= a.push(x).insert(i, c));
    } else if inserts(b, a) {
        let (i, c) = choose|i: int, c: char| 0 <= i <= b.len() && a == #[trigger] b.insert(i, c);
        assert(a.push(x) =~= b.push(x).insert(i, c));
    } else {
        let (i, c) = choose|i: int, c: char| 0 <= i < a.len() && b == #[trigger] a.update(i, c);
        assert(b.push(x) =~= a.push(x).update(i, c));
    }
}

/// A row with a text before it.
proof fn lemma_starts_earlier(a: Seq<char>, row: Seq<Seq<char>>, b: Seq<char>, c: Seq<char>)
    requires
        is_edit(a, b),
        leads(row, b, c),
    ensures
        leads(seq![a] + row, a, c),
{
    let more = seq![a] + row;
    assert forall|i: int| 0 <= i < more.len() - 1 implies #[trigger] edited_at(more, i) by {
        if i > 0 {
            assert(edited_at(row, i - 1));
            assert(more[i] == row[i - 1]);
            assert(more[i + 1] == row[i]);
        }
    }
}

/// A row of texts that each end in the same character.
proof fn lemma_row_before(row: Seq<Seq<char>>, a: Seq<char>, b: Seq<char>, x: char)
    requires
        leads(row, a, b),
    ensures
        leads(row.map_values(|s: Seq<char>| s.push(x)), a.push(x), b.push(x)),
{
    let more = row.map_values(|s: Seq<char>| s.push(x));
    assert forall|i: int| 0 <= i < more.len() - 1 implies #[trigger] edited_at(more, i) by {
        assert(edited_at(row, i));
        lemma_edit_before(row[i], row[i + 1], x);
    }
}

proof fn lemma_dropping_is_edit(a: Seq<char>)
    requires
        a.len() > 0,
    ensures
        is_edit(a, a.drop_last()),
        is_edit(a.drop_last(), a),
{
    let front = a.drop_last();
    assert(a =~= front.insert(front.len() as int, a.last()));
    assert(inserts(front, a));
}

/// A row that leads from one text to another in as many edits as they are apart.
proof fn lemma_shortest_row(a: Seq<char>, b: Seq<char>) -> (row: Seq<Seq<char>>)
    ensures
        leads(row, a, b),
        row.len() == distance(a, b) + 1,
    decreases a.len() + b.len(),
{
    if a.len() == 0 && b.len() == 0 {
        assert(a =~= b);
        seq![a]
    } else if b.len() == 0 || (a.len() > 0 && distance(a, b) == distance(a.drop_last(), b) + 1) {
        let rest = lemma_shortest_row(a.drop_last(), b);
        lemma_dropping_is_edit(a);
        lemma_starts_earlier(a, rest, a.drop_last(), b);
        seq![a] + rest
    } else if a.len() == 0 || distance(a, b) == distance(a, b.drop_last()) + 1 {
        let rest = lemma_shortest_row(a, b.drop_last());
        lemma_dropping_is_edit(b);
        let row = rest.push(b);
        assert forall|i: int| 0 <= i < row.len() - 1 implies #[trigger] edited_at(row, i) by {
            if i < rest.len() - 1 {
                assert(edited_at(rest, i));
            }
        }
        row
    } else {
        let x = b.last();
        let rest = lemma_shortest_row(a.drop_last(), b.drop_last());
        let row = rest.map_values(|s: Seq<char>| s.push(x));
        lemma_row_before(rest, a.drop_last(), b.drop_last(), x);
        assert(b.drop_last().push(x) =~= b);
        if a.last() == x {
            assert(a.drop_last().push(x) =~= a);
            row
        } else {
            let next = a.drop_last().push(x);
            assert(next =~= a.update(a.len() - 1, x));
            assert(replaces(a, next));
            lemma_starts_earlier(a, row, next, b);
            seq![a] + row
        }
    }
}

/// Two texts are as many characters apart as it takes edits at least to turn one
/// into the other.
pub proof fn law_distance_is_fewest_edits(a: Seq<char>, b: Seq<char>)
    ensures
        exists|row: Seq<Seq<char>>| #[trigger] leads(row, a, b) && row.len() == distance(a, b) + 1,
        forall|row: Seq<Seq<char>>| #[trigger] leads(row, a, b) ==> row.len() > distance(a, b),
{
    let row = lemma_shortest_row(a, b);
    assert(leads(row, a, b));
    assert forall|row: Seq<Seq<char>>| #[trigger] leads(row, a, b) implies row.len() > distance(
        a,
        b,
    ) by {
        lemma_no_row_is_shorter(row, a, b);
    }
}

/// How many single characters lie between two texts.
pub fn edit_distance(a: &str, b: &str) -> (n: usize)
    ensures
        n == distance(a@, b@),
{
    let x = text::chars_of(a);
    let y = text::chars_of(b);
    let m: usize = y.len();
    let mut costs: Vec<usize> = Vec::new();
    let mut k: usize = 0;
    costs.push(0);
    assert(y@.take(0).len() == 0);
    assert(x@.take(0).len() == 0);
    while k < m
        invariant
            k <= m,
            m == y@.len(),
            costs@.len() == k + 1,
            forall|j: int| 0 <= j <= k ==> #[trigger] costs@[j] == distance(
                x@.take(0),
                y@.take(j),
            ),
        decreases m - k,
    {
        k = k + 1;
        costs.push(k);
        assert(distance(x@.take(0), y@.take(k as int)) == k);
    }
    let width: usize = costs.len();
    let mut i: usize = 0;
    while i < x.len()
        invariant
            i <= x@.len(),
            m == y@.len(),
            width == m + 1,
            costs@.len() == width,
            forall|j: int| 0 <= j <= m ==> #[trigger] costs@[j] == distance(
                x@.take(i as int),
                y@.take(j),
            ),
        decreases x@.len() - i,
    {
        let c: char = x[i];
        let n: usize = x.len();
        let ghost row = x@.take(i as int);
        let ghost next = x@.take(i + 1);
        assert(next.drop_last() =~= row);
        assert(next.last() == c);
        let mut previous: usize = costs[0];
        costs.set(0, i + 1);
        assert(y@.take(0).len() == 0);
        let mut j: usize = 0;
        while j < m
            invariant
                j <= m,
                i < n,
                n == x@.len(),
                m == y@.len(),
                width == m + 1,
                costs@.len() == width,
                row == x@.take(i as int),
                next == x@.take(i + 1),
                next.drop_last() == row,
                next.last() == c,
                previous == distance(row, y@.take(j as int)),
                forall|k: int| 0 <= k <= j ==> #[trigger] costs@[k] == distance(next, y@.take(k)),
                forall|k: int| j < k <= m ==> #[trigger] costs@[k] == distance(row, y@.take(k)),
            decreases m - j,
        {
            let ghost left = y@.take(j as int);
            let ghost here = y@.take(j + 1);
            assert(here.drop_last() =~= left);
            assert(here.last() == y@[j as int]);
            proof {
                law_distance_is_bounded(row, here);
                law_distance_is_bounded(next, left);
                law_distance_is_bounded(row, left);
                law_distance_is_bounded(next, here);
            }
            assert(costs@[j + 1] == distance(row, here));
            assert(costs@[j as int] == distance(next, left));
            let above: usize = costs[j + 1];
            let insertion: usize = above + 1;
            let deletion: usize = costs[j].saturating_add(1);
            let substitution: usize = if c == y[j] {
                previous
            } else {
                previous + 1
            };
            previous = above;
            let best: usize = if insertion <= deletion && insertion <= substitution {
                insertion
            } else if deletion <= substitution {
                deletion
            } else {
                substitution
            };
            assert(best == distance(next, here));
            costs.set(j + 1, best);
            j = j + 1;
        }
        i = i + 1;
    }
    assert(x@.take(x@.len() as int) =~= a@);
    assert(y@.take(m as int) =~= b@);
    costs[m]
}

} // verus!
