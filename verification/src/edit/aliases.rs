//! Short names for snippet roots.

use vstd::prelude::*;
use crate::path;
use crate::text;

verus! {

broadcast use vstd::string::group_string_axioms;

/// The name of a root, so many directories above its end. A root without names
/// is called `root`.
pub open spec fn name_at(names: Seq<Seq<char>>, depth: int) -> Seq<char> {
    if names.len() == 0 {
        "root"@
    } else if depth < names.len() {
        names[names.len() - 1 - depth]
    } else {
        names[0]
    }
}

/// The names of roots, each at a depth of its own.
pub open spec fn names_at(lists: Seq<Seq<Seq<char>>>, depths: Seq<int>) -> Seq<Seq<char>> {
    Seq::new(lists.len(), |i: int| name_at(lists[i], depths[i]))
}

/// Whether another root has the same name.
pub open spec fn collides(names: Seq<Seq<char>>, i: int) -> bool {
    exists|j: int| 0 <= j < names.len() && j != i && #[trigger] names[j] == names[i]
}

/// One step towards the root of the file system for each name that occurs more
/// than once, where there is a step to take.
pub open spec fn stepped(lists: Seq<Seq<Seq<char>>>, depths: Seq<int>) -> Seq<int> {
    Seq::new(
        lists.len(),
        |i: int|
            if collides(names_at(lists, depths), i) && depths[i] + 1 < lists[i].len() {
                depths[i] + 1
            } else {
                depths[i]
            },
    )
}

/// How many steps are left to take.
pub open spec fn room(lists: Seq<Seq<Seq<char>>>, depths: Seq<int>) -> nat
    decreases lists.len(),
{
    if lists.len() == 0 || depths.len() == 0 {
        0
    } else {
        room(lists.drop_last(), depths.drop_last()) + (if depths.last() < lists.last().len() {
            (lists.last().len() - depths.last()) as nat
        } else {
            0
        })
    }
}

pub proof fn lemma_room_shrinks(lists: Seq<Seq<Seq<char>>>, before: Seq<int>, after: Seq<int>)
    requires
        before.len() == lists.len(),
        after.len() == lists.len(),
        forall|i: int|
            0 <= i < lists.len() ==> #[trigger] after[i] == before[i] || (after[i] == before[i] + 1
                && before[i] + 1 < lists[i].len()),
    ensures
        room(lists, after) <= room(lists, before),
        after != before ==> room(lists, after) < room(lists, before),
    decreases lists.len(),
{
    if lists.len() > 0 {
        let l = lists.drop_last();
        let b = before.drop_last();
        let a = after.drop_last();
        assert forall|i: int| 0 <= i < l.len() implies #[trigger] a[i] == b[i] || (a[i] == b[i] + 1
            && b[i] + 1 < l[i].len()) by {
            assert(after[i] == a[i]);
        }
        lemma_room_shrinks(l, b, a);
        assert(after[lists.len() - 1] == after.last());
        if a == b && after.last() == before.last() {
            assert(after =~= a.push(after.last()));
            assert(before =~= b.push(before.last()));
        }
    } else {
        assert(after =~= before);
    }
}

/// The depths at which names are told apart, as far as they can be.
pub open spec fn settled(lists: Seq<Seq<Seq<char>>>, depths: Seq<int>) -> Seq<int>
    decreases room(lists, depths),
{
    let next = stepped(lists, depths);
    if depths.len() != lists.len() || next == depths {
        depths
    } else {
        proof {
            lemma_room_shrinks(lists, depths, next);
        }
        settled(lists, next)
    }
}

/// A name with a number behind it.
pub open spec fn attempt(base: Seq<char>, n: nat) -> Seq<char> {
    base + "-"@ + text::decimal(n)
}

/// The first number from `n` on that makes a name that is not taken.
pub open spec fn free_number(taken: Seq<Seq<char>>, base: Seq<char>, n: nat) -> nat
    decreases taken.len() + 3 - n,
{
    if n > taken.len() + 2 || !taken.contains(attempt(base, n)) {
        n
    } else {
        free_number(taken, base, n + 1)
    }
}

/// The names, with a number behind each that is taken by an earlier one.
pub open spec fn told_apart(names: Seq<Seq<char>>) -> Seq<Seq<char>>
    decreases names.len(),
{
    if names.len() == 0 {
        Seq::empty()
    } else {
        let before = told_apart(names.drop_last());
        before.push(
            if before.contains(names.last()) {
                attempt(names.last(), free_number(before, names.last(), 2))
            } else {
                names.last()
            },
        )
    }
}

proof fn lemma_attempts_differ(base: Seq<char>, m: nat, n: nat)
    requires
        m != n,
    ensures
        attempt(base, m) != attempt(base, n),
{
    if attempt(base, m) == attempt(base, n) {
        reveal_strlit("-");
        let k = base.len() + 1;
        assert(attempt(base, m).skip(k as int) =~= text::decimal(m));
        assert(attempt(base, n).skip(k as int) =~= text::decimal(n));
        text::law_decimal_reads_back(m);
        text::law_decimal_reads_back(n);
    }
}

/// Numbers whose names are all taken are no more than what is taken.
proof fn lemma_few_numbers_taken(numbers: Set<nat>, taken: Seq<Seq<char>>, base: Seq<char>)
    requires
        numbers.finite(),
        forall|n: nat| #[trigger] numbers.contains(n) ==> taken.contains(attempt(base, n)),
    ensures
        numbers.len() <= taken.len(),
    decreases taken.len(),
{
    if taken.len() == 0 {
        assert forall|n: nat| !numbers.contains(n) by {
            if numbers.contains(n) {
                assert(taken.contains(attempt(base, n)));
            }
        }
        assert(numbers =~= Set::<nat>::empty());
    } else {
        let rest = taken.drop_last();
        if exists|n: nat| numbers.contains(n) && attempt(base, n) == taken.last() {
            let hit = choose|n: nat| numbers.contains(n) && attempt(base, n) == taken.last();
            let left = numbers.remove(hit);
            assert forall|n: nat| #[trigger] left.contains(n) implies rest.contains(
                attempt(base, n),
            ) by {
                lemma_attempts_differ(base, n, hit);
                let name = attempt(base, n);
                let at = taken.index_of(name);
                assert(taken.contains(name));
                assert(rest[at] == name);
            }
            lemma_few_numbers_taken(left, rest, base);
        } else {
            assert forall|n: nat| #[trigger] numbers.contains(n) implies rest.contains(
                attempt(base, n),
            ) by {
                let name = attempt(base, n);
                let at = taken.index_of(name);
                assert(taken.contains(name));
                assert(rest[at] == name);
            }
            lemma_few_numbers_taken(numbers, rest, base);
        }
    }
}

/// The numbers from two up to `n`.
spec fn numbers_below(n: nat) -> Set<nat>
    decreases n,
{
    if n <= 2 {
        Set::empty()
    } else {
        numbers_below((n - 1) as nat).insert((n - 1) as nat)
    }
}

proof fn lemma_numbers_below(n: nat)
    ensures
        numbers_below(n).finite(),
        n >= 2 ==> numbers_below(n).len() == n - 2,
        forall|k: nat| #[trigger] numbers_below(n).contains(k) <==> 2 <= k < n,
    decreases n,
{
    if n > 2 {
        lemma_numbers_below((n - 1) as nat);
    }
}

/// As long as all numbers before `n` are taken, `n` is small.
proof fn lemma_free_number_is_near(taken: Seq<Seq<char>>, base: Seq<char>, n: nat)
    requires
        2 <= n,
        forall|k: nat| 2 <= k < n ==> taken.contains(#[trigger] attempt(base, k)),
    ensures
        n <= taken.len() + 2,
{
    lemma_numbers_below(n);
    lemma_few_numbers_taken(numbers_below(n), taken, base);
}

proof fn lemma_free_number(taken: Seq<Seq<char>>, base: Seq<char>, n: nat)
    requires
        2 <= n,
        forall|k: nat| 2 <= k < n ==> taken.contains(#[trigger] attempt(base, k)),
    ensures
        !taken.contains(attempt(base, free_number(taken, base, n))),
        free_number(taken, base, n) <= taken.len() + 2,
    decreases taken.len() + 3 - n,
{
    lemma_free_number_is_near(taken, base, n);
    if taken.contains(attempt(base, n)) {
        assert forall|k: nat| 2 <= k < n + 1 implies taken.contains(
            #[trigger] attempt(base, k),
        ) by {
            if k == n {
                assert(taken.contains(attempt(base, n)));
            }
        }
        lemma_free_number(taken, base, n + 1);
    }
}

/// No two roots have the same short name.
pub proof fn law_aliases_are_distinct(names: Seq<Seq<char>>)
    ensures
        told_apart(names).no_duplicates(),
        told_apart(names).len() == names.len(),
    decreases names.len(),
{
    if names.len() > 0 {
        let before = told_apart(names.drop_last());
        law_aliases_are_distinct(names.drop_last());
        lemma_free_number(before, names.last(), 2);
        let after = told_apart(names);
        assert forall|i: int, j: int| 0 <= i < after.len() && 0 <= j < after.len() && i
            != j implies after[i] != after[j] by {
            let last = before.len() as int;
            if i < last && j < last {
                assert(before[i] != before[j]);
            } else if i < last {
                assert(before.contains(before[i]));
            } else {
                assert(before.contains(before[j]));
            }
        }
    }
}

/// A root that shares its name with no earlier one keeps it without a number.
pub proof fn law_distinct_names_need_no_number(names: Seq<Seq<char>>)
    requires
        names.no_duplicates(),
    ensures
        told_apart(names) == names,
    decreases names.len(),
{
    if names.len() > 0 {
        let front = names.drop_last();
        assert forall|i: int, j: int| 0 <= i < front.len() && 0 <= j < front.len() && i
            != j implies front[i] != front[j] by {
            assert(names[i] != names[j]);
        }
        law_distinct_names_need_no_number(front);
        assert(!front.contains(names.last())) by {
            if front.contains(names.last()) {
                let i = front.index_of(names.last());
                assert(names[i] == names[names.len() - 1]);
            }
        }
        assert(told_apart(names) =~= names);
    } else {
        assert(told_apart(names) =~= names);
    }
}

/// Whether a name stands in a list, at another place than `i`.
fn occurs_elsewhere(names: &Vec<String>, i: usize) -> (yes: bool)
    requires
        i < names@.len(),
    ensures
        yes == collides(text::texts(names@), i as int),
{
    let ghost all = text::texts(names@);
    let mut j: usize = 0;
    while j < names.len()
        invariant
            j <= names@.len(),
            i < names@.len(),
            all == text::texts(names@),
            forall|k: int| 0 <= k < j && k != i ==> all[k] != all[i as int],
        decreases names@.len() - j,
    {
        if j != i && text::same_text(names[j].as_str(), names[i].as_str()) {
            assert(all[j as int] == all[i as int]);
            return true;
        }
        j = j + 1;
    }
    false
}

fn component_at_depth(names: &Vec<String>, depth: usize) -> (name: String)
    ensures
        name@ == name_at(text::texts(names@), depth as int),
{
    let n: usize = names.len();
    if n == 0 {
        return "root".to_owned();
    }
    if depth < n {
        names[n - 1 - depth].clone()
    } else {
        names[0].clone()
    }
}

/// The names of the components of each root.
pub open spec fn component_lists(roots: Seq<Seq<char>>) -> Seq<Seq<Seq<char>>> {
    roots.map_values(|root: Seq<char>| path::names_of(root))
}

/// A list of lists of texts.
spec fn list_views(lists: Seq<Vec<String>>) -> Seq<Seq<Seq<char>>> {
    lists.map_values(|l: Vec<String>| text::texts(l@))
}

spec fn depth_views(depths: Seq<usize>) -> Seq<int> {
    depths.map_values(|d: usize| d as int)
}

fn names_of_depths(lists: &Vec<Vec<String>>, depths: &Vec<usize>) -> (names: Vec<String>)
    requires
        depths@.len() == lists@.len(),
    ensures
        text::texts(names@) == names_at(list_views(lists@), depth_views(depths@)),
        names@.len() == lists@.len(),
{
    let ghost whole = names_at(list_views(lists@), depth_views(depths@));
    let mut out: Vec<String> = Vec::new();
    let mut i: usize = 0;
    assert(text::texts(out@) =~= whole.take(0));
    while i < lists.len()
        invariant
            i <= lists@.len(),
            depths@.len() == lists@.len(),
            whole == names_at(list_views(lists@), depth_views(depths@)),
            text::texts(out@) == whole.take(i as int),
        decreases lists@.len() - i,
    {
        let name = component_at_depth(&lists[i], depths[i]);
        assert(whole[i as int] == name@);
        assert(whole.take(i + 1) =~= whole.take(i as int).push(name@));
        proof {
            text::lemma_texts_push(out@, name);
        }
        out.push(name);
        i = i + 1;
    }
    assert(whole.take(whole.len() as int) =~= whole);
    assert(text::texts(out@).len() == out@.len());
    out
}

/// The depths after one step, and whether there was one.
fn step(lists: &Vec<Vec<String>>, depths: &Vec<usize>) -> (next: (Vec<usize>, bool))
    requires
        depths@.len() == lists@.len(),
    ensures
        next.0@.len() == lists@.len(),
        depth_views(next.0@) == stepped(list_views(lists@), depth_views(depths@)),
        next.1 == (depth_views(next.0@) != depth_views(depths@)),
{
    let ghost views = list_views(lists@);
    let ghost before = depth_views(depths@);
    let ghost whole = stepped(views, before);
    let names = names_of_depths(lists, depths);
    let mut out: Vec<usize> = Vec::new();
    let mut progressed = false;
    let mut i: usize = 0;
    assert(depth_views(out@) =~= whole.take(0));
    while i < lists.len()
        invariant
            i <= lists@.len(),
            depths@.len() == lists@.len(),
            names@.len() == lists@.len(),
            views == list_views(lists@),
            before == depth_views(depths@),
            whole == stepped(views, before),
            text::texts(names@) == names_at(views, before),
            out@.len() == i,
            depth_views(out@) == whole.take(i as int),
            progressed ==> exists|k: int| 0 <= k < i && whole[k] != before[k],
            !progressed ==> forall|k: int| 0 <= k < i ==> whole[k] == before[k],
        decreases lists@.len() - i,
    {
        let depth: usize = depths[i];
        let n: usize = lists[i].len();
        assert(views[i as int].len() == n);
        let moves = occurs_elsewhere(&names, i) && depth < n && n - depth > 1;
        let next: usize = if moves {
            depth + 1
        } else {
            depth
        };
        assert(whole[i as int] == next);
        let ghost old_out = out@;
        out.push(next);
        assert(depth_views(out@) =~= depth_views(old_out).push(next as int));
        assert(whole.take(i + 1) =~= whole.take(i as int).push(whole[i as int]));
        if moves {
            assert(whole[i as int] != before[i as int]);
            progressed = true;
        }
        i = i + 1;
    }
    assert(whole.take(whole.len() as int) =~= whole);
    proof {
        if !progressed {
            assert(whole =~= before);
        }
    }
    (out, progressed)
}

/// The names, with a number behind each that is taken by an earlier one.
fn tell_apart(names: Vec<String>) -> (out: Vec<String>)
    ensures
        text::texts(out@) == told_apart(text::texts(names@)),
        out@.len() == names@.len(),
{
    let ghost all = text::texts(names@);
    let mut out: Vec<String> = Vec::new();
    let mut i: usize = 0;
    assert(all.take(0) =~= Seq::<Seq<char>>::empty());
    assert(text::texts(out@) =~= Seq::<Seq<char>>::empty());
    while i < names.len()
        invariant
            i <= names@.len(),
            all == text::texts(names@),
            text::texts(out@) == told_apart(all.take(i as int)),
            out@.len() == i,
        decreases names@.len() - i,
    {
        assert(all.take(i + 1).drop_last() =~= all.take(i as int));
        assert(all.take(i + 1).last() == names@[i as int]@);
        let name = if text::has_text(&out, names[i].as_str()) {
            numbered(&out, names[i].as_str())
        } else {
            names[i].clone()
        };
        proof {
            text::lemma_texts_push(out@, name);
        }
        out.push(name);
        i = i + 1;
    }
    assert(all.take(all.len() as int) =~= all);
    out
}

/// A name with the first number that makes it a name that is not taken.
fn numbered(taken: &Vec<String>, base: &str) -> (name: String)
    ensures
        name@ == attempt(base@, free_number(text::texts(taken@), base@, 2)),
{
    let ghost all = text::texts(taken@);
    let count: usize = taken.len();
    assert(all.len() == count);
    let mut next: u128 = 2;
    loop
        invariant
            all == text::texts(taken@),
            all.len() == count,
            2 <= next <= count + 2,
            forall|k: nat| 2 <= k < next ==> all.contains(#[trigger] attempt(base@, k)),
            free_number(all, base@, 2) == free_number(all, base@, next as nat),
        decreases count + 3 - next,
    {
        let mut name = base.to_owned();
        name.append("-");
        let digits = decimal_wide(next);
        name.append(digits.as_str());
        assert(name@ == attempt(base@, next as nat));
        if !text::has_text(taken, name.as_str()) {
            return name;
        }
        proof {
            assert forall|k: nat| 2 <= k < next + 1 implies all.contains(
                #[trigger] attempt(base@, k),
            ) by {
                if k == next {
                    assert(all.contains(attempt(base@, next as nat)));
                }
            }
            lemma_free_number_is_near(all, base@, (next + 1) as nat);
        }
        next = next + 1;
    }
}

/// `n` in decimal.
fn decimal_wide(n: u128) -> (out: String)
    ensures
        out@ == text::decimal(n as nat),
    decreases n,
{
    let mut out = String::new();
    if n >= 10 {
        out = decimal_wide(n / 10);
    }
    let digit = text::decimal_text((n % 10) as u64);
    out.append(digit.as_str());
    assert(n < 10 ==> out@ =~= text::decimal(n as nat));
    assert(text::decimal((n % 10) as nat) =~= seq![text::digit_char((n % 10) as int)]);
    assert(out@ =~= text::decimal(n as nat));
    out
}

/// The short names of roots.
pub open spec fn aliases_of(roots: Seq<Seq<char>>) -> Seq<Seq<char>> {
    let lists = component_lists(roots);
    told_apart(
        names_at(lists, settled(lists, Seq::new(roots.len(), |i: int| 0int))),
    )
}

/// The short names of roots: the last name of each. Where names collide, these
/// roots are named after directories further up, until they can be told apart;
/// where nothing tells them apart, a number does.
pub fn root_aliases(roots: &Vec<String>) -> (aliases: Vec<String>)
    ensures
        text::texts(aliases@) == aliases_of(text::texts(roots@)),
        aliases@.len() == roots@.len(),
{
    let ghost all = text::texts(roots@);
    let ghost lists_goal = component_lists(all);
    let mut lists: Vec<Vec<String>> = Vec::new();
    let mut depths: Vec<usize> = Vec::new();
    let mut i: usize = 0;
    assert(list_views(lists@) =~= lists_goal.take(0));
    while i < roots.len()
        invariant
            i <= roots@.len(),
            all == text::texts(roots@),
            lists_goal == component_lists(all),
            lists@.len() == i,
            depths@.len() == i,
            list_views(lists@) == lists_goal.take(i as int),
            forall|k: int| 0 <= k < i ==> #[trigger] depths@[k] == 0,
        decreases roots@.len() - i,
    {
        let names = path::named_components(roots[i].as_str());
        let ghost before = lists@;
        assert(lists_goal[i as int] == text::texts(names@));
        lists.push(names);
        assert(list_views(lists@) =~= list_views(before).push(lists_goal[i as int]));
        assert(lists_goal.take(i + 1) =~= lists_goal.take(i as int).push(lists_goal[i as int]));
        depths.push(0);
        i = i + 1;
    }
    assert(lists_goal.take(lists_goal.len() as int) =~= lists_goal);
    let ghost zeros = Seq::new(all.len(), |i: int| 0int);
    assert(depth_views(depths@) =~= zeros);
    let ghost goal = settled(lists_goal, zeros);
    loop
        invariant
            depths@.len() == lists@.len(),
            lists@.len() == roots@.len(),
            list_views(lists@) == lists_goal,
            settled(lists_goal, depth_views(depths@)) == goal,
        ensures
            depths@.len() == lists@.len(),
            depth_views(depths@) == goal,
        decreases room(lists_goal, depth_views(depths@)),
    {
        let next = step(&lists, &depths);
        if !next.1 {
            break;
        }
        proof {
            lemma_room_shrinks(lists_goal, depth_views(depths@), depth_views(next.0@));
        }
        depths = next.0;
    }
    let names = names_of_depths(&lists, &depths);
    tell_apart(names)
}

/// The short name of a root is the last name of its path, where no two roots end
/// in the same name.
pub proof fn law_last_names_are_the_short_names(roots: Seq<Seq<char>>)
    requires
        forall|i: int| 0 <= i < roots.len() ==> path::names_of(#[trigger] roots[i]).len() > 0,
        forall|i: int, j: int|
            0 <= i < j < roots.len() ==> path::names_of(#[trigger] roots[i]).last()
                != path::names_of(#[trigger] roots[j]).last(),
    ensures
        aliases_of(roots) == roots.map_values(|root: Seq<char>| path::names_of(root).last()),
{
    let lists = component_lists(roots);
    let depths = Seq::new(roots.len(), |i: int| 0int);
    let names = names_at(lists, depths);
    assert forall|i: int| 0 <= i < roots.len() implies #[trigger] names[i] == path::names_of(
        roots[i],
    ).last() by {
        assert(lists[i] == path::names_of(roots[i]));
    }
    assert forall|i: int, j: int| 0 <= i < names.len() && 0 <= j < names.len() && i
        != j implies names[i] != names[j] by {
        if i < j {
            assert(path::names_of(roots[i]).last() != path::names_of(roots[j]).last());
        } else {
            assert(path::names_of(roots[j]).last() != path::names_of(roots[i]).last());
        }
    }
    assert(stepped(lists, depths) =~= depths);
    law_distinct_names_need_no_number(names);
    assert(names =~= roots.map_values(|root: Seq<char>| path::names_of(root).last()));
}

/// Where roots are told apart by names further up, each root whose name another one
/// still has stands at the start of its path already.
pub proof fn law_names_are_told_apart(lists: Seq<Seq<Seq<char>>>, depths: Seq<int>)
    requires
        depths.len() == lists.len(),
    ensures
        ({
            let at = settled(lists, depths);
            &&& at.len() == lists.len()
            &&& forall|i: int|
                0 <= i < lists.len() && collides(names_at(lists, at), i) ==> (#[trigger] at[i]) + 1
                    >= lists[i].len()
            &&& forall|i: int| 0 <= i < lists.len() ==> (#[trigger] at[i]) >= depths[i]
        }),
    decreases room(lists, depths),
{
    let next = stepped(lists, depths);
    if next == depths {
        assert forall|i: int|
            0 <= i < lists.len() && collides(names_at(lists, depths), i) implies (
        #[trigger] depths[i]) + 1 >= lists[i].len() by {
            assert(next[i] == depths[i]);
        }
    } else {
        lemma_room_shrinks(lists, depths, next);
        law_names_are_told_apart(lists, next);
        let at = settled(lists, next);
        assert forall|i: int| 0 <= i < lists.len() implies (#[trigger] at[i]) >= depths[i] by {
            assert(at[i] >= next[i]);
            assert(next[i] >= depths[i]);
        }
    }
}

/// A name that an earlier root has already gets the first free number from two on.
pub proof fn law_first_free_number(names: Seq<Seq<char>>)
    requires
        names.len() > 0,
        told_apart(names.drop_last()).contains(names.last()),
    ensures
        exists|n: nat| #[trigger] is_first_free(told_apart(names.drop_last()), names.last(), n)
            && told_apart(names).last() == names.last() + seq!['-'] + text::decimal(n),
{
    let taken = told_apart(names.drop_last());
    let base = names.last();
    reveal_strlit("-");
    assert("-"@ =~= seq!['-']);
    lemma_free_number(taken, base, 2);
    lemma_numbers_before_are_taken(taken, base, 2);
    assert(is_first_free(taken, base, free_number(taken, base, 2)));
}

/// Whether a number is the first from two on that makes a name not taken yet.
pub open spec fn is_first_free(taken: Seq<Seq<char>>, base: Seq<char>, n: nat) -> bool {
    &&& n >= 2
    &&& !taken.contains(attempt(base, n))
    &&& forall|k: nat| 2 <= k < n ==> taken.contains(#[trigger] attempt(base, k))
}

proof fn lemma_numbers_before_are_taken(taken: Seq<Seq<char>>, base: Seq<char>, n: nat)
    ensures
        free_number(taken, base, n) >= n,
        forall|k: nat|
            n <= k < free_number(taken, base, n) ==> taken.contains(#[trigger] attempt(base, k)),
    decreases taken.len() + 3 - n,
{
    if n <= taken.len() + 2 && taken.contains(attempt(base, n)) {
        lemma_numbers_before_are_taken(taken, base, n + 1);
    }
}

} // verus!
