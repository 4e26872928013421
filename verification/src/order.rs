//! The order of texts, character by character, and the order in which a
//! list of names is to be visited so that they come out sorted.

use crate::text::views;
use vstd::prelude::*;

verus! {

/// Whether `a` comes strictly before `b`: at the first place where they
/// differ `a` has the smaller character, or `a` ends there and `b` does not.
pub open spec fn lex_lt(a: Seq<char>, b: Seq<char>) -> bool
    decreases a.len(),
{
    if b.len() == 0 {
        false
    } else if a.len() == 0 {
        true
    } else if a[0] != b[0] {
        a[0] < b[0]
    } else {
        lex_lt(a.drop_first(), b.drop_first())
    }
}

/// How many of the names that `order` starts with do not come after `name`.
/// `order` holds positions in `names`.
pub open spec fn place(names: Seq<Seq<char>>, order: Seq<int>, name: Seq<char>) -> int
    decreases order.len(),
{
    if order.len() == 0 || lex_lt(name, names[order[0]]) {
        0
    } else {
        1 + place(names, order.drop_first(), name)
    }
}

/// The first `count` positions of `names`, in the order of the names they
/// hold; positions with equal names stay in ascending order.
pub open spec fn order_upto(names: Seq<Seq<char>>, count: nat) -> Seq<int>
    decreases count,
{
    if count == 0 {
        Seq::empty()
    } else {
        let before = order_upto(names, (count - 1) as nat);
        before.insert(place(names, before, names[count - 1]), count - 1)
    }
}

/// The positions of `names` in the order of the names they hold.
pub open spec fn order_of(names: Seq<Seq<char>>) -> Seq<int> {
    order_upto(names, names.len())
}

/// The items of `items` at the positions that `order` lists.
pub open spec fn arrange<A>(items: Seq<A>, order: Seq<int>) -> Seq<A> {
    Seq::new(order.len(), |i: int| items[order[i]])
}

/// The positions that a vector of indices holds.
pub open spec fn positions(order: Seq<usize>) -> Seq<int> {
    order.map_values(|at: usize| at as int)
}

/// Whether `order` lists each of the positions below `count` exactly once.
pub open spec fn is_permutation(order: Seq<int>, count: nat) -> bool {
    &&& order.len() == count
    &&& forall|i: int| 0 <= i < order.len() ==> 0 <= #[trigger] order[i] < count
    &&& forall|i: int, j: int| 0 <= i < j < order.len() ==> order[i] != order[j]
}

/// Whether the names at the positions that `order` lists never step down,
/// and equal names come by ascending position.
pub open spec fn is_sorted(names: Seq<Seq<char>>, order: Seq<int>) -> bool {
    forall|i: int, j: int|
        0 <= i < j < order.len() ==> {
            ||| lex_lt(names[#[trigger] order[i]], names[#[trigger] order[j]])
            ||| (names[order[i]] == names[order[j]] && order[i] < order[j])
        }
}

/// No text comes before itself.
pub proof fn lemma_lex_irreflexive(a: Seq<char>)
    ensures
        !lex_lt(a, a),
    decreases a.len(),
{
    if a.len() > 0 {
        lemma_lex_irreflexive(a.drop_first());
    }
}

/// What comes before a text comes before all that the text comes before.
pub proof fn lemma_lex_transitive(a: Seq<char>, b: Seq<char>, c: Seq<char>)
    requires
        lex_lt(a, b),
        lex_lt(b, c),
    ensures
        lex_lt(a, c),
    decreases a.len(),
{
    if a.len() > 0 && a[0] == b[0] && b[0] == c[0] {
        lemma_lex_transitive(a.drop_first(), b.drop_first(), c.drop_first());
    }
}

/// Of two texts one comes before the other, or they are the same text.
pub proof fn lemma_lex_total(a: Seq<char>, b: Seq<char>)
    ensures
        lex_lt(a, b) || lex_lt(b, a) || a == b,
    decreases a.len(),
{
    if a.len() > 0 && b.len() > 0 && a[0] == b[0] {
        lemma_lex_total(a.drop_first(), b.drop_first());
        if a.drop_first() == b.drop_first() {
            assert(a =~= seq![a[0]] + a.drop_first());
            assert(b =~= seq![b[0]] + b.drop_first());
        }
    } else if a.len() == 0 && b.len() == 0 {
        assert(a =~= b);
    }
}

proof fn lemma_place_bounds(names: Seq<Seq<char>>, order: Seq<int>, name: Seq<char>)
    ensures
        0 <= place(names, order, name) <= order.len(),
    decreases order.len(),
{
    if order.len() == 0 || lex_lt(name, names[order[0]]) {
    } else {
        lemma_place_bounds(names, order.drop_first(), name);
    }
}

/// In a sorted order, the names before the place of `name` do not come
/// after it, and the names from that place on do.
proof fn lemma_place_parts(names: Seq<Seq<char>>, order: Seq<int>, name: Seq<char>)
    requires
        is_sorted(names, order),
    ensures
        forall|i: int|
            0 <= i < place(names, order, name) ==> !lex_lt(name, names[#[trigger] order[i]]),
        forall|i: int|
            place(names, order, name) <= i < order.len() ==> lex_lt(
                name,
                names[#[trigger] order[i]],
            ),
    decreases order.len(),
{
    lemma_place_bounds(names, order, name);
    if order.len() == 0 {
    } else if lex_lt(name, names[order[0]]) {
        assert forall|i: int| 0 <= i < order.len() implies lex_lt(
            name,
            names[#[trigger] order[i]],
        ) by {
            if i > 0 {
                if names[order[0]] != names[order[i]] {
                    lemma_lex_transitive(name, names[order[0]], names[order[i]]);
                }
            }
        }
    } else {
        let rest = order.drop_first();
        assert(is_sorted(names, rest)) by {
            assert forall|i: int, j: int| 0 <= i < j < rest.len() implies {
                ||| lex_lt(names[#[trigger] rest[i]], names[#[trigger] rest[j]])
                ||| (names[rest[i]] == names[rest[j]] && rest[i] < rest[j])
            } by {
                assert(rest[i] == order[i + 1]);
                assert(rest[j] == order[j + 1]);
            }
        }
        lemma_place_parts(names, rest, name);
        assert forall|i: int| 0 <= i < place(names, order, name) implies !lex_lt(
            name,
            names[#[trigger] order[i]],
        ) by {
            if i > 0 {
                assert(order[i] == rest[i - 1]);
            }
        }
        assert forall|i: int| place(names, order, name) <= i < order.len() implies lex_lt(
            name,
            names[#[trigger] order[i]],
        ) by {
            assert(order[i] == rest[i - 1]);
        }
    }
}

/// The order of the first `count` names lists each of their positions
/// once, and by it the names never step down.
pub proof fn lemma_order_upto(names: Seq<Seq<char>>, count: nat)
    requires
        count <= names.len(),
    ensures
        is_permutation(order_upto(names, count), count),
        is_sorted(names, order_upto(names, count)),
        forall|at: int| 0 <= at < count ==> order_upto(names, count).contains(at),
    decreases count,
{
    if count > 0 {
        let before = order_upto(names, (count - 1) as nat);
        let name = names[count - 1];
        let at = place(names, before, name);
        let order = order_upto(names, count);
        lemma_order_upto(names, (count - 1) as nat);
        lemma_place_bounds(names, before, name);
        lemma_place_parts(names, before, name);
        assert(order == before.insert(at, count - 1));
        assert forall|i: int| 0 <= i < order.len() implies 0 <= #[trigger] order[i] < count by {
            if i < at {
                assert(order[i] == before[i]);
            } else if i > at {
                assert(order[i] == before[i - 1]);
            }
        }
        assert forall|held: int| 0 <= held < count implies order.contains(held) by {
            if held == count - 1 {
                assert(order[at] == held);
            } else {
                assert(before.contains(held));
                let was = choose|was: int| 0 <= was < before.len() && before[was] == held;
                if was < at {
                    assert(order[was] == held);
                } else {
                    assert(order[was + 1] == held);
                }
            }
        }
        assert forall|i: int, j: int| 0 <= i < j < order.len() implies order[i] != order[j] by {
            let bi = if i < at {
                i
            } else {
                i - 1
            };
            let bj = if j < at {
                j
            } else {
                j - 1
            };
            if i != at && j != at {
                assert(order[i] == before[bi]);
                assert(order[j] == before[bj]);
            } else if i == at {
                assert(order[j] == before[bj]);
            } else {
                assert(order[i] == before[bi]);
            }
        }
        assert forall|i: int, j: int| 0 <= i < j < order.len() implies {
            ||| lex_lt(names[#[trigger] order[i]], names[#[trigger] order[j]])
            ||| (names[order[i]] == names[order[j]] && order[i] < order[j])
        } by {
            let bi = if i < at {
                i
            } else {
                i - 1
            };
            let bj = if j < at {
                j
            } else {
                j - 1
            };
            if i != at && j != at {
                assert(order[i] == before[bi]);
                assert(order[j] == before[bj]);
            } else if i == at {
                assert(order[j] == before[bj]);
                assert(lex_lt(name, names[before[bj]]));
            } else {
                assert(order[i] == before[bi]);
                assert(!lex_lt(name, names[before[bi]]));
                lemma_lex_total(names[before[bi]], name);
            }
        }
    }
}

/// The order of `names` lists each position once, and by it the names
/// never step down.
pub proof fn lemma_order_of(names: Seq<Seq<char>>)
    ensures
        is_permutation(order_of(names), names.len()),
        is_sorted(names, order_of(names)),
        forall|at: int| 0 <= at < names.len() ==> order_of(names).contains(at),
{
    lemma_order_upto(names, names.len());
}

/// Whether no two of `names` are the same.
#[verifier::opaque]
pub open spec fn all_differ(names: Seq<Seq<char>>) -> bool {
    forall|i: int, j: int| 0 <= i < j < names.len() ==> names[i] != names[j]
}

/// Whether each item of `a`, with its name, is an item of `b` with the
/// same name.
#[verifier::opaque]
pub open spec fn each_is_among<A>(
    a: Seq<A>,
    a_names: Seq<Seq<char>>,
    b: Seq<A>,
    b_names: Seq<Seq<char>>,
) -> bool {
    forall|i: int|
        0 <= i < a.len() ==> exists|j: int|
            0 <= j < b.len() && b[j] == #[trigger] a[i] && b_names[j] == a_names[i]
}

/// Each place of the order holds a position of the names.
proof fn lemma_order_in_range(names: Seq<Seq<char>>, at: int)
    requires
        0 <= at < names.len(),
    ensures
        order_of(names).len() == names.len(),
        0 <= order_of(names)[at] < names.len(),
{
    lemma_order_of(names);
}

/// Where no two names are the same, the names come in strictly ascending
/// order.
proof fn lemma_strictly_sorted(names: Seq<Seq<char>>, first: int, second: int)
    requires
        all_differ(names),
        0 <= first < second < names.len(),
    ensures
        lex_lt(names[order_of(names)[first]], names[order_of(names)[second]]),
{
    reveal(all_differ);
    lemma_order_of(names);
    let order = order_of(names);
    let (i, j) = (order[first], order[second]);
    assert(i != j);
    if i < j {
        assert(names[i] != names[j]);
    } else {
        assert(names[j] != names[i]);
    }
}

/// The place at which an item of one list comes out of the other.
proof fn lemma_place_in_other<A>(
    a: Seq<A>,
    a_names: Seq<Seq<char>>,
    b: Seq<A>,
    b_names: Seq<Seq<char>>,
    at: int,
) -> (place: int)
    requires
        a.len() == a_names.len(),
        b.len() == b_names.len(),
        each_is_among(a, a_names, b, b_names),
        0 <= at < a.len(),
    ensures
        0 <= place < b.len(),
        b[order_of(b_names)[place]] == a[at],
        b_names[order_of(b_names)[place]] == a_names[at],
{
    reveal(each_is_among);
    lemma_order_of(b_names);
    let order = order_of(b_names);
    let found = choose|j: int| 0 <= j < b.len() && b[j] == a[at] && b_names[j] == a_names[at];
    assert(order.contains(found));
    choose|place: int| 0 <= place < order.len() && order[place] == found
}

/// Whether two lists agree on the item, and on its name, that comes out at
/// place `at` in the order of the names.
pub open spec fn same_at<A>(
    a: Seq<A>,
    a_names: Seq<Seq<char>>,
    b: Seq<A>,
    b_names: Seq<Seq<char>>,
    at: int,
) -> bool {
    &&& a[order_of(a_names)[at]] == b[order_of(b_names)[at]]
    &&& a_names[order_of(a_names)[at]] == b_names[order_of(b_names)[at]]
}

/// Two lists of the same named items, in whatever order each holds them,
/// agree on the first `upto` items that come out in the order of the names.
proof fn lemma_same_upto<A>(
    a: Seq<A>,
    a_names: Seq<Seq<char>>,
    b: Seq<A>,
    b_names: Seq<Seq<char>>,
    upto: int,
)
    requires
        a.len() == a_names.len() == b.len() == b_names.len(),
        all_differ(a_names),
        all_differ(b_names),
        each_is_among(a, a_names, b, b_names),
        each_is_among(b, b_names, a, a_names),
        0 <= upto <= a.len(),
    ensures
        forall|k: int| 0 <= k < upto ==> #[trigger] same_at(a, a_names, b, b_names, k),
    decreases upto,
{
    if upto > 0 {
        let k = upto - 1;
        lemma_same_upto(a, a_names, b, b_names, k);
        lemma_order_in_range(a_names, k);
        lemma_order_in_range(b_names, k);
        let oa = order_of(a_names);
        let ob = order_of(b_names);
        let p = lemma_place_in_other(a, a_names, b, b_names, oa[k]);
        let q = lemma_place_in_other(b, b_names, a, a_names, ob[k]);
        if p < k {
            assert(same_at(a, a_names, b, b_names, p));
            lemma_strictly_sorted(a_names, p, k);
            lemma_lex_irreflexive(a_names[oa[k]]);
        }
        if q < k {
            assert(same_at(a, a_names, b, b_names, q));
            lemma_strictly_sorted(b_names, q, k);
            lemma_lex_irreflexive(b_names[ob[k]]);
        }
        if p > k && q > k {
            lemma_strictly_sorted(b_names, k, p);
            lemma_strictly_sorted(a_names, k, q);
            lemma_lex_transitive(b_names[ob[k]], a_names[oa[k]], b_names[ob[k]]);
            lemma_lex_irreflexive(b_names[ob[k]]);
        }
        assert(same_at(a, a_names, b, b_names, k));
    }
}

/// The order in which a list holds its items does not show in what comes
/// out in the order of the names, where each item has a name of its own:
/// two lists of the same named items come out the same.
pub proof fn lemma_listing_is_immaterial<A>(
    a: Seq<A>,
    a_names: Seq<Seq<char>>,
    b: Seq<A>,
    b_names: Seq<Seq<char>>,
)
    requires
        a.len() == a_names.len() == b.len() == b_names.len(),
        all_differ(a_names),
        all_differ(b_names),
        each_is_among(a, a_names, b, b_names),
        each_is_among(b, b_names, a, a_names),
    ensures
        arrange(a, order_of(a_names)) == arrange(b, order_of(b_names)),
        arrange(a_names, order_of(a_names)) == arrange(b_names, order_of(b_names)),
{
    lemma_same_upto(a, a_names, b, b_names, a.len() as int);
    let sorted_a = arrange(a, order_of(a_names));
    let sorted_b = arrange(b, order_of(b_names));
    assert(order_of(a_names).len() == a.len() && order_of(b_names).len() == a.len()) by {
        lemma_order_of(a_names);
        lemma_order_of(b_names);
    }
    assert forall|k: int| 0 <= k < sorted_a.len() implies sorted_a[k] == sorted_b[k] by {
        assert(same_at(a, a_names, b, b_names, k));
    }
    assert(sorted_a =~= sorted_b);
    let names_a = arrange(a_names, order_of(a_names));
    let names_b = arrange(b_names, order_of(b_names));
    assert forall|k: int| 0 <= k < names_a.len() implies names_a[k] == names_b[k] by {
        assert(same_at(a, a_names, b, b_names, k));
    }
    assert(names_a =~= names_b);
}

/// Whether `a` comes strictly before `b`.
pub fn less(a: &Vec<char>, b: &Vec<char>) -> (out: bool)
    ensures
        out == lex_lt(a@, b@),
{
    let mut i: usize = 0;
    assert(a@.skip(0) == a@);
    assert(b@.skip(0) == b@);
    while i < a.len() && i < b.len()
        invariant
            i <= a@.len(),
            i <= b@.len(),
            lex_lt(a@, b@) == lex_lt(a@.skip(i as int), b@.skip(i as int)),
        decreases a@.len() - i,
    {
        if a[i] != b[i] {
            return a[i] < b[i];
        }
        assert(a@.skip(i as int).drop_first() == a@.skip(i + 1));
        assert(b@.skip(i as int).drop_first() == b@.skip(i + 1));
        i += 1;
    }
    i < b.len()
}

/// The positions of `names` in the order of the names they hold; positions
/// with equal names stay in ascending order.
pub fn sort_order(names: &Vec<Vec<char>>) -> (order: Vec<usize>)
    ensures
        positions(order@) == order_of(views(names@)),
        is_permutation(positions(order@), names@.len()),
        is_sorted(views(names@), positions(order@)),
{
    let ghost all = views(names@);
    let mut order: Vec<usize> = Vec::new();
    let mut count: usize = 0;
    assert(positions(order@) == Seq::<int>::empty());
    while count < names.len()
        invariant
            count <= names@.len(),
            all == views(names@),
            positions(order@) == order_upto(all, count as nat),
        decreases names@.len() - count,
    {
        proof {
            lemma_order_upto(all, count as nat);
        }
        let ghost before = positions(order@);
        let ghost name = all[count as int];
        let mut at: usize = 0;
        assert(before.skip(0) == before);
        while at < order.len() && !less(&names[count], &names[order[at]])
            invariant
                at <= order@.len() == count < names@.len(),
                all == views(names@),
                name == all[count as int],
                before == positions(order@),
                is_permutation(before, count as nat),
                place(all, before, name) == at + place(all, before.skip(at as int), name),
            decreases order@.len() - at,
        {
            assert(before[at as int] == order@[at as int]);
            assert(before.skip(at as int)[0] == before[at as int]);
            assert(before.skip(at as int).drop_first() == before.skip(at + 1));
            at += 1;
        }
        proof {
            if at < order@.len() {
                assert(before[at as int] == order@[at as int]);
                assert(before.skip(at as int)[0] == before[at as int]);
            }
            assert(place(all, before, name) == at);
            assert(positions(order@.insert(at as int, count)) == before.insert(
                at as int,
                count as int,
            ));
        }
        order.insert(at, count);
        count += 1;
    }
    proof {
        lemma_order_of(all);
    }
    order
}

} // verus!
