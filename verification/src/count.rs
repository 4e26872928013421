//! Counting the numbers below a bound that have a property.

use vstd::prelude::*;

verus! {

/// How many of the numbers from zero up to, and without, `upto` satisfy
/// `holds`.
pub open spec fn count_in(holds: spec_fn(int) -> bool, upto: nat) -> nat
    decreases upto,
{
    if upto == 0 {
        0
    } else {
        count_in(holds, (upto - 1) as nat) + if holds(upto - 1) {
            1nat
        } else {
            0nat
        }
    }
}

/// Two properties that the same numbers have are had by as many.
pub proof fn lemma_count_same(p: spec_fn(int) -> bool, q: spec_fn(int) -> bool, upto: nat)
    requires
        forall|k: int| 0 <= k < upto ==> #[trigger] p(k) == q(k),
    ensures
        count_in(p, upto) == count_in(q, upto),
    decreases upto,
{
    if upto > 0 {
        lemma_count_same(p, q, (upto - 1) as nat);
    }
}

/// A property that no number has is had by none.
pub proof fn lemma_count_none(p: spec_fn(int) -> bool, upto: nat)
    requires
        forall|k: int| 0 <= k < upto ==> !#[trigger] p(k),
    ensures
        count_in(p, upto) == 0,
    decreases upto,
{
    if upto > 0 {
        lemma_count_none(p, (upto - 1) as nat);
    }
}

/// Where some numbers are counted, one of them has the property.
pub proof fn lemma_count_some(p: spec_fn(int) -> bool, upto: nat) -> (found: int)
    requires
        count_in(p, upto) > 0,
    ensures
        0 <= found < upto,
        p(found),
    decreases upto,
{
    if p(upto - 1) {
        upto - 1
    } else {
        lemma_count_some(p, (upto - 1) as nat)
    }
}

/// A property that only a part of the numbers with another property have
/// is had by no more of them.
pub proof fn lemma_count_at_most(p: spec_fn(int) -> bool, q: spec_fn(int) -> bool, upto: nat)
    requires
        forall|k: int| 0 <= k < upto && #[trigger] p(k) ==> q(k),
    ensures
        count_in(p, upto) <= count_in(q, upto),
    decreases upto,
{
    if upto > 0 {
        lemma_count_at_most(p, q, (upto - 1) as nat);
    }
}

/// Taking one number out of those that have a property leaves one less.
pub proof fn lemma_count_without(
    p: spec_fn(int) -> bool,
    q: spec_fn(int) -> bool,
    upto: nat,
    out: int,
)
    requires
        0 <= out < upto,
        q(out),
        forall|k: int| 0 <= k < upto ==> #[trigger] p(k) == (q(k) && k != out),
    ensures
        count_in(q, upto) == count_in(p, upto) + 1,
    decreases upto,
{
    if out == upto - 1 {
        lemma_count_same(p, q, (upto - 1) as nat);
    } else {
        lemma_count_without(p, q, (upto - 1) as nat, out);
    }
}

/// The numbers that have one of two properties, where none has both, are
/// as many as those that have the one and those that have the other.
pub proof fn lemma_count_split(
    either: spec_fn(int) -> bool,
    p: spec_fn(int) -> bool,
    q: spec_fn(int) -> bool,
    upto: nat,
)
    requires
        forall|k: int| 0 <= k < upto ==> #[trigger] either(k) == (p(k) || q(k)),
        forall|k: int| 0 <= k < upto ==> !(#[trigger] p(k) && q(k)),
    ensures
        count_in(either, upto) == count_in(p, upto) + count_in(q, upto),
    decreases upto,
{
    if upto > 0 {
        lemma_count_split(either, p, q, (upto - 1) as nat);
    }
}

/// A property that exactly one number has is had by one.
pub proof fn lemma_count_one(p: spec_fn(int) -> bool, upto: nat, only: int)
    requires
        0 <= only < upto,
        forall|k: int| 0 <= k < upto ==> #[trigger] p(k) == (k == only),
    ensures
        count_in(p, upto) == 1,
{
    let none = |k: int| false;
    lemma_count_none(none, upto);
    lemma_count_without(none, p, upto, only);
}

} // verus!
