//! The archive of old versions: for each post that was reissued, the
//! versions that came before, numbered from zero without a gap.
//!
//! An entry of the archive is named by the index of its post, a colon, and
//! the number of the version. In whatever order the entries are listed, the
//! versions of a post must be zero, one, two and so on: none left out, none
//! twice.

use crate::count::{
    count_in, lemma_count_at_most, lemma_count_none, lemma_count_one, lemma_count_same,
    lemma_count_some, lemma_count_split, lemma_count_without,
};
use crate::number::{parse_number, parse_u32};
use crate::order::{
    arrange, is_permutation, lemma_order_of, order_of, positions, sort_order,
};
use crate::text::{
    chars_of, first_index, lemma_first_index_is, same_chars, slice_of, string_of, text_views,
    views,
};
use vstd::prelude::*;

verus! {

/// Why an archive of old versions is refused.
#[derive(Clone, Debug, PartialEq, Eq)]
pub enum ArchiveError {
    /// The entry of this name is not named by an index, a colon and a
    /// version number.
    Malformed(String),
    /// The entry of this name has the version `found`, where `expected` of
    /// the entries of its post have a smaller version, or the same version
    /// and an earlier name.
    OutOfOrder { entry: String, expected: u64, found: u32 },
}

/// An [`ArchiveError`] with its texts as sequences of characters.
pub enum ArchiveErrorView {
    Malformed(Seq<char>),
    OutOfOrder { entry: Seq<char>, expected: nat, found: nat },
}

impl View for ArchiveError {
    type V = ArchiveErrorView;

    open spec fn view(&self) -> ArchiveErrorView {
        match self {
            ArchiveError::Malformed(entry) => ArchiveErrorView::Malformed(entry@),
            ArchiveError::OutOfOrder { entry, expected, found } => ArchiveErrorView::OutOfOrder {
                entry: entry@,
                expected: *expected as nat,
                found: *found as nat,
            },
        }
    }
}

/// An archive of old versions in which the versions of each post count up
/// from zero.
#[derive(Clone, Debug)]
pub struct OldVersions {
    entries: Vec<Vec<char>>,
}

/// The part of an entry's name that names the post: what stands before the
/// first colon.
pub open spec fn entry_index(entry: Seq<char>) -> Seq<char> {
    entry.take(first_index(entry, ':'))
}

/// The version that an entry's name gives: the number between the first
/// colon and the next.
pub open spec fn entry_version(entry: Seq<char>) -> Option<nat> {
    let at = first_index(entry, ':');
    if 0 <= at < entry.len() {
        let rest = entry.skip(at + 1);
        parse_number(rest.take(first_index(rest, ':')), u32::MAX as nat)
    } else {
        None
    }
}

/// How many of `entries` belong to the post that `index` names.
pub open spec fn count_of(entries: Seq<Seq<char>>, index: Seq<char>) -> nat
    decreases entries.len(),
{
    if entries.len() == 0 {
        0
    } else {
        count_of(entries.drop_last(), index) + if entry_index(entries.last()) == index {
            1nat
        } else {
            0nat
        }
    }
}

/// Whether entry `other` of `entries` stands before entry `at` among the
/// versions of one post: both belong to the same post, and `other` has the
/// smaller version, or the same version and the earlier place.
pub open spec fn stands_before(entries: Seq<Seq<char>>, other: int, at: int) -> bool {
    &&& entry_index(entries[other]) == entry_index(entries[at])
    &&& entry_version(entries[other]) is Some
    &&& entry_version(entries[at]) is Some
    &&& {
        ||| entry_version(entries[other])->0 < entry_version(entries[at])->0
        ||| (entry_version(entries[other])->0 == entry_version(entries[at])->0 && other < at)
    }
}

/// How many of the first `upto` of `entries` stand before entry `at`.
pub open spec fn rank_upto(entries: Seq<Seq<char>>, at: int, upto: nat) -> nat
    decreases upto,
{
    if upto == 0 {
        0
    } else {
        rank_upto(entries, at, (upto - 1) as nat) + if stands_before(entries, upto - 1, at) {
            1nat
        } else {
            0nat
        }
    }
}

/// The place of entry `at` among the versions of its post: how many
/// entries stand before it. Where the versions of a post count up from
/// zero, the place of each is its version.
pub open spec fn rank(entries: Seq<Seq<char>>, at: int) -> nat {
    rank_upto(entries, at, entries.len())
}

/// What is wrong with entry `at` of `entries`: its name must give a
/// version, and the version must be the place of the entry among the
/// versions of its post.
pub open spec fn entry_fault(entries: Seq<Seq<char>>, at: int) -> Option<ArchiveErrorView> {
    match entry_version(entries[at]) {
        None => Some(ArchiveErrorView::Malformed(entries[at])),
        Some(found) => {
            let expected = rank(entries, at);
            if found == expected {
                None
            } else {
                Some(ArchiveErrorView::OutOfOrder { entry: entries[at], expected, found })
            }
        },
    }
}

/// The fault of the first of the first `upto` of `entries` that has one.
pub open spec fn first_fault(entries: Seq<Seq<char>>, upto: nat) -> Option<ArchiveErrorView>
    decreases upto,
{
    if upto == 0 {
        None
    } else {
        match first_fault(entries, (upto - 1) as nat) {
            Some(fault) => Some(fault),
            None => entry_fault(entries, upto - 1),
        }
    }
}

/// The first fault of an archive, with its entries taken in the order of
/// their names. There is none where each entry gives a version and the
/// versions of each post count up from zero, in whatever order the entries
/// are listed.
pub open spec fn archive_fault(entries: Seq<Seq<char>>) -> Option<ArchiveErrorView> {
    let sorted = arrange(entries, order_of(entries));
    first_fault(sorted, sorted.len())
}

/// A fault among the first entries is the first fault of them all.
pub proof fn lemma_fault_stays(entries: Seq<Seq<char>>, upto: nat)
    requires
        upto <= entries.len(),
        first_fault(entries, upto) is Some,
    ensures
        first_fault(entries, entries.len()) == first_fault(entries, upto),
    decreases entries.len() - upto,
{
    if upto < entries.len() {
        lemma_fault_stays(entries, upto + 1);
    }
}

/// Whether entries `a` and `b` belong to the same post.
pub open spec fn same_post(entries: Seq<Seq<char>>, a: int, b: int) -> bool {
    entry_index(entries[a]) == entry_index(entries[b])
}

/// Whether some entry of the post of entry `at` has the version `version`.
pub open spec fn has_version(entries: Seq<Seq<char>>, at: int, version: nat) -> bool {
    exists|k: int|
        0 <= k < entries.len() && same_post(entries, k, at) && entry_version(#[trigger] entries[k])
            == Some(version)
}

/// Whether the versions of each post count up from zero: each entry gives
/// a version, no two entries of a post give the same, and with a version
/// each smaller one is there too.
pub open spec fn counts_from_zero(entries: Seq<Seq<char>>) -> bool {
    &&& forall|i: int| 0 <= i < entries.len() ==> entry_version(#[trigger] entries[i]) is Some
    &&& forall|i: int, j: int|
        0 <= i < j < entries.len() && same_post(entries, i, j) ==> entry_version(
            #[trigger] entries[i],
        ) != entry_version(#[trigger] entries[j])
    &&& forall|i: int, version: nat|
        0 <= i < entries.len() && version < entry_version(entries[i])->0 ==> #[trigger] has_version(
            entries,
            i,
            version,
        )
}

/// Whether none of the first `upto` of `entries` is at fault.
pub open spec fn faultless(entries: Seq<Seq<char>>, upto: nat) -> bool {
    forall|at: int| 0 <= at < upto ==> #[trigger] entry_fault(entries, at) is None
}

/// There is no first fault exactly where no entry is at fault.
pub proof fn lemma_no_first_fault(entries: Seq<Seq<char>>, upto: nat)
    ensures
        first_fault(entries, upto) is None <==> faultless(entries, upto),
    decreases upto,
{
    if upto > 0 {
        lemma_no_first_fault(entries, (upto - 1) as nat);
        if faultless(entries, upto) {
            assert(entry_fault(entries, upto - 1) is None);
        }
    }
}

/// The place of an entry is a count of the entries that stand before it.
proof fn lemma_rank_is_count(entries: Seq<Seq<char>>, at: int, upto: nat)
    ensures
        rank_upto(entries, at, upto) == count_in(|k: int| stands_before(entries, k, at), upto),
    decreases upto,
{
    if upto > 0 {
        lemma_rank_is_count(entries, at, (upto - 1) as nat);
    }
}

/// Of the entries that stand before entry `at` among the first `upto`, the
/// one that stands last.
proof fn lemma_last_before(entries: Seq<Seq<char>>, at: int, upto: nat) -> (last: int)
    requires
        exists|k: int| 0 <= k < upto && stands_before(entries, k, at),
    ensures
        0 <= last < upto,
        stands_before(entries, last, at),
        forall|k: int|
            0 <= k < upto && k != last && #[trigger] stands_before(entries, k, at)
                ==> stands_before(entries, k, last),
    decreases upto,
{
    let end = upto - 1;
    if exists|k: int| 0 <= k < end && stands_before(entries, k, at) {
        let earlier = lemma_last_before(entries, at, end as nat);
        if stands_before(entries, end, at) && stands_before(entries, earlier, end) {
            end
        } else {
            earlier
        }
    } else {
        end
    }
}

/// In an archive without fault, the post of an entry has each version
/// below that of the entry.
proof fn lemma_smaller_versions(entries: Seq<Seq<char>>, at: int, version: nat)
    requires
        faultless(entries, entries.len()),
        0 <= at < entries.len(),
        version < entry_version(entries[at])->0,
    ensures
        has_version(entries, at, version),
    decreases entry_version(entries[at])->0 - version,
{
    let count = entries.len();
    let here = |k: int| stands_before(entries, k, at);
    assert(entry_fault(entries, at) is None);
    lemma_rank_is_count(entries, at, count);
    let some = lemma_count_some(here, count);
    let last = lemma_last_before(entries, at, count);
    let there = |k: int| stands_before(entries, k, last);
    assert forall|k: int| 0 <= k < count implies #[trigger] there(k) == (here(k) && k != last) by {
        if here(k) && k != last {
            assert(stands_before(entries, k, at));
        }
    }
    lemma_count_without(there, here, count, last);
    lemma_rank_is_count(entries, last, count);
    assert(entry_fault(entries, last) is None);
    assert(entry_version(entries[last])->0 + 1 == entry_version(entries[at])->0);
    if version + 1 < entry_version(entries[at])->0 {
        lemma_smaller_versions(entries, last, version);
        let k = choose|k: int|
            0 <= k < entries.len() && same_post(entries, k, last) && entry_version(
                #[trigger] entries[k],
            ) == Some(version);
        assert(same_post(entries, k, at));
    }
}

/// In an archive without fault, no two entries of a post give the same
/// version.
proof fn lemma_versions_differ(entries: Seq<Seq<char>>, first: int, second: int)
    requires
        faultless(entries, entries.len()),
        0 <= first < second < entries.len(),
        same_post(entries, first, second),
    ensures
        entry_version(entries[first]) != entry_version(entries[second]),
{
    let count = entries.len();
    assert(entry_fault(entries, first) is None);
    assert(entry_fault(entries, second) is None);
    if entry_version(entries[first]) == entry_version(entries[second]) {
        let one = |k: int| stands_before(entries, k, first);
        let other = |k: int| stands_before(entries, k, second);
        let fewer = |k: int| other(k) && k != first;
        lemma_rank_is_count(entries, first, count);
        lemma_rank_is_count(entries, second, count);
        assert(other(first));
        assert forall|k: int| 0 <= k < count implies #[trigger] fewer(k) == (other(k) && k
            != first) by {}
        lemma_count_without(fewer, other, count, first);
        assert forall|k: int| 0 <= k < count && #[trigger] one(k) implies fewer(k) by {}
        lemma_count_at_most(one, fewer, count);
    }
}

/// Where the versions of each post count up from zero, the place of each
/// entry among the versions of its post is its version.
proof fn lemma_place_is_version(entries: Seq<Seq<char>>, at: int, below: nat)
    requires
        counts_from_zero(entries),
        0 <= at < entries.len(),
        below <= entry_version(entries[at])->0,
    ensures
        count_in(
            |k: int|
                same_post(entries, k, at) && entry_version(entries[k]) is Some && entry_version(
                    entries[k],
                )->0 < below,
            entries.len(),
        ) == below,
    decreases below,
{
    let count = entries.len();
    let under = |k: int|
        same_post(entries, k, at) && entry_version(entries[k]) is Some && entry_version(
            entries[k],
        )->0 < below;
    if below == 0 {
        lemma_count_none(under, count);
    } else {
        let less = (below - 1) as nat;
        let lower = |k: int|
            same_post(entries, k, at) && entry_version(entries[k]) is Some && entry_version(
                entries[k],
            )->0 < less;
        let exact = |k: int| same_post(entries, k, at) && entry_version(entries[k]) == Some(less);
        lemma_place_is_version(entries, at, less);
        assert(has_version(entries, at, less));
        let only = choose|k: int|
            0 <= k < entries.len() && same_post(entries, k, at) && entry_version(
                #[trigger] entries[k],
            ) == Some(less);
        assert forall|k: int| 0 <= k < count implies #[trigger] exact(k) == (k == only) by {
            if exact(k) && k != only {
                if k < only {
                    assert(entry_version(entries[k]) != entry_version(entries[only]));
                } else {
                    assert(entry_version(entries[only]) != entry_version(entries[k]));
                }
            }
        }
        lemma_count_one(exact, count, only);
        assert forall|k: int| 0 <= k < count implies #[trigger] under(k) == (lower(k) || exact(
            k,
        )) by {}
        assert forall|k: int| 0 <= k < count implies !(#[trigger] lower(k) && exact(k)) by {}
        lemma_count_split(under, lower, exact, count);
    }
}

/// An archive is without fault exactly where the versions of each post
/// count up from zero: each entry gives a version, none is given twice,
/// and none is left out. The order of the entries has no part in it.
pub proof fn lemma_fault_means_gap(entries: Seq<Seq<char>>)
    ensures
        first_fault(entries, entries.len()) is None <==> counts_from_zero(entries),
{
    let count = entries.len();
    lemma_no_first_fault(entries, count);
    if faultless(entries, count) {
        assert forall|i: int| 0 <= i < count implies entry_version(
            #[trigger] entries[i],
        ) is Some by {
            assert(entry_fault(entries, i) is None);
        }
        assert forall|i: int, j: int| 0 <= i < j < count && same_post(entries, i, j) implies entry_version(
            #[trigger] entries[i],
        ) != entry_version(#[trigger] entries[j]) by {
            lemma_versions_differ(entries, i, j);
        }
        assert forall|i: int, version: nat|
            0 <= i < count && version < entry_version(entries[i])->0 implies #[trigger] has_version(
            entries,
            i,
            version,
        ) by {
            lemma_smaller_versions(entries, i, version);
        }
    }
    if counts_from_zero(entries) {
        assert forall|at: int| 0 <= at < count implies #[trigger] entry_fault(
            entries,
            at,
        ) is None by {
            let version = entry_version(entries[at])->0;
            let under = |k: int|
                same_post(entries, k, at) && entry_version(entries[k]) is Some && entry_version(
                    entries[k],
                )->0 < version;
            let here = |k: int| stands_before(entries, k, at);
            lemma_place_is_version(entries, at, version);
            assert forall|k: int| 0 <= k < count implies #[trigger] here(k) == under(k) by {
                assert(entry_version(entries[k]) is Some);
                if k < at && same_post(entries, k, at) {
                    assert(entry_version(entries[k]) != entry_version(entries[at]));
                }
            }
            lemma_count_same(here, under, count);
            lemma_rank_is_count(entries, at, count);
        }
    }
}

/// Whether the versions count up from zero does not depend on the order of
/// the entries: both ways round, for a list and the same list in the order
/// that `order` gives.
proof fn lemma_order_keeps_counting(entries: Seq<Seq<char>>, order: Seq<int>, forth: bool)
    requires
        is_permutation(order, entries.len()),
        forall|at: int| 0 <= at < entries.len() ==> order.contains(at),
        if forth {
            counts_from_zero(entries)
        } else {
            counts_from_zero(arrange(entries, order))
        },
    ensures
        if forth {
            counts_from_zero(arrange(entries, order))
        } else {
            counts_from_zero(entries)
        },
{
    let moved = arrange(entries, order);
    let count = entries.len() as int;
    assert forall|k: int| 0 <= k < count implies #[trigger] moved[k] == entries[order[k]] && 0
        <= order[k] < count by {}
    if forth {
        assert forall|i: int| 0 <= i < count implies entry_version(#[trigger] moved[i]) is Some by {
            assert(entry_version(entries[order[i]]) is Some);
        }
        assert forall|i: int, j: int| 0 <= i < j < count && same_post(moved, i, j) implies entry_version(
            #[trigger] moved[i],
        ) != entry_version(#[trigger] moved[j]) by {
            let (a, b) = (order[i], order[j]);
            assert(a != b);
            if a < b {
                assert(same_post(entries, a, b));
                assert(entry_version(entries[a]) != entry_version(entries[b]));
            } else {
                assert(same_post(entries, b, a));
                assert(entry_version(entries[b]) != entry_version(entries[a]));
            }
        }
        assert forall|i: int, version: nat|
            0 <= i < count && version < entry_version(moved[i])->0 implies #[trigger] has_version(
            moved,
            i,
            version,
        ) by {
            assert(has_version(entries, order[i], version));
            let found = choose|k: int|
                0 <= k < entries.len() && same_post(entries, k, order[i]) && entry_version(
                    #[trigger] entries[k],
                ) == Some(version);
            assert(order.contains(found));
            let place = choose|place: int| 0 <= place < order.len() && order[place] == found;
            assert(moved[place] == entries[found]);
            assert(same_post(moved, place, i));
        }
    } else {
        assert forall|i: int| 0 <= i < count implies entry_version(
            #[trigger] entries[i],
        ) is Some by {
            assert(order.contains(i));
            let place = choose|place: int| 0 <= place < order.len() && order[place] == i;
            assert(entry_version(moved[place]) is Some);
        }
        assert forall|i: int, j: int|
            0 <= i < j < count && same_post(entries, i, j) implies entry_version(
            #[trigger] entries[i],
        ) != entry_version(#[trigger] entries[j]) by {
            assert(order.contains(i));
            assert(order.contains(j));
            let a = choose|place: int| 0 <= place < order.len() && order[place] == i;
            let b = choose|place: int| 0 <= place < order.len() && order[place] == j;
            assert(moved[a] == entries[i]);
            assert(moved[b] == entries[j]);
            if a < b {
                assert(same_post(moved, a, b));
                assert(entry_version(moved[a]) != entry_version(moved[b]));
            } else {
                assert(same_post(moved, b, a));
                assert(entry_version(moved[b]) != entry_version(moved[a]));
            }
        }
        assert forall|i: int, version: nat|
            0 <= i < count && version < entry_version(entries[i])->0 implies #[trigger] has_version(
            entries,
            i,
            version,
        ) by {
            assert(order.contains(i));
            let place = choose|place: int| 0 <= place < order.len() && order[place] == i;
            assert(moved[place] == entries[i]);
            assert(has_version(moved, place, version));
            let found = choose|k: int|
                0 <= k < moved.len() && same_post(moved, k, place) && entry_version(
                    #[trigger] moved[k],
                ) == Some(version);
            assert(moved[found] == entries[order[found]]);
            assert(same_post(entries, order[found], i));
        }
    }
}

/// An archive is accepted exactly where the versions of each post count up
/// from zero: each entry gives a version, none is given twice, and none is
/// left out, in whatever order the entries are listed.
pub proof fn lemma_archive_in_order(entries: Seq<Seq<char>>)
    ensures
        archive_fault(entries) is None <==> counts_from_zero(entries),
{
    let order = order_of(entries);
    let sorted = arrange(entries, order);
    lemma_order_of(entries);
    lemma_fault_means_gap(sorted);
    if counts_from_zero(entries) {
        lemma_order_keeps_counting(entries, order, true);
    }
    if counts_from_zero(sorted) {
        lemma_order_keeps_counting(entries, order, false);
    }
}

/// The part of `entry` before its first colon.
fn index_part(entry: &Vec<char>) -> (out: Vec<char>)
    ensures
        out@ == entry_index(entry@),
{
    let at = find_colon(entry);
    slice_of(entry, 0, at)
}

/// The position of the first colon of `s`, or the length of `s`.
fn find_colon(s: &Vec<char>) -> (at: usize)
    ensures
        at == first_index(s@, ':'),
        at <= s@.len(),
{
    let mut i: usize = 0;
    while i < s.len()
        invariant
            i <= s@.len(),
            forall|k: int| 0 <= k < i ==> s@[k] != ':',
        decreases s@.len() - i,
    {
        if s[i] == ':' {
            proof {
                lemma_first_index_is(s@, ':', i as int);
            }
            return i;
        }
        i += 1;
    }
    proof {
        lemma_first_index_is(s@, ':', s@.len() as int);
    }
    i
}

/// The version that the name `entry` gives.
fn version_part(entry: &Vec<char>) -> (out: Option<u32>)
    ensures
        match out {
            Some(version) => entry_version(entry@) == Some(version as nat),
            None => entry_version(entry@) is None,
        },
{
    let at = find_colon(entry);
    if at >= entry.len() {
        return None;
    }
    let rest = slice_of(entry, at + 1, entry.len());
    assert(rest@ == entry@.skip(at + 1));
    let until = find_colon(&rest);
    let number = slice_of(&rest, 0, until);
    assert(number@ == rest@.take(until as int));
    parse_u32(&number)
}

/// How many of the first `upto` of `entries` belong to the post that
/// `index` names.
fn count_before(entries: &Vec<Vec<char>>, upto: usize, index: &Vec<char>) -> (count: u64)
    requires
        upto <= entries@.len(),
    ensures
        count == count_of(views(entries@).take(upto as int), index@),
{
    let ghost all = views(entries@);
    let mut count: u64 = 0;
    let mut i: usize = 0;
    assert(all.take(0).len() == 0);
    while i < upto
        invariant
            i <= upto <= entries@.len(),
            all == views(entries@),
            count == count_of(all.take(i as int), index@),
            count <= i,
        decreases upto - i,
    {
        let other = index_part(&entries[i]);
        assert(all.take(i + 1).drop_last() == all.take(i as int));
        assert(all.take(i + 1).last() == entries@[i as int]@);
        if same_chars(&other, index) {
            count += 1;
        }
        i += 1;
    }
    count
}

/// The place of entry `at` among the versions of its post: how many
/// entries stand before it.
fn place_of(entries: &Vec<Vec<char>>, at: usize) -> (place: u64)
    requires
        at < entries@.len(),
    ensures
        place == rank(views(entries@), at as int),
{
    let ghost all = views(entries@);
    let index = index_part(&entries[at]);
    let version = version_part(&entries[at]);
    assert(all[at as int] == entries@[at as int]@);
    let mut place: u64 = 0;
    let mut other: usize = 0;
    while other < entries.len()
        invariant
            other <= entries@.len(),
            at < entries@.len(),
            all == views(entries@),
            index@ == entry_index(all[at as int]),
            match version {
                Some(found) => entry_version(all[at as int]) == Some(found as nat),
                None => entry_version(all[at as int]) is None,
            },
            place == rank_upto(all, at as int, other as nat),
            place <= other,
        decreases entries@.len() - other,
    {
        assert(all[other as int] == entries@[other as int]@);
        let before = match (version_part(&entries[other]), version) {
            (Some(theirs), Some(ours)) => (theirs < ours || (theirs == ours && other < at))
                && same_chars(&index_part(&entries[other]), &index),
            _ => false,
        };
        assert(before == stands_before(all, other as int, at as int));
        if before {
            place += 1;
        }
        other += 1;
    }
    place
}

impl OldVersions {
    /// The names of the entries, in the order in which they were checked.
    pub closed spec fn entries(&self) -> Seq<Seq<char>> {
        views(self.entries@)
    }

    /// How many old versions the archive holds of the post that `index`
    /// names.
    pub open spec fn count(&self, index: Seq<char>) -> nat {
        count_of(self.entries(), index)
    }

    /// An archive without entries.
    pub fn empty() -> (out: OldVersions)
        ensures
            out.entries() == Seq::<Seq<char>>::empty(),
    {
        let out = OldVersions { entries: Vec::new() };
        assert(out.entries() == Seq::<Seq<char>>::empty());
        out
    }

    /// The archive whose entries have the names `names`. Each name must
    /// give a version, and the versions of each post must count up from
    /// zero: none left out, none twice. The entries are looked at in the
    /// order of their names, and the first that is at fault is told.
    pub fn scan(names: &Vec<String>) -> (out: Result<OldVersions, ArchiveError>)
        ensures
            match out {
                Ok(versions) => archive_fault(text_views(names@)) is None && versions.entries()
                    == arrange(text_views(names@), order_of(text_views(names@))),
                Err(error) => archive_fault(text_views(names@)) == Some(error@),
            },
            out is Ok <==> counts_from_zero(text_views(names@)),
    {
        let ghost given = text_views(names@);
        let mut chars: Vec<Vec<char>> = Vec::new();
        let mut k: usize = 0;
        while k < names.len()
            invariant
                k <= names@.len(),
                given == text_views(names@),
                views(chars@) == given.take(k as int),
            decreases names@.len() - k,
        {
            let name = chars_of(names[k].as_str());
            assert(views(chars@.push(name)) == views(chars@).push(name@));
            assert(given.take(k + 1) == given.take(k as int).push(name@));
            chars.push(name);
            k += 1;
        }
        assert(given.take(given.len() as int) == given);
        let order = sort_order(&chars);
        let ghost sorted = arrange(given, order_of(given));
        let mut entries: Vec<Vec<char>> = Vec::new();
        let mut i: usize = 0;
        while i < order.len()
            invariant
                i <= order@.len() == chars@.len(),
                views(chars@) == given,
                positions(order@) == order_of(given),
                is_permutation(positions(order@), chars@.len()),
                sorted == arrange(given, order_of(given)),
                views(entries@) == sorted.take(i as int),
            decreases order@.len() - i,
        {
            let at: usize = order[i];
            assert(positions(order@)[i as int] == at);
            let entry = slice_of(&chars[at], 0, chars[at].len());
            assert(entry@ == sorted[i as int]);
            assert(views(entries@.push(entry)) == views(entries@).push(entry@));
            assert(sorted.take(i + 1) == sorted.take(i as int).push(entry@));
            entries.push(entry);
            i += 1;
        }
        assert(sorted.take(sorted.len() as int) == sorted);
        proof {
            lemma_archive_in_order(given);
        }
        let mut at: usize = 0;
        while at < entries.len()
            invariant
                at <= entries@.len(),
                given == text_views(names@),
                archive_fault(given) is None <==> counts_from_zero(given),
                sorted == arrange(given, order_of(given)),
                views(entries@) == sorted,
                first_fault(sorted, at as nat) is None,
            decreases entries@.len() - at,
        {
            assert(sorted[at as int] == entries@[at as int]@);
            match version_part(&entries[at]) {
                None => {
                    proof {
                        lemma_fault_stays(sorted, (at + 1) as nat);
                    }
                    return Err(ArchiveError::Malformed(string_of(&entries[at])));
                },
                Some(found) => {
                    let expected = place_of(&entries, at);
                    if found as u64 != expected {
                        proof {
                            lemma_fault_stays(sorted, (at + 1) as nat);
                        }
                        return Err(
                            ArchiveError::OutOfOrder {
                                entry: string_of(&entries[at]),
                                expected,
                                found,
                            },
                        );
                    }
                },
            }
            at += 1;
        }
        Ok(OldVersions { entries })
    }

    /// How many old versions the archive holds of the post that `index`
    /// names.
    pub fn versions_of(&self, index: &str) -> (count: u64)
        ensures
            count == self.count(index@),
    {
        let key = chars_of(index);
        let count = count_before(&self.entries, self.entries.len(), &key);
        assert(views(self.entries@).take(self.entries@.len() as int) == views(self.entries@));
        count
    }
}

} // verus!
