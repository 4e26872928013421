//! Figures over the whole list of posts: how many posts have a property,
//! what share of the list they are, and which characters speak.

use crate::corpus::{post_views, PostList, PostRef};
use crate::order::{arrange, is_permutation, order_of, positions, sort_order};
use crate::post::{Post, PostView};
use crate::text::{chars_of, same_chars, string_of, views};
use crate::transcript::{name_views, panel_names, NameView};
use vstd::prelude::*;

verus! {

/// A property that a post has or has not.
#[derive(Clone, Copy, Debug, PartialEq, Eq)]
pub enum Trait {
    /// Marked as one of the best.
    Good,
    /// Has a transcript.
    Transcribed,
    /// Has no image in the newer format.
    Old,
    /// Was reissued.
    Revised,
    /// Is a Sunday strip.
    Sunday,
}

impl Trait {
    /// Whether `post` has this property.
    pub open spec fn holds(self, post: PostView) -> bool {
        match self {
            Trait::Good => post.props.good,
            Trait::Transcribed => post.transcript is Some,
            Trait::Old => post.is_old,
            Trait::Revised => post.is_revised,
            Trait::Sunday => post.is_sunday,
        }
    }

    /// Whether `post` has this property.
    pub fn matches(self, post: &Post) -> (b: bool)
        ensures
            b == self.holds(post@),
    {
        match self {
            Trait::Good => post.props.good,
            Trait::Transcribed => post.transcript.is_some(),
            Trait::Old => post.is_old,
            Trait::Revised => post.is_revised,
            Trait::Sunday => post.is_sunday,
        }
    }
}

/// How many of `posts` have the property `which`.
pub open spec fn count_with(posts: Seq<PostView>, which: Trait) -> nat
    decreases posts.len(),
{
    if posts.len() == 0 {
        0
    } else {
        count_with(posts.drop_last(), which) + if which.holds(posts.last()) {
            1nat
        } else {
            0nat
        }
    }
}

/// The share of `posts`, in whole percent and rounded down, that has the
/// property `which`.
pub open spec fn percent_with(posts: Seq<PostView>, which: Trait) -> nat {
    count_with(posts, which) * 100 / posts.len()
}

/// The positions of the posts of `posts` that have the property `which`,
/// the highest first.
pub open spec fn places_with(posts: Seq<PostView>, which: Trait) -> Seq<int>
    decreases posts.len(),
{
    if posts.len() == 0 {
        Seq::empty()
    } else if which.holds(posts.last()) {
        seq![posts.len() - 1] + places_with(posts.drop_last(), which)
    } else {
        places_with(posts.drop_last(), which)
    }
}

/// How many posts of the list have the property `which`.
pub fn posts_count(posts: &PostList, which: Trait) -> (count: usize)
    ensures
        count == count_with(post_views(posts@), which),
        count <= posts@.len(),
{
    let all = posts.refs();
    let ghost given = post_views(posts@);
    let mut count: usize = 0;
    let mut i: usize = 0;
    assert(given.take(0).len() == 0);
    while i < all.len()
        invariant
            i <= all@.len() == posts@.len(),
            given == post_views(posts@),
            forall|k: int|
                0 <= k < all@.len() ==> (#[trigger] all@[k]).position() == k && all@[k].seq()
                    == posts@,
            count == count_with(given.take(i as int), which),
            count <= i,
        decreases all@.len() - i,
    {
        let post = all[i].get();
        assert(given.take(i + 1).drop_last() == given.take(i as int));
        assert(given.take(i + 1).last() == post@);
        if which.matches(post) {
            count += 1;
        }
        i += 1;
    }
    assert(given.take(given.len() as int) == given);
    count
}

/// The share of the list, in whole percent and rounded down, that has the
/// property `which`.
pub fn posts_percent(posts: &PostList, which: Trait) -> (percent: usize)
    ensures
        percent == percent_with(post_views(posts@), which),
        percent <= 100,
{
    let count = posts_count(posts, which);
    let total = posts.len();
    let percent: u128 = (count as u128) * 100 / (total as u128);
    assert(percent <= 100) by (nonlinear_arith)
        requires
            percent == (count as int) * 100 / (total as int),
            0 <= count <= total,
            total > 0,
    ;
    percent as usize
}

/// The posts of the list that have the property `which`, the last of the
/// list first.
pub fn posts_with(posts: &PostList, which: Trait) -> (found: Vec<PostRef<'_>>)
    ensures
        found@.len() == places_with(post_views(posts@), which).len(),
        forall|k: int|
            0 <= k < found@.len() ==> (#[trigger] found@[k]).seq() == posts@ && found@[k].position()
                == places_with(post_views(posts@), which)[k],
{
    let ghost given = post_views(posts@);
    let mut found: Vec<PostRef<'_>> = Vec::new();
    let mut left: usize = posts.len();
    assert(given.take(left as int) == given);
    assert(Seq::<int>::empty() + places_with(given, which) == places_with(given, which));
    let ghost mut done: Seq<int> = Seq::empty();
    while left > 0
        invariant
            left <= posts@.len(),
            given == post_views(posts@),
            done.len() == found@.len(),
            forall|k: int|
                0 <= k < found@.len() ==> (#[trigger] found@[k]).seq() == posts@
                    && found@[k].position() == done[k],
            places_with(given, which) == done + places_with(given.take(left as int), which),
        decreases left,
    {
        let ghost rest = given.take(left as int);
        let at: usize = left - 1;
        let item = posts.get_ref(at).unwrap();
        let post = item.get();
        assert(rest.last() == post@);
        assert(rest.drop_last() == given.take(at as int));
        if which.matches(post) {
            proof {
                assert(done + (seq![at as int] + places_with(given.take(at as int), which))
                    == done.push(at as int) + places_with(given.take(at as int), which));
                done = done.push(at as int);
            }
            found.push(item);
        }
        left = at;
    }
    proof {
        assert(given.take(0).len() == 0);
        assert(done + Seq::<int>::empty() == done);
    }
    found
}

/// Whether `marks` holds, for each of `posts` in order, an answer that
/// `predicate` gives for that post.
pub open spec fn answers<F: Fn(&Post) -> bool>(
    predicate: F,
    posts: Seq<Post>,
    marks: Seq<bool>,
) -> bool {
    &&& marks.len() == posts.len()
    &&& forall|i: int|
        0 <= i < posts.len() ==> call_ensures(predicate, (&posts[i],), #[trigger] marks[i])
}

/// How many of `marks` are set.
pub open spec fn count_set(marks: Seq<bool>) -> nat
    decreases marks.len(),
{
    if marks.len() == 0 {
        0
    } else {
        count_set(marks.drop_last()) + if marks.last() {
            1nat
        } else {
            0nat
        }
    }
}

/// Counting by answers and counting by a property agree where the answers
/// are those of the property.
pub proof fn lemma_counts_agree(posts: Seq<Post>, marks: Seq<bool>, which: Trait)
    requires
        marks.len() == posts.len(),
        forall|i: int| 0 <= i < posts.len() ==> #[trigger] marks[i] == which.holds(posts[i]@),
    ensures
        count_set(marks) == count_with(post_views(posts), which),
    decreases posts.len(),
{
    if posts.len() > 0 {
        let fewer = posts.drop_last();
        assert forall|i: int| 0 <= i < fewer.len() implies #[trigger] marks.drop_last()[i]
            == which.holds(fewer[i]@) by {
            assert(marks.drop_last()[i] == marks[i]);
        }
        lemma_counts_agree(fewer, marks.drop_last(), which);
        assert(post_views(posts).drop_last() == post_views(fewer));
        assert(post_views(posts).last() == posts.last()@);
        assert(marks.last() == marks[marks.len() - 1]);
    }
}

/// How many posts of the list `predicate` accepts: the predicate is asked
/// once for each post, in the order of the list, and the posts for which it
/// answers yes are counted.
pub fn count_where<F: Fn(&Post) -> bool>(posts: &PostList, predicate: F) -> (count: usize)
    requires
        forall|i: int| 0 <= i < posts@.len() ==> call_requires(predicate, (&#[trigger] posts@[i],)),
    ensures
        count <= posts@.len(),
        exists|marks: Seq<bool>| answers(predicate, posts@, marks) && count == count_set(marks),
{
    let total = posts.len();
    let ghost mut marks: Seq<bool> = Seq::empty();
    let mut count: usize = 0;
    let mut i: usize = 0;
    while i < total
        invariant
            i <= total == posts@.len(),
            forall|k: int|
                0 <= k < posts@.len() ==> call_requires(predicate, (&#[trigger] posts@[k],)),
            marks.len() == i,
            forall|k: int|
                0 <= k < i ==> call_ensures(predicate, (&posts@[k],), #[trigger] marks[k]),
            count == count_set(marks),
            count <= i,
        decreases total - i,
    {
        let post = posts.get_ref(i).unwrap().get();
        assert(*post == posts@[i as int]);
        let accepted = predicate(post);
        proof {
            let before = marks;
            marks = marks.push(accepted);
            assert(marks.drop_last() == before);
            assert forall|k: int| 0 <= k < i + 1 implies call_ensures(
                predicate,
                (&posts@[k],),
                #[trigger] marks[k],
            ) by {
                if k < i {
                    assert(marks[k] == before[k]);
                }
            }
        }
        if accepted {
            count += 1;
        }
        i += 1;
    }
    assert(answers(predicate, posts@, marks));
    count
}

/// The share of the list, in whole percent and rounded down, that
/// `predicate` accepts.
pub fn percent_where<F: Fn(&Post) -> bool>(posts: &PostList, predicate: F) -> (percent: usize)
    requires
        forall|i: int| 0 <= i < posts@.len() ==> call_requires(predicate, (&#[trigger] posts@[i],)),
    ensures
        percent <= 100,
        exists|marks: Seq<bool>|
            answers(predicate, posts@, marks) && percent == count_set(marks) * 100 / posts@.len(),
{
    let count = count_where(posts, predicate);
    let total = posts.len();
    let percent: u128 = (count as u128) * 100 / (total as u128);
    assert(percent <= 100) by (nonlinear_arith)
        requires
            percent == (count as int) * 100 / (total as int),
            0 <= count <= total,
            total > 0,
    ;
    percent as usize
}

/// The names of the characters that speak in `posts`, in order, each as
/// often as it speaks.
pub open spec fn corpus_names(posts: Seq<PostView>) -> Seq<NameView>
    decreases posts.len(),
{
    if posts.len() == 0 {
        Seq::empty()
    } else {
        corpus_names(posts.drop_last()) + match posts.last().transcript {
            Some(panels) => panel_names(panels),
            None => Seq::empty(),
        }
    }
}

/// The names of `names`, each where it first occurs.
pub open spec fn distinct(names: Seq<NameView>) -> Seq<NameView>
    decreases names.len(),
{
    if names.len() == 0 {
        Seq::empty()
    } else {
        let before = distinct(names.drop_last());
        if before.contains(names.last()) {
            before
        } else {
            before.push(names.last())
        }
    }
}

/// The names of `names` that are marked as `uncommon` says, in order.
pub open spec fn bucket(names: Seq<NameView>, uncommon: bool) -> Seq<Seq<char>>
    decreases names.len(),
{
    if names.len() == 0 {
        Seq::empty()
    } else if names.last().1 == uncommon {
        bucket(names.drop_last(), uncommon).push(names.last().0)
    } else {
        bucket(names.drop_last(), uncommon)
    }
}

/// `names` in ascending order.
pub open spec fn sorted(names: Seq<Seq<char>>) -> Seq<Seq<char>> {
    arrange(names, order_of(names))
}

/// The characters of `posts` that are marked as `uncommon` says, each once,
/// in ascending order of name.
pub open spec fn cast(posts: Seq<PostView>, uncommon: bool) -> Seq<NameView> {
    sorted(bucket(distinct(corpus_names(posts)), uncommon)).map_values(
        |name: Seq<char>| (name, uncommon),
    )
}

/// Whether `names` holds `name`.
fn holds_name(names: &Vec<(String, bool)>, name: &(String, bool)) -> (found: bool)
    ensures
        found == name_views(names@).contains((name.0@, name.1)),
{
    let ghost all = name_views(names@);
    let key = chars_of(name.0.as_str());
    let mut i: usize = 0;
    while i < names.len()
        invariant
            i <= names@.len(),
            all == name_views(names@),
            key@ == name.0@,
            forall|k: int| 0 <= k < i ==> all[k] != (name.0@, name.1),
        decreases names@.len() - i,
    {
        let other = chars_of(names[i].0.as_str());
        assert(all[i as int] == (names@[i as int].0@, names@[i as int].1));
        if names[i].1 == name.1 && same_chars(&other, &key) {
            return true;
        }
        i += 1;
    }
    false
}

/// The names of `names`, each where it first occurs.
pub fn first_occurrences(names: &Vec<(String, bool)>) -> (out: Vec<(String, bool)>)
    ensures
        name_views(out@) == distinct(name_views(names@)),
{
    let ghost all = name_views(names@);
    let mut out: Vec<(String, bool)> = Vec::new();
    let mut i: usize = 0;
    assert(all.take(0).len() == 0);
    assert(name_views(out@) == Seq::<NameView>::empty());
    while i < names.len()
        invariant
            i <= names@.len(),
            all == name_views(names@),
            name_views(out@) == distinct(all.take(i as int)),
        decreases names@.len() - i,
    {
        assert(all.take(i + 1).drop_last() == all.take(i as int));
        assert(all.take(i + 1).last() == (names@[i as int].0@, names@[i as int].1));
        if !holds_name(&out, &names[i]) {
            let entry = (names[i].0.clone(), names[i].1);
            assert(name_views(out@.push(entry)) == name_views(out@).push((entry.0@, entry.1)));
            out.push(entry);
        }
        i += 1;
    }
    assert(all.take(all.len() as int) == all);
    out
}

/// The names of `names` that are marked as `uncommon` says, in ascending
/// order.
pub fn sorted_bucket(names: &Vec<(String, bool)>, uncommon: bool) -> (out: Vec<(String, bool)>)
    ensures
        name_views(out@) == sorted(bucket(name_views(names@), uncommon)).map_values(
            |name: Seq<char>| (name, uncommon),
        ),
{
    let ghost all = name_views(names@);
    let mut picked: Vec<Vec<char>> = Vec::new();
    let mut i: usize = 0;
    assert(all.take(0).len() == 0);
    assert(views(picked@) == Seq::<Seq<char>>::empty());
    while i < names.len()
        invariant
            i <= names@.len(),
            all == name_views(names@),
            views(picked@) == bucket(all.take(i as int), uncommon),
        decreases names@.len() - i,
    {
        assert(all.take(i + 1).drop_last() == all.take(i as int));
        assert(all.take(i + 1).last() == (names@[i as int].0@, names@[i as int].1));
        if names[i].1 == uncommon {
            let name = chars_of(names[i].0.as_str());
            assert(views(picked@.push(name)) == views(picked@).push(name@));
            picked.push(name);
        }
        i += 1;
    }
    assert(all.take(all.len() as int) == all);
    let order = sort_order(&picked);
    let ghost wanted = sorted(views(picked@)).map_values(|name: Seq<char>| (name, uncommon));
    let mut out: Vec<(String, bool)> = Vec::new();
    let mut k: usize = 0;
    while k < order.len()
        invariant
            k <= order@.len() == picked@.len(),
            positions(order@) == order_of(views(picked@)),
            is_permutation(positions(order@), picked@.len()),
            wanted == sorted(views(picked@)).map_values(|name: Seq<char>| (name, uncommon)),
            name_views(out@) == wanted.take(k as int),
        decreases order@.len() - k,
    {
        let at: usize = order[k];
        assert(positions(order@)[k as int] == at);
        let entry = (string_of(&picked[at]), uncommon);
        assert(wanted[k as int] == (entry.0@, entry.1));
        assert(name_views(out@.push(entry)) == name_views(out@).push((entry.0@, entry.1)));
        assert(wanted.take(k + 1) == wanted.take(k as int).push(wanted[k as int]));
        out.push(entry);
        k += 1;
    }
    assert(wanted.take(wanted.len() as int) == wanted);
    out
}

/// The names of the characters that speak in the posts of the list, in
/// order, each as often as it speaks.
pub fn all_names(posts: &PostList) -> (names: Vec<(String, bool)>)
    ensures
        name_views(names@) == corpus_names(post_views(posts@)),
{
    let all = posts.refs();
    let ghost given = post_views(posts@);
    let mut names: Vec<(String, bool)> = Vec::new();
    let mut i: usize = 0;
    assert(given.take(0).len() == 0);
    assert(name_views(names@) == Seq::<NameView>::empty());
    while i < all.len()
        invariant
            i <= all@.len() == posts@.len(),
            given == post_views(posts@),
            forall|k: int|
                0 <= k < all@.len() ==> (#[trigger] all@[k]).position() == k && all@[k].seq()
                    == posts@,
            name_views(names@) == corpus_names(given.take(i as int)),
        decreases all@.len() - i,
    {
        let post = all[i].get();
        assert(given.take(i + 1).drop_last() == given.take(i as int));
        assert(given.take(i + 1).last() == post@);
        let ghost before = name_views(names@);
        match &post.transcript {
            Some(transcript) => {
                let mut spoken = transcript.names();
                assert(name_views(names@ + spoken@) == before + name_views(spoken@));
                names.append(&mut spoken);
            },
            None => {
                assert(before + Seq::<NameView>::empty() == before);
            },
        }
        i += 1;
    }
    assert(given.take(given.len() as int) == given);
    names
}

/// The characters that speak in the posts of the list: first those not
/// marked as uncommon, then those that are. Each name stands once in its
/// group, and each group is in ascending order.
pub fn posts_names(posts: &PostList) -> (names: [Vec<(String, bool)>; 2])
    ensures
        name_views(names@[0]@) == cast(post_views(posts@), false),
        name_views(names@[1]@) == cast(post_views(posts@), true),
{
    let once = first_occurrences(&all_names(posts));
    let common = sorted_bucket(&once, false);
    let uncommon = sorted_bucket(&once, true);
    [common, uncommon]
}

} // verus!
