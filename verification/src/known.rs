//! The characters that the comic is known to have. A transcript may name
//! others; those are worth a second look, and no fault.

use crate::text::{chars_of, is_word, text_views};
use crate::transcript::{name_views, panel_names, NameView, Transcript};
use vstd::prelude::*;

verus! {

/// Whether `name` is the name of a character that the comic is known to
/// have.
pub open spec fn is_known(name: Seq<char>) -> bool {
    ||| name == "garfildo"@
    ||| name == "jono"@
    ||| name == "lizo"@
    ||| name == "odio"@
    ||| name == "nermalo"@
    ||| name == "arlino"@
    ||| name == "hundo"@
    ||| name == "kimio"@
}

/// The names of `names` that are neither marked as uncommon nor known, in
/// order, each as often as it occurs.
pub open spec fn unknown_among(names: Seq<NameView>) -> Seq<Seq<char>>
    decreases names.len(),
{
    if names.len() == 0 {
        Seq::empty()
    } else if !names.last().1 && !is_known(names.last().0) {
        unknown_among(names.drop_last()).push(names.last().0)
    } else {
        unknown_among(names.drop_last())
    }
}

/// Whether `name` is the name of a character that the comic is known to
/// have.
pub fn is_known_character(name: &str) -> (known: bool)
    ensures
        known == is_known(name@),
{
    let letters = chars_of(name);
    is_word(&letters, "garfildo") || is_word(&letters, "jono") || is_word(&letters, "lizo")
        || is_word(&letters, "odio") || is_word(&letters, "nermalo") || is_word(
        &letters,
        "arlino",
    ) || is_word(&letters, "hundo") || is_word(&letters, "kimio")
}

/// The names in `transcript` that want a second look: those of speakers not
/// marked as uncommon that the comic is not known to have.
pub fn unknown_characters(transcript: &Transcript) -> (unknown: Vec<String>)
    ensures
        text_views(unknown@) == unknown_among(panel_names(
            transcript@,
        )),
{
    let names = transcript.names();
    let ghost all = name_views(names@);
    let mut unknown: Vec<String> = Vec::new();
    let mut i: usize = 0;
    assert(all.take(0).len() == 0);
    assert(text_views(unknown@) == Seq::<Seq<char>>::empty());
    while i < names.len()
        invariant
            i <= names@.len(),
            all == name_views(names@),
            text_views(unknown@) == unknown_among(all.take(i as int)),
        decreases names@.len() - i,
    {
        assert(all.take(i + 1).drop_last() == all.take(i as int));
        assert(all.take(i + 1).last() == (names@[i as int].0@, names@[i as int].1));
        if !names[i].1 && !is_known_character(names[i].0.as_str()) {
            let name = names[i].0.clone();
            assert(text_views(unknown@.push(name)) == text_views(
                unknown@,
            ).push(name@));
            unknown.push(name);
        }
        i += 1;
    }
    assert(all.take(all.len() as int) == all);
    unknown
}

} // verus!
