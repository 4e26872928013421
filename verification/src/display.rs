//! Texts made ready for display: capital letters at the start of
//! sentences, and emphasis marked by asterisks.

use crate::text::{chars_of, put, string_of};
use vstd::prelude::*;

verus! {

/// What `char::to_uppercase` makes of a character: the characters that it
/// yields, in order.
pub uninterp spec fn upper_form(c: char) -> Seq<char>;

/// Calls `char::to_uppercase` and collects what it yields. Taken on trust:
/// the upper-case form of a character, as Unicode defines it, depends on the
/// character alone.
#[verifier::external_body]
fn to_upper(c: char) -> (out: Vec<char>)
    ensures
        out@ == upper_form(c),
{
    c.to_uppercase().collect()
}

/// The capital of `c`: the first character of its upper-case form, or `c`
/// itself where that form is empty.
pub open spec fn upper_first(c: char) -> char {
    if upper_form(c).len() > 0 {
        upper_form(c)[0]
    } else {
        c
    }
}

/// The first character of `form`, or `otherwise` where `form` is empty.
pub fn first_or(form: &Vec<char>, otherwise: char) -> (out: char)
    ensures
        out == if form@.len() > 0 {
            form@[0]
        } else {
            otherwise
        },
{
    if form.len() > 0 {
        form[0]
    } else {
        otherwise
    }
}

/// The capital of `c`.
pub fn capital(c: char) -> (out: char)
    ensures
        out == upper_first(c),
{
    first_or(&to_upper(c), c)
}

/// Whether `c` is a punctuation character of ASCII.
pub open spec fn is_punctuation(c: char) -> bool {
    ||| '!' <= c <= '/'
    ||| ':' <= c <= '@'
    ||| '[' <= c <= '`'
    ||| '{' <= c <= '~'
}

/// Whether a capital is due after `c`, given whether one was due at `c`:
/// after the end of a sentence, and after a space where every word takes
/// one. Other punctuation changes nothing, and any other character ends
/// the wait.
pub open spec fn due_after(c: char, every_word: bool, due: bool) -> bool {
    if c == '.' || c == '!' || c == '?' {
        true
    } else if c == ' ' && every_word {
        true
    } else if is_punctuation(c) {
        due
    } else {
        false
    }
}

/// The capital of each character of `s`.
pub open spec fn capitals_of(s: Seq<char>) -> Seq<char> {
    s.map_values(|c: char| upper_first(c))
}

/// `s` with the character of `capitals` at the same place wherever a capital
/// is due, starting with `due`.
pub open spec fn cased_with(s: Seq<char>, capitals: Seq<char>, every_word: bool, due: bool) -> Seq<
    char,
>
    recommends
        capitals.len() == s.len(),
    decreases s.len(),
{
    if s.len() == 0 || capitals.len() == 0 {
        Seq::empty()
    } else {
        seq![
            if due {
                capitals[0]
            } else {
                s[0]
            },
        ] + cased_with(
            s.drop_first(),
            capitals.drop_first(),
            every_word,
            due_after(s[0], every_word, due),
        )
    }
}

/// `s` with a capital at its start and wherever else one is due.
pub open spec fn cased(s: Seq<char>, every_word: bool) -> Seq<char> {
    cased_with(s, capitals_of(s), every_word, true)
}

/// What stands for an asterisk: the start of an emphasis, or its end.
pub open spec fn mark(open: bool) -> Seq<char> {
    if open {
        "</em>"@
    } else {
        "<em>"@
    }
}

/// `s` with each asterisk replaced by the start or the end of an emphasis
/// in turn, and an emphasis that is still open at the end closed. `open`
/// says whether one is open at the start.
pub open spec fn emphasized(s: Seq<char>, open: bool) -> Seq<char>
    decreases s.len(),
{
    if s.len() == 0 {
        if open {
            "</em>"@
        } else {
            Seq::empty()
        }
    } else if s[0] == '*' {
        mark(open) + emphasized(s.drop_first(), !open)
    } else {
        seq![s[0]] + emphasized(s.drop_first(), open)
    }
}

/// Whether `c` is a punctuation character of ASCII.
pub fn is_ascii_punctuation(c: char) -> (b: bool)
    ensures
        b == is_punctuation(c),
{
    ('!' <= c && c <= '/') || (':' <= c && c <= '@') || ('[' <= c && c <= '`') || ('{' <= c && c
        <= '~')
}

/// `letters` with the character of `capitals` at the same place wherever
/// a capital is due: at the start, after each end of a sentence, and, with
/// `every_word`, after each space.
pub fn apply_case(letters: &Vec<char>, capitals: &Vec<char>, every_word: bool) -> (out: Vec<char>)
    requires
        capitals@.len() == letters@.len(),
    ensures
        out@ == cased_with(letters@, capitals@, every_word, true),
{
    let ghost whole = cased_with(letters@, capitals@, every_word, true);
    let mut out: Vec<char> = Vec::new();
    let mut due = true;
    let mut i: usize = 0;
    assert(letters@.skip(0) == letters@);
    assert(capitals@.skip(0) == capitals@);
    assert(out@ + whole == whole);
    while i < letters.len()
        invariant
            i <= letters@.len() == capitals@.len(),
            whole == out@ + cased_with(
                letters@.skip(i as int),
                capitals@.skip(i as int),
                every_word,
                due,
            ),
        decreases letters@.len() - i,
    {
        let c = letters[i];
        let ghost before = out@;
        assert(letters@.skip(i as int)[0] == c);
        assert(capitals@.skip(i as int)[0] == capitals@[i as int]);
        assert(letters@.skip(i as int).drop_first() == letters@.skip(i + 1));
        assert(capitals@.skip(i as int).drop_first() == capitals@.skip(i + 1));
        let shown = if due {
            capitals[i]
        } else {
            c
        };
        out.push(shown);
        let ghost was = due;
        if c == '.' || c == '!' || c == '?' {
            due = true;
        } else if c == ' ' && every_word {
            due = true;
        } else if is_ascii_punctuation(c) {
        } else {
            due = false;
        }
        assert(due == due_after(c, every_word, was));
        let ghost tail = cased_with(letters@.skip(i + 1), capitals@.skip(i + 1), every_word, due);
        assert(before + (seq![shown] + tail) == before.push(shown) + tail);
        i += 1;
    }
    assert(out@ + Seq::<char>::empty() == out@);
    out
}

/// `string` with a capital letter at its start and directly after each end
/// of a sentence; with `every_word`, after each space too.
pub fn sentence_case(string: &str, every_word: bool) -> (out: String)
    ensures
        out@ == cased(string@, every_word),
{
    let letters = chars_of(string);
    let mut capitals: Vec<char> = Vec::new();
    let mut i: usize = 0;
    while i < letters.len()
        invariant
            i <= letters@.len(),
            capitals@ == capitals_of(letters@).take(i as int),
        decreases letters@.len() - i,
    {
        let shown = capital(letters[i]);
        assert(capitals_of(letters@).take(i + 1) == capitals_of(letters@).take(i as int).push(
            shown,
        ));
        capitals.push(shown);
        i += 1;
    }
    assert(capitals_of(letters@).take(letters@.len() as int) == capitals_of(letters@));
    string_of(&apply_case(&letters, &capitals, every_word))
}

/// `string` with what stands between two asterisks marked as emphasis.
pub fn format_emphasis(string: &str) -> (out: String)
    ensures
        out@ == emphasized(string@, false),
{
    let letters = chars_of(string);
    let mut out: Vec<char> = Vec::new();
    let mut open = false;
    let mut i: usize = 0;
    assert(letters@.skip(0) == letters@);
    assert(out@ + emphasized(letters@, false) == emphasized(letters@, false));
    while i < letters.len()
        invariant
            i <= letters@.len(),
            letters@ == string@,
            emphasized(string@, false) == out@ + emphasized(letters@.skip(i as int), open),
        decreases letters@.len() - i,
    {
        let c = letters[i];
        let ghost rest = letters@.skip(i as int);
        let ghost before = out@;
        assert(rest[0] == c);
        assert(rest.drop_first() == letters@.skip(i + 1));
        if c == '*' {
            let ghost tail = emphasized(letters@.skip(i + 1), !open);
            assert(before + (mark(open) + tail) == before + mark(open) + tail);
            put(
                &mut out,
                if open {
                    "</em>"
                } else {
                    "<em>"
                },
            );
            open = !open;
        } else {
            let ghost tail = emphasized(letters@.skip(i + 1), open);
            assert(before + (seq![c] + tail) == before.push(c) + tail);
            out.push(c);
        }
        i += 1;
    }
    if open {
        put(&mut out, "</em>");
    } else {
        assert(out@ + Seq::<char>::empty() == out@);
    }
    string_of(&out)
}

} // verus!
