//! One post of the archive and the small sidecar texts that describe it:
//! its properties, its special occasion, its date and its errata.

use crate::number::{is_digit, padded, padded_of};
use crate::text::{
    after, chars_of, content_lines, is_word, lines, slice_of, string_of, trim, trimmed,
    views,
};
use crate::transcript::{PanelView, Transcript};
use vstd::prelude::*;

verus! {

/// The place of a post in the archive, counted from zero.
#[derive(Clone, Copy, Debug, PartialEq, Eq)]
pub struct Index(usize);

/// The yes-or-no properties of a post.
#[derive(Clone, Copy, Debug, PartialEq, Eq, Default)]
pub struct Props {
    /// The main character does not appear.
    pub nogarfield: bool,
    /// Nobody says anything.
    pub notext: bool,
    /// One of the best.
    pub good: bool,
    /// The main character is drawn with its ears back.
    pub earsback: bool,
}

/// A recurring occasion that a post was made for.
#[derive(Clone, Copy, Debug, PartialEq, Eq)]
pub enum Special {
    Halloween,
    Christmas,
    NewYears,
}

/// The corrections made to a post: each a wrong phrase and the right one.
#[derive(Clone, Debug, PartialEq, Eq, Default)]
pub struct Errata(pub Vec<(String, String)>);

/// One post of the archive.
#[derive(Clone, Debug, PartialEq, Eq)]
pub struct Post {
    pub index: Index,
    pub title: String,
    pub date: String,
    /// Every seventh post, counted from the seventh, is a Sunday strip.
    pub is_sunday: bool,
    pub transcript: Option<Transcript>,
    pub props: Props,
    pub special: Option<Special>,
    pub errata: Errata,
    /// How many earlier versions of the post the archive of old versions
    /// holds.
    pub version: u64,
    pub is_revised: bool,
    /// The post has no image in the newer vector format.
    pub is_old: bool,
    /// The post has no layered source image.
    pub is_simple: bool,
    /// The size of the Esperanto image, in bytes.
    pub image_bytes: u64,
}

/// Why a properties text is refused.
#[derive(Clone, Debug, PartialEq, Eq)]
pub enum PropsError {
    /// The text holds nothing but white space.
    Empty,
    /// This line names no property.
    Unknown(String),
}

/// Why an errata text is refused.
#[derive(Clone, Debug, PartialEq, Eq)]
pub enum ErrataError {
    /// The text holds nothing but white space.
    Empty,
    /// This line gives a wrong phrase and no right one.
    MissingCorrection(String),
}

/// A [`PropsError`] with its text as a sequence of characters.
pub enum PropsErrorView {
    Empty,
    Unknown(Seq<char>),
}

/// An [`ErrataError`] with its text as a sequence of characters.
pub enum ErrataErrorView {
    Empty,
    MissingCorrection(Seq<char>),
}

/// A [`Post`] with its texts as sequences of characters and its numbers
/// unbounded.
pub struct PostView {
    pub index: nat,
    pub title: Seq<char>,
    pub date: Seq<char>,
    pub is_sunday: bool,
    pub transcript: Option<Seq<PanelView>>,
    pub props: Props,
    pub special: Option<Special>,
    pub errata: Seq<(Seq<char>, Seq<char>)>,
    pub version: nat,
    pub is_revised: bool,
    pub is_old: bool,
    pub is_simple: bool,
    pub image_bytes: nat,
}

impl View for Index {
    type V = nat;

    closed spec fn view(&self) -> nat {
        self.0 as nat
    }
}

impl View for Errata {
    type V = Seq<(Seq<char>, Seq<char>)>;

    open spec fn view(&self) -> Seq<(Seq<char>, Seq<char>)> {
        pair_views(self.0@)
    }
}

impl View for PropsError {
    type V = PropsErrorView;

    open spec fn view(&self) -> PropsErrorView {
        match self {
            PropsError::Empty => PropsErrorView::Empty,
            PropsError::Unknown(line) => PropsErrorView::Unknown(line@),
        }
    }
}

impl View for ErrataError {
    type V = ErrataErrorView;

    open spec fn view(&self) -> ErrataErrorView {
        match self {
            ErrataError::Empty => ErrataErrorView::Empty,
            ErrataError::MissingCorrection(line) => ErrataErrorView::MissingCorrection(line@),
        }
    }
}

impl View for Post {
    type V = PostView;

    open spec fn view(&self) -> PostView {
        PostView {
            index: self.index@,
            title: self.title@,
            date: self.date@,
            is_sunday: self.is_sunday,
            transcript: match self.transcript {
                Some(transcript) => Some(transcript@),
                None => None,
            },
            props: self.props,
            special: self.special,
            errata: self.errata@,
            version: self.version as nat,
            is_revised: self.is_revised,
            is_old: self.is_old,
            is_simple: self.is_simple,
            image_bytes: self.image_bytes as nat,
        }
    }
}

/// The views of a vector of corrections.
pub open spec fn pair_views(pairs: Seq<(String, String)>) -> Seq<(Seq<char>, Seq<char>)> {
    pairs.map_values(|pair: (String, String)| (pair.0@, pair.1@))
}

/// The name of the folder of post `index`: the index in four digits, or in
/// more where it needs them.
pub open spec fn folder_name(index: nat) -> Seq<char> {
    padded(index, 4)
}

/// Whether the post at `index` is a Sunday strip.
pub open spec fn falls_on_sunday(index: nat) -> bool {
    (index + 1) % 7 == 0
}

/// Whether `date` has the form of four digits, two digits and two digits
/// with a hyphen between the groups.
pub open spec fn valid_date(date: Seq<char>) -> bool {
    &&& date.len() == 10
    &&& date[4] == '-'
    &&& date[7] == '-'
    &&& forall|i: int| 0 <= i < 10 && i != 4 && i != 7 ==> is_digit(#[trigger] date[i])
}

/// Whether `line` names a property.
pub open spec fn is_property(line: Seq<char>) -> bool {
    line == "good"@ || line == "nogarfield"@ || line == "notext"@ || line == "earsback"@
}

/// The position of the first line that names no property, or the number of
/// lines if each names one.
pub open spec fn first_unknown(lines: Seq<Seq<char>>) -> int
    decreases lines.len(),
{
    if lines.len() == 0 || !is_property(lines[0]) {
        0
    } else {
        1 + first_unknown(lines.drop_first())
    }
}

/// The properties that the text `file` sets, one to a line.
pub open spec fn props_of(file: Seq<char>) -> Result<Props, PropsErrorView> {
    let lines = content_lines(file);
    if lines.len() == 0 {
        Err(PropsErrorView::Empty)
    } else if first_unknown(lines) < lines.len() {
        Err(PropsErrorView::Unknown(lines[first_unknown(lines)]))
    } else {
        Ok(
            Props {
                nogarfield: lines.contains("nogarfield"@),
                notext: lines.contains("notext"@),
                good: lines.contains("good"@),
                earsback: lines.contains("earsback"@),
            },
        )
    }
}

/// The occasion that the text `file` names.
pub open spec fn special_of(file: Seq<char>) -> Result<Special, Seq<char>> {
    let word = trimmed(file);
    if word == "haloveno"@ {
        Ok(Special::Halloween)
    } else if word == "kristnasko"@ {
        Ok(Special::Christmas)
    } else if word == "novjaro"@ {
        Ok(Special::NewYears)
    } else {
        Err(word)
    }
}

impl Index {
    /// The index of the post at place `at`.
    pub fn new(at: usize) -> (index: Index)
        ensures
            index@ == at,
    {
        Index(at)
    }

    /// The place as a number.
    pub fn as_int(&self) -> (at: usize)
        ensures
            at == self@,
    {
        self.0
    }

    /// The index as the archive writes it: in four digits.
    pub fn to_text(&self) -> (text: String)
        ensures
            text@ == folder_name(self@),
    {
        string_of(&padded_of(self.0 as u64, 4))
    }
}

impl Post {
    /// The index as the archive writes it: in four digits.
    pub fn index(&self) -> (text: String)
        ensures
            text@ == folder_name(self.index@),
    {
        self.index.to_text()
    }
}

/// Whether `date` has the form of a date: `YYYY-MM-DD`, all digits.
pub fn is_valid_date(date: &str) -> (valid: bool)
    ensures
        valid == valid_date(date@),
{
    let chars = chars_of(date);
    if chars.len() != 10 {
        return false;
    }
    if chars[4] != '-' || chars[7] != '-' {
        return false;
    }
    let mut i: usize = 0;
    while i < 10
        invariant
            i <= 10,
            chars@.len() == 10,
            chars@ == date@,
            forall|k: int| 0 <= k < i && k != 4 && k != 7 ==> is_digit(#[trigger] chars@[k]),
        decreases 10 - i,
    {
        if i != 4 && i != 7 {
            let c = chars[i];
            if !('0' <= c && c <= '9') {
                return false;
            }
        }
        i += 1;
    }
    true
}

proof fn lemma_first_unknown(lines: Seq<Seq<char>>, at: int)
    requires
        0 <= at <= lines.len(),
        forall|i: int| 0 <= i < at ==> is_property(#[trigger] lines[i]),
        at < lines.len() ==> !is_property(lines[at]),
    ensures
        first_unknown(lines) == at,
    decreases lines.len(),
{
    if at > 0 {
        assert(is_property(lines[0]));
        let rest = lines.drop_first();
        assert forall|i: int| 0 <= i < at - 1 implies is_property(#[trigger] rest[i]) by {
            assert(rest[i] == lines[i + 1]);
        }
        lemma_first_unknown(rest, at - 1);
    }
}

/// The properties that the text `file` sets. Each line that holds more
/// than white space names one property; the text names at least one.
pub fn parse_props(file: &str) -> (out: Result<Props, PropsError>)
    ensures
        match out {
            Ok(props) => props_of(file@) == Ok::<Props, PropsErrorView>(props),
            Err(error) => props_of(file@) == Err::<Props, PropsErrorView>(error@),
        },
{
    let content = lines(&chars_of(file));
    let ghost all = views(content@);
    if content.len() == 0 {
        return Err(PropsError::Empty);
    }
    let mut props = Props { nogarfield: false, notext: false, good: false, earsback: false };
    let mut i: usize = 0;
    while i < content.len()
        invariant
            i <= content@.len(),
            all == views(content@),
            all == content_lines(file@),
            all.len() > 0,
            forall|k: int| 0 <= k < i ==> is_property(#[trigger] all[k]),
            props.nogarfield == all.take(i as int).contains("nogarfield"@),
            props.notext == all.take(i as int).contains("notext"@),
            props.good == all.take(i as int).contains("good"@),
            props.earsback == all.take(i as int).contains("earsback"@),
        decreases content@.len() - i,
    {
        let line = &content[i];
        assert(all[i as int] == line@);
        let ghost before = all.take(i as int);
        let ghost now = all.take(i + 1);
        proof {
            reveal_strlit("good");
            reveal_strlit("nogarfield");
            reveal_strlit("notext");
            reveal_strlit("earsback");
            assert(now == before.push(line@));
            assert forall|word: Seq<char>| now.contains(word) == (before.contains(word) || word
                == line@) by {
                if before.contains(word) {
                    let k = choose|k: int| 0 <= k < before.len() && before[k] == word;
                    assert(now[k] == word);
                }
                if word == line@ {
                    assert(now[i as int] == word);
                }
            }
        }
        if is_word(line, "good") {
            props.good = true;
        } else if is_word(line, "nogarfield") {
            props.nogarfield = true;
        } else if is_word(line, "notext") {
            props.notext = true;
        } else if is_word(line, "earsback") {
            props.earsback = true;
        } else {
            proof {
                lemma_first_unknown(all, i as int);
            }
            return Err(PropsError::Unknown(string_of(line)));
        }
        i += 1;
    }
    proof {
        lemma_first_unknown(all, all.len() as int);
        assert(all.take(all.len() as int) == all);
    }
    Ok(props)
}

impl Special {
    /// The occasion that the text `file` names, or else the word that it
    /// holds in place of one.
    pub fn from_file(file: &str) -> (out: Result<Special, String>)
        ensures
            match out {
                Ok(special) => special_of(file@) == Ok::<Special, Seq<char>>(special),
                Err(word) => special_of(file@) == Err::<Special, Seq<char>>(word@),
            },
    {
        let word = trim(&chars_of(file));
        if is_word(&word, "haloveno") {
            Ok(Special::Halloween)
        } else if is_word(&word, "kristnasko") {
            Ok(Special::Christmas)
        } else if is_word(&word, "novjaro") {
            Ok(Special::NewYears)
        } else {
            Err(string_of(&word))
        }
    }

    /// The word that names the occasion in a sidecar text.
    pub fn word(&self) -> (word: &'static str)
        ensures
            special_of(word@) == Ok::<Special, Seq<char>>(*self),
    {
        proof {
            reveal_strlit("haloveno");
            reveal_strlit("kristnasko");
            reveal_strlit("novjaro");
        }
        match self {
            Special::Halloween => "haloveno",
            Special::Christmas => "kristnasko",
            Special::NewYears => "novjaro",
        }
    }
}

/// The position of the first `>>` in `s`, or the length of `s` if it holds
/// none.
pub open spec fn arrow_at(s: Seq<char>) -> int
    decreases s.len(),
{
    if s.len() < 2 {
        s.len() as int
    } else if s[0] == '>' && s[1] == '>' {
        0
    } else {
        1 + arrow_at(s.drop_first())
    }
}

/// The correction that `line` holds: the wrong phrase before the first
/// `>>`, the right one after it and before the next, both trimmed.
pub open spec fn entry_of(line: Seq<char>) -> Result<(Seq<char>, Seq<char>), ErrataErrorView> {
    let at = arrow_at(line);
    if 0 <= at < line.len() {
        let rest = line.skip(at + 2);
        Ok((trimmed(line.take(at)), trimmed(rest.take(arrow_at(rest)))))
    } else {
        Err(ErrataErrorView::MissingCorrection(line))
    }
}

/// The corrections that `lines` hold, up to the first line that holds none.
pub open spec fn entries_of(lines: Seq<Seq<char>>) -> Result<
    Seq<(Seq<char>, Seq<char>)>,
    ErrataErrorView,
>
    decreases lines.len(),
{
    if lines.len() == 0 {
        Ok(Seq::empty())
    } else {
        match entry_of(lines[0]) {
            Err(error) => Err(error),
            Ok(entry) => after(seq![entry], entries_of(lines.drop_first())),
        }
    }
}

/// The corrections that the text `file` holds, one to a line.
pub open spec fn errata_of(file: Seq<char>) -> Result<
    Seq<(Seq<char>, Seq<char>)>,
    ErrataErrorView,
> {
    let lines = content_lines(file);
    if lines.len() == 0 {
        Err(ErrataErrorView::Empty)
    } else {
        entries_of(lines)
    }
}

/// The position of the first `>>` in `s`, or the length of `s`.
pub fn find_arrow(s: &Vec<char>) -> (at: usize)
    ensures
        at == arrow_at(s@),
        at <= s@.len(),
        at < s@.len() ==> at + 2 <= s@.len(),
{
    let len: usize = s.len();
    let mut i: usize = 0;
    assert(s@.skip(0) == s@);
    while len - i >= 2
        invariant
            i <= len == s@.len(),
            arrow_at(s@) == i + arrow_at(s@.skip(i as int)),
        decreases len - i,
    {
        assert(s@.skip(i as int)[0] == s@[i as int]);
        assert(s@.skip(i as int)[1] == s@[i + 1]);
        if s[i] == '>' && s[i + 1] == '>' {
            return i;
        }
        assert(s@.skip(i as int).drop_first() == s@.skip(i + 1));
        i += 1;
    }
    len
}

/// The corrections that the text `file` holds. Each line that holds more
/// than white space gives a wrong phrase, `>>`, and the right phrase; the
/// text holds at least one such line.
pub fn parse_errata(file: &str) -> (out: Result<Errata, ErrataError>)
    ensures
        match out {
            Ok(errata) => errata_of(file@) == Ok::<Seq<(Seq<char>, Seq<char>)>, ErrataErrorView>(
                errata@,
            ),
            Err(error) => errata_of(file@) == Err::<Seq<(Seq<char>, Seq<char>)>, ErrataErrorView>(
                error@,
            ),
        },
{
    let content = lines(&chars_of(file));
    let ghost all = views(content@);
    if content.len() == 0 {
        return Err(ErrataError::Empty);
    }
    let mut entries: Vec<(String, String)> = Vec::new();
    let mut i: usize = 0;
    assert(all.skip(0) == all);
    assert(Seq::<(Seq<char>, Seq<char>)>::empty() + entries_of(all)->Ok_0 == entries_of(
        all,
    )->Ok_0);
    while i < content.len()
        invariant
            i <= content@.len(),
            all == views(content@),
            all == content_lines(file@),
            all.len() > 0,
            entries_of(all) == after(pair_views(entries@), entries_of(all.skip(i as int))),
        decreases content@.len() - i,
    {
        let line = &content[i];
        let ghost rest_lines = all.skip(i as int);
        assert(rest_lines[0] == line@);
        let at = find_arrow(line);
        if at >= line.len() {
            return Err(ErrataError::MissingCorrection(string_of(line)));
        }
        let bad = string_of(&trim(&slice_of(line, 0, at)));
        let rest = slice_of(line, at + 2, line.len());
        let until = find_arrow(&rest);
        let good = string_of(&trim(&slice_of(&rest, 0, until)));
        let entry = (bad, good);
        proof {
            assert(line@.take(at as int) == line@.subrange(0, at as int));
            assert(line@.skip(at + 2) == rest@);
            assert(rest@.take(until as int) == rest@.subrange(0, until as int));
            assert(entry_of(line@) == Ok::<(Seq<char>, Seq<char>), ErrataErrorView>(
                (entry.0@, entry.1@),
            ));
            assert(rest_lines.drop_first() == all.skip(i + 1));
            assert(pair_views(entries@.push(entry)) == pair_views(entries@).push(
                (entry.0@, entry.1@),
            ));
            let tail = entries_of(all.skip(i + 1));
            if tail is Ok {
                assert(pair_views(entries@) + (seq![(entry.0@, entry.1@)] + tail->Ok_0)
                    == pair_views(entries@).push((entry.0@, entry.1@)) + tail->Ok_0);
            }
        }
        entries.push(entry);
        i += 1;
    }
    assert(all.skip(i as int).len() == 0);
    assert(pair_views(entries@) + Seq::<(Seq<char>, Seq<char>)>::empty() == pair_views(
        entries@,
    ));
    Ok(Errata(entries))
}

} // verus!
