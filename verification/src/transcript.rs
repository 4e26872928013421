//! The dialogue transcript of a post: its panels, the lines spoken in each,
//! and the text format that a transcript is read from and written to.
//!
//! In the text format a panel is a run of line pairs, a speaker declaration
//! followed by what is said; a line of three hyphens ends a panel. Blank
//! lines and the white space around a line mean nothing.

use crate::text::{
    after, chars_of, content_lines, group_views, is_word, lemma_first_index_is, lines, lowercase,
    slice_of, split_on, string_of, to_lowercase, views,
};
use vstd::prelude::*;

verus! {

/// Who a line of a transcript is attributed to.
#[derive(Clone, Debug, PartialEq, Eq)]
pub enum Speaker {
    /// A sound effect.
    Sound,
    /// Writing that is part of the picture.
    Text,
    /// A character, by lower-case name; `uncommon` marks a rare one.
    Character { name: String, uncommon: bool },
}

/// One attributed line.
#[derive(Clone, Debug, PartialEq, Eq)]
pub struct Line {
    pub speaker: Speaker,
    pub text: String,
}

/// One frame of the comic, which may be silent.
#[derive(Clone, Debug, PartialEq, Eq)]
pub struct Panel {
    pub lines: Vec<Line>,
}

/// A whole transcript: three panels on a weekday, seven on a Sunday.
#[derive(Clone, Debug, PartialEq, Eq)]
pub enum Transcript {
    Normal([Panel; 3]),
    Sunday([Panel; 7]),
}

/// Why a text is not a transcript.
#[derive(Clone, Debug, PartialEq, Eq)]
pub enum TranscriptError {
    /// A speaker was expected, and the line declares none.
    InvalidSpeaker(String),
    /// The speaker declaration is the last line of its panel.
    MissingText(String),
    /// The text holds this many panels, which is neither three nor seven.
    PanelCount(usize),
}

/// A [`Speaker`] with its name as a sequence of characters.
pub enum SpeakerView {
    Sound,
    Text,
    Character { name: Seq<char>, uncommon: bool },
}

/// A [`Line`] with its text as a sequence of characters.
pub struct LineView {
    pub speaker: SpeakerView,
    pub text: Seq<char>,
}

/// A [`Panel`] with its lines as a sequence.
pub struct PanelView {
    pub lines: Seq<LineView>,
}

/// A [`TranscriptError`] with its text as a sequence of characters.
pub enum TranscriptErrorView {
    InvalidSpeaker(Seq<char>),
    MissingText(Seq<char>),
    PanelCount(nat),
}

impl View for Speaker {
    type V = SpeakerView;

    open spec fn view(&self) -> SpeakerView {
        match self {
            Speaker::Sound => SpeakerView::Sound,
            Speaker::Text => SpeakerView::Text,
            Speaker::Character { name, uncommon } => SpeakerView::Character {
                name: name@,
                uncommon: *uncommon,
            },
        }
    }
}

impl View for Line {
    type V = LineView;

    open spec fn view(&self) -> LineView {
        LineView { speaker: self.speaker@, text: self.text@ }
    }
}

impl View for Panel {
    type V = PanelView;

    open spec fn view(&self) -> PanelView {
        PanelView { lines: line_views(self.lines@) }
    }
}

impl View for Transcript {
    type V = Seq<PanelView>;

    open spec fn view(&self) -> Seq<PanelView> {
        match self {
            Transcript::Normal(panels) => panel_views(panels@),
            Transcript::Sunday(panels) => panel_views(panels@),
        }
    }
}

impl View for TranscriptError {
    type V = TranscriptErrorView;

    open spec fn view(&self) -> TranscriptErrorView {
        match self {
            TranscriptError::InvalidSpeaker(line) => TranscriptErrorView::InvalidSpeaker(line@),
            TranscriptError::MissingText(line) => TranscriptErrorView::MissingText(line@),
            TranscriptError::PanelCount(found) => TranscriptErrorView::PanelCount(*found as nat),
        }
    }
}

/// The views of a vector of lines.
pub open spec fn line_views(lines: Seq<Line>) -> Seq<LineView> {
    lines.map_values(|line: Line| line@)
}

/// The views of a vector of panels.
pub open spec fn panel_views(panels: Seq<Panel>) -> Seq<PanelView> {
    panels.map_values(|panel: Panel| panel@)
}

/// The view of a parse result, on either side.
pub open spec fn result_view<T: View, E: View>(r: Result<T, E>) -> Result<T::V, E::V> {
    match r {
        Ok(value) => Ok(value@),
        Err(error) => Err(error@),
    }
}

/// A name as a transcript gives it: the name, and whether it is marked as
/// uncommon.
pub type NameView = (Seq<char>, bool);

/// The views of a vector of names.
pub open spec fn name_views(names: Seq<(String, bool)>) -> Seq<NameView> {
    names.map_values(|name: (String, bool)| (name.0@, name.1))
}

/// The name that `speaker` has, if it is a character.
pub open spec fn speaker_name(speaker: SpeakerView) -> Seq<NameView> {
    match speaker {
        SpeakerView::Character { name, uncommon } => seq![(name, uncommon)],
        _ => Seq::empty(),
    }
}

/// The names of the characters that speak in `lines`, in order, each as
/// often as it speaks.
pub open spec fn line_names(lines: Seq<LineView>) -> Seq<NameView>
    decreases lines.len(),
{
    if lines.len() == 0 {
        Seq::empty()
    } else {
        line_names(lines.drop_last()) + speaker_name(lines.last().speaker)
    }
}

/// The names of the characters that speak in `panels`, in order.
pub open spec fn panel_names(panels: Seq<PanelView>) -> Seq<NameView>
    decreases panels.len(),
{
    if panels.len() == 0 {
        Seq::empty()
    } else {
        panel_names(panels.drop_last()) + line_names(panels.last().lines)
    }
}

/// The line that ends a panel.
pub open spec fn separator() -> Seq<char> {
    seq!['-', '-', '-']
}

/// Whether `line` ends in a colon, as the declaration of a character does.
pub open spec fn has_colon(line: Seq<char>) -> bool {
    line.len() > 0 && line.last() == ':'
}

/// The part of a speaker declaration that is compared in lower case: the
/// line without its colon, where it has one.
pub open spec fn declared(line: Seq<char>) -> Seq<char> {
    if has_colon(line) {
        line.drop_last()
    } else {
        line
    }
}

/// The speaker that `line` declares, given `lowered`, the lower-case form of
/// `declared(line)`.
pub open spec fn classify(line: Seq<char>, lowered: Seq<char>) -> Result<
    SpeakerView,
    TranscriptErrorView,
> {
    if has_colon(line) {
        if lowered.len() > 0 && lowered[0] == '~' {
            Ok(SpeakerView::Character { name: lowered.drop_first(), uncommon: true })
        } else {
            Ok(SpeakerView::Character { name: lowered, uncommon: false })
        }
    } else if lowered == "[sono]"@ {
        Ok(SpeakerView::Sound)
    } else if lowered == "[skribo]"@ {
        Ok(SpeakerView::Text)
    } else {
        Err(TranscriptErrorView::InvalidSpeaker(line))
    }
}

/// The speaker that `line` declares.
pub open spec fn speaker_of(line: Seq<char>) -> Result<SpeakerView, TranscriptErrorView> {
    classify(line, lowercase(declared(line)))
}

/// `lines` read as pairs of a speaker declaration and a text, up to the
/// first pair that is not one.
pub open spec fn parse_lines(lines: Seq<Seq<char>>) -> Result<Seq<LineView>, TranscriptErrorView>
    decreases lines.len(),
{
    if lines.len() == 0 {
        Ok(Seq::empty())
    } else {
        match speaker_of(lines[0]) {
            Err(error) => Err(error),
            Ok(speaker) => if lines.len() == 1 {
                Err(TranscriptErrorView::MissingText(lines[0]))
            } else {
                match parse_lines(lines.skip(2)) {
                    Err(error) => Err(error),
                    Ok(rest) => Ok(seq![LineView { speaker, text: lines[1] }] + rest),
                }
            },
        }
    }
}

/// Each group of lines read as a panel, up to the first that fails.
pub open spec fn parse_panels(groups: Seq<Seq<Seq<char>>>) -> Result<
    Seq<PanelView>,
    TranscriptErrorView,
>
    decreases groups.len(),
{
    if groups.len() == 0 {
        Ok(Seq::empty())
    } else {
        match parse_lines(groups[0]) {
            Err(error) => Err(error),
            Ok(lines) => match parse_panels(groups.skip(1)) {
                Err(error) => Err(error),
                Ok(rest) => Ok(seq![PanelView { lines }] + rest),
            },
        }
    }
}

/// The transcript that the text `file` holds.
pub open spec fn parse_transcript(file: Seq<char>) -> Result<Seq<PanelView>, TranscriptErrorView> {
    match parse_panels(split_on(content_lines(file), separator())) {
        Err(error) => Err(error),
        Ok(panels) => if panels.len() == 3 || panels.len() == 7 {
            Ok(panels)
        } else {
            Err(TranscriptErrorView::PanelCount(panels.len()))
        },
    }
}

/// `s` without its last character.
pub fn remove_last_char(s: &Vec<char>) -> (out: Vec<char>)
    ensures
        out@ == if s@.len() > 0 {
            s@.drop_last()
        } else {
            s@
        },
{
    if s.len() == 0 {
        slice_of(s, 0, 0)
    } else {
        slice_of(s, 0, s.len() - 1)
    }
}

/// `s` without its first character.
pub fn remove_first_char(s: &Vec<char>) -> (out: Vec<char>)
    ensures
        out@ == if s@.len() > 0 {
            s@.drop_first()
        } else {
            s@
        },
{
    if s.len() == 0 {
        slice_of(s, 0, 0)
    } else {
        slice_of(s, 1, s.len())
    }
}

impl Speaker {
    /// The speaker that `line` declares, given the lower-case form of the
    /// line without its colon.
    pub fn classify(line: &Vec<char>, lowered: &Vec<char>) -> (out: Result<Self, TranscriptError>)
        ensures
            result_view(out) == classify(line@, lowered@),
    {
        let len: usize = line.len();
        if len > 0 && line[len - 1] == ':' {
            if lowered.len() > 0 && lowered[0] == '~' {
                let name = string_of(&remove_first_char(lowered));
                Ok(Speaker::Character { name, uncommon: true })
            } else {
                Ok(Speaker::Character { name: string_of(lowered), uncommon: false })
            }
        } else if is_word(lowered, "[sono]") {
            Ok(Speaker::Sound)
        } else if is_word(lowered, "[skribo]") {
            Ok(Speaker::Text)
        } else {
            Err(TranscriptError::InvalidSpeaker(string_of(line)))
        }
    }

    /// The speaker that a trimmed line declares: one of the two bracketed
    /// markers, or a character's name followed by a colon.
    pub fn from_line(line: &Vec<char>) -> (out: Result<Self, TranscriptError>)
        ensures
            result_view(out) == speaker_of(line@),
    {
        let len: usize = line.len();
        let body = if len > 0 && line[len - 1] == ':' {
            remove_last_char(line)
        } else {
            slice_of(line, 0, len)
        };
        assert(body@ == declared(line@));
        let lowered = chars_of(to_lowercase(string_of(&body).as_str()).as_str());
        Speaker::classify(line, &lowered)
    }

    /// The speaker that `string` declares.
    pub fn from_string(string: &str) -> (out: Result<Self, TranscriptError>)
        ensures
            result_view(out) == speaker_of(string@),
    {
        Speaker::from_line(&chars_of(string))
    }
}

impl Panel {
    /// The panel that `lines` describe: pairs of a speaker declaration and
    /// the text that goes with it.
    pub fn from_lines(lines: &Vec<Vec<char>>) -> (out: Result<Panel, TranscriptError>)
        ensures
            match out {
                Ok(panel) => parse_lines(views(lines@)) == Ok::<
                    Seq<LineView>,
                    TranscriptErrorView,
                >(panel@.lines),
                Err(error) => parse_lines(views(lines@)) == Err::<
                    Seq<LineView>,
                    TranscriptErrorView,
                >(error@),
            },
    {
        let ghost all = views(lines@);
        let mut parsed: Vec<Line> = Vec::new();
        let mut i: usize = 0;
        assert(all.skip(0) == all);
        assert(Seq::<LineView>::empty() + parse_lines(all)->Ok_0 == parse_lines(all)->Ok_0);
        while i < lines.len()
            invariant
                i <= lines@.len(),
                all == views(lines@),
                parse_lines(all) == after(line_views(parsed@), parse_lines(all.skip(i as int))),
            decreases lines@.len() - i,
        {
            let ghost rest = all.skip(i as int);
            assert(rest[0] == lines@[i as int]@);
            let speaker = match Speaker::from_line(&lines[i]) {
                Ok(speaker) => speaker,
                Err(error) => {
                    return Err(error);
                },
            };
            if i + 1 >= lines.len() {
                assert(rest.len() == 1);
                return Err(TranscriptError::MissingText(string_of(&lines[i])));
            }
            let text = string_of(&lines[i + 1]);
            let line = Line { speaker, text };
            proof {
                assert(rest[1] == lines@[i + 1]@);
                assert(rest.skip(2) == all.skip(i + 2));
                assert(line_views(parsed@.push(line)) == line_views(parsed@).push(line@));
                let tail = parse_lines(all.skip(i + 2));
                if tail is Ok {
                    assert(line_views(parsed@) + (seq![line@] + tail->Ok_0) == line_views(
                        parsed@,
                    ).push(line@) + tail->Ok_0);
                }
            }
            parsed.push(line);
            i += 2;
        }
        assert(all.skip(i as int).len() == 0);
        assert(line_views(parsed@) + Seq::<LineView>::empty() == line_views(parsed@));
        Ok(Panel { lines: parsed })
    }
}

/// Whether `line` is the line that ends a panel.
pub fn is_separator(line: &Vec<char>) -> (b: bool)
    ensures
        b == (line@ == separator()),
{
    let b = line.len() == 3 && line[0] == '-' && line[1] == '-' && line[2] == '-';
    assert(b ==> line@ == separator());
    b
}

/// A copy of the lines of `lines` from position `from` up to `to`.
fn lines_between(lines: &Vec<Vec<char>>, from: usize, to: usize) -> (out: Vec<Vec<char>>)
    requires
        from <= to <= lines@.len(),
    ensures
        views(out@) == views(lines@).subrange(from as int, to as int),
{
    let mut out: Vec<Vec<char>> = Vec::new();
    let mut i: usize = from;
    while i < to
        invariant
            from <= i <= to <= lines@.len(),
            views(out@) == views(lines@).subrange(from as int, i as int),
        decreases to - i,
    {
        let line = slice_of(&lines[i], 0, lines[i].len());
        proof {
            assert(line@ == lines@[i as int]@);
            assert(views(out@.push(line)) == views(out@).push(line@));
            assert(views(lines@).subrange(from as int, i + 1) == views(lines@).subrange(
                from as int,
                i as int,
            ).push(line@));
        }
        out.push(line);
        i += 1;
    }
    out
}

/// The groups of `lines` that the separator lines part.
pub fn split_panels(lines: &Vec<Vec<char>>) -> (groups: Vec<Vec<Vec<char>>>)
    ensures
        group_views(groups@) == split_on(views(lines@), separator()),
{
    let ghost all = views(lines@);
    let len: usize = lines.len();
    let mut groups: Vec<Vec<Vec<char>>> = Vec::new();
    let mut from: usize = 0;
    let mut i: usize = 0;
    assert(all.subrange(0, len as int) == all);
    assert(group_views(groups@) + split_on(all, separator()) == split_on(all, separator()));
    while i < len
        invariant
            from <= i <= len == lines@.len(),
            all == views(lines@),
            forall|k: int| from <= k < i ==> all[k] != separator(),
            split_on(all, separator()) == group_views(groups@) + split_on(
                all.subrange(from as int, len as int),
                separator(),
            ),
        decreases len - i,
    {
        if is_separator(&lines[i]) {
            let group = lines_between(lines, from, i);
            proof {
                let rest = all.subrange(from as int, len as int);
                assert forall|k: int| 0 <= k < i - from implies rest[k] != separator() by {
                    assert(rest[k] == all[from + k]);
                }
                assert(rest[i - from] == lines@[i as int]@);
                lemma_first_index_is(rest, separator(), i - from);
                assert(rest.subrange(0, i - from) == views(group@));
                assert(rest.subrange(i - from + 1, rest.len() as int) == all.subrange(
                    i + 1,
                    len as int,
                ));
                assert(group_views(groups@.push(group)) == group_views(groups@) + seq![
                    views(group@),
                ]);
            }
            groups.push(group);
            from = i + 1;
        }
        i += 1;
    }
    let group = lines_between(lines, from, len);
    proof {
        let rest = all.subrange(from as int, len as int);
        assert forall|k: int| 0 <= k < rest.len() implies rest[k] != separator() by {
            assert(rest[k] == all[from + k]);
        }
        lemma_first_index_is(rest, separator(), rest.len() as int);
        assert(group_views(groups@.push(group)) == group_views(groups@) + seq![views(group@)]);
    }
    groups.push(group);
    groups
}

/// Each group of lines read as a panel, up to the first that fails.
pub fn read_panels(groups: &Vec<Vec<Vec<char>>>) -> (out: Result<Vec<Panel>, TranscriptError>)
    ensures
        match out {
            Ok(panels) => parse_panels(group_views(groups@)) == Ok::<
                Seq<PanelView>,
                TranscriptErrorView,
            >(panel_views(panels@)),
            Err(error) => parse_panels(group_views(groups@)) == Err::<
                Seq<PanelView>,
                TranscriptErrorView,
            >(error@),
        },
{
    let ghost all = group_views(groups@);
    let mut panels: Vec<Panel> = Vec::new();
    let mut i: usize = 0;
    assert(all.skip(0) == all);
    assert(Seq::<PanelView>::empty() + parse_panels(all)->Ok_0 == parse_panels(all)->Ok_0);
    while i < groups.len()
        invariant
            i <= groups@.len(),
            all == group_views(groups@),
            parse_panels(all) == after(panel_views(panels@), parse_panels(all.skip(i as int))),
        decreases groups@.len() - i,
    {
        let ghost rest = all.skip(i as int);
        assert(rest[0] == views(groups@[i as int]@));
        let panel = match Panel::from_lines(&groups[i]) {
            Ok(panel) => panel,
            Err(error) => {
                return Err(error);
            },
        };
        proof {
            assert(rest.skip(1) == all.skip(i + 1));
            assert(panel_views(panels@.push(panel)) == panel_views(panels@).push(panel@));
            let tail = parse_panels(all.skip(i + 1));
            if tail is Ok {
                assert(panel_views(panels@) + (seq![panel@] + tail->Ok_0) == panel_views(
                    panels@,
                ).push(panel@) + tail->Ok_0);
            }
        }
        panels.push(panel);
        i += 1;
    }
    assert(all.skip(i as int).len() == 0);
    assert(panel_views(panels@) + Seq::<PanelView>::empty() == panel_views(panels@));
    Ok(panels)
}

impl Transcript {
    /// The transcript that the text `file` holds. The text must hold three
    /// or seven panels, and each of them only pairs of a speaker declaration
    /// and a text.
    pub fn from_file(file: &str) -> (out: Result<Transcript, TranscriptError>)
        ensures
            result_view(out) == parse_transcript(file@),
    {
        let chars = chars_of(file);
        let content = lines(&chars);
        let groups = split_panels(&content);
        let mut panels = match read_panels(&groups) {
            Ok(panels) => panels,
            Err(error) => {
                return Err(error);
            },
        };
        let ghost all = panel_views(panels@);
        let count: usize = panels.len();
        if count == 3 {
            let third = panels.pop().unwrap();
            let second = panels.pop().unwrap();
            let first = panels.pop().unwrap();
            let transcript = Transcript::Normal([first, second, third]);
            assert(transcript@ == all);
            Ok(transcript)
        } else if count == 7 {
            let seventh = panels.pop().unwrap();
            let sixth = panels.pop().unwrap();
            let fifth = panels.pop().unwrap();
            let fourth = panels.pop().unwrap();
            let third = panels.pop().unwrap();
            let second = panels.pop().unwrap();
            let first = panels.pop().unwrap();
            let transcript = Transcript::Sunday(
                [first, second, third, fourth, fifth, sixth, seventh],
            );
            assert(transcript@ == all);
            Ok(transcript)
        } else {
            Err(TranscriptError::PanelCount(count))
        }
    }

    /// The names of the characters that speak, in reading order, each as
    /// often as it speaks.
    pub fn names(&self) -> (names: Vec<(String, bool)>)
        ensures
            name_views(names@) == panel_names(self@),
    {
        let panels = self.panels();
        let ghost all = panel_views(panels@);
        let mut names: Vec<(String, bool)> = Vec::new();
        let mut i: usize = 0;
        assert(all.take(0).len() == 0);
        assert(name_views(names@) == Seq::<NameView>::empty());
        while i < panels.len()
            invariant
                i <= panels@.len(),
                all == panel_views(panels@),
                name_views(names@) == panel_names(all.take(i as int)),
            decreases panels@.len() - i,
        {
            let lines = &panels[i].lines;
            let ghost spoken = line_views(lines@);
            let ghost before = name_views(names@);
            assert(all.take(i + 1).drop_last() == all.take(i as int));
            assert(all.take(i + 1).last().lines == spoken);
            let mut j: usize = 0;
            assert(spoken.take(0).len() == 0);
            assert(before + Seq::<NameView>::empty() == before);
            while j < lines.len()
                invariant
                    j <= lines@.len(),
                    spoken == line_views(lines@),
                    name_views(names@) == before + line_names(spoken.take(j as int)),
                decreases lines@.len() - j,
            {
                assert(spoken.take(j + 1).drop_last() == spoken.take(j as int));
                assert(spoken.take(j + 1).last() == lines@[j as int]@);
                let ghost so_far = line_names(spoken.take(j as int));
                match &lines[j].speaker {
                    Speaker::Character { name, uncommon } => {
                        let entry = (name.clone(), *uncommon);
                        assert(name_views(names@.push(entry)) == name_views(names@).push(
                            (entry.0@, entry.1),
                        ));
                        assert(before + (so_far + seq![(entry.0@, entry.1)]) == (before
                            + so_far).push((entry.0@, entry.1)));
                        names.push(entry);
                    },
                    _ => {
                        assert(so_far + Seq::<NameView>::empty() == so_far);
                    },
                }
                j += 1;
            }
            assert(spoken.take(spoken.len() as int) == spoken);
            i += 1;
        }
        assert(all.take(all.len() as int) == all);
        names
    }

    /// The panels, in reading order.
    pub fn panels(&self) -> (panels: &[Panel])
        ensures
            panel_views(panels@) == self@,
            panels@.len() == 3 || panels@.len() == 7,
    {
        match self {
            Transcript::Normal(panels) => panels.as_slice(),
            Transcript::Sunday(panels) => panels.as_slice(),
        }
    }
}

} // verus!
