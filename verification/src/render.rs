//! A transcript written back as text, and the proof that reading the text
//! gives the transcript again.

use crate::text::{
    chars_of, content_lines, drop_empty, group_views, is_space, is_whitespace,
    lemma_first_index_is, lowercase, same_chars, slice_of, split_on, string_of, to_lowercase,
    trim_each, trimmed, views,
};
use crate::transcript::{
    declared, is_separator, line_views, panel_views, parse_lines, parse_panels, parse_transcript,
    remove_last_char, separator, speaker_of, Line, LineView, PanelView, Speaker, SpeakerView,
    Transcript, TranscriptErrorView,
};
use vstd::prelude::*;

verus! {

/// `pieces` in one sequence, with `sep` between each two of them.
pub open spec fn join<A>(pieces: Seq<Seq<A>>, sep: A) -> Seq<A>
    decreases pieces.len(),
{
    if pieces.len() == 0 {
        Seq::empty()
    } else if pieces.len() == 1 {
        pieces[0]
    } else {
        pieces[0] + seq![sep] + join(pieces.drop_first(), sep)
    }
}

/// The line that declares `speaker`.
pub open spec fn declaration(speaker: SpeakerView) -> Seq<char> {
    match speaker {
        SpeakerView::Sound => "[sono]"@,
        SpeakerView::Text => "[skribo]"@,
        SpeakerView::Character { name, uncommon } => if uncommon {
            seq!['~'] + name + seq![':']
        } else {
            name + seq![':']
        },
    }
}

/// The lines that describe a panel: for each line spoken, the declaration
/// of its speaker and then its text.
pub open spec fn panel_lines(lines: Seq<LineView>) -> Seq<Seq<char>>
    decreases lines.len(),
{
    if lines.len() == 0 {
        Seq::empty()
    } else {
        seq![declaration(lines[0].speaker), lines[0].text] + panel_lines(lines.drop_first())
    }
}

/// The lines of each panel.
pub open spec fn groups_of(panels: Seq<PanelView>) -> Seq<Seq<Seq<char>>> {
    panels.map_values(|panel: PanelView| panel_lines(panel.lines))
}

/// The text of a transcript: the lines of its panels, one to a line, with a
/// separator line between each two panels.
pub open spec fn render(panels: Seq<PanelView>) -> Seq<char> {
    join(join(groups_of(panels), separator()), '\n')
}

/// Whether `line` can stand as a line of a text by itself: it is not
/// empty, has no white space at either end, and no line break inside.
pub open spec fn is_clean(line: Seq<char>) -> bool {
    &&& line.len() > 0
    &&& !is_space(line[0])
    &&& !is_space(line.last())
    &&& !line.contains('\n')
}

/// Whether lowering leaves `s` as it is.
pub open spec fn is_lowered(s: Seq<char>) -> bool {
    lowercase(s) == s
}

/// Whether reading the declaration of `speaker` gives `speaker` again: the
/// declaration is a clean line in lower case, and the name of a character
/// not marked as uncommon does not begin with the mark.
pub open spec fn speaker_is_writable(speaker: SpeakerView) -> bool {
    &&& is_clean(declaration(speaker))
    &&& is_lowered(declared(declaration(speaker)))
    &&& match speaker {
        SpeakerView::Character { name, uncommon } => uncommon || name.len() == 0 || name[0] != '~',
        _ => true,
    }
}

/// Whether reading what is written for `line` gives `line` again.
pub open spec fn line_is_writable(line: LineView) -> bool {
    &&& speaker_is_writable(line.speaker)
    &&& is_clean(line.text)
    &&& line.text != separator()
}

/// Whether reading the text of `panels` gives `panels` again, whatever
/// their number.
pub open spec fn is_writable(panels: Seq<PanelView>) -> bool {
    forall|i: int, j: int|
        0 <= i < panels.len() && 0 <= j < panels[i].lines.len() ==> line_is_writable(
            #[trigger] panels[i].lines[j],
        )
}

/// Joining does not lose a piece: what comes out is at least as long as
/// the separators alone.
pub proof fn lemma_join_len<A>(pieces: Seq<Seq<A>>, sep: A)
    ensures
        join(pieces, sep).len() >= pieces.len() - 1,
    decreases pieces.len(),
{
    if pieces.len() > 1 {
        lemma_join_len(pieces.drop_first(), sep);
    }
}

/// Every item of a joined sequence is the separator or an item of one of
/// the pieces.
pub proof fn lemma_join_items<A>(pieces: Seq<Seq<A>>, sep: A, at: int)
    requires
        0 <= at < join(pieces, sep).len(),
    ensures
        join(pieces, sep)[at] == sep || exists|i: int, j: int|
            0 <= i < pieces.len() && 0 <= j < pieces[i].len() && join(pieces, sep)[at]
                == #[trigger] pieces[i][j],
    decreases pieces.len(),
{
    if pieces.len() == 1 {
        assert(join(pieces, sep)[at] == pieces[0][at]);
    } else if pieces.len() > 1 {
        let rest = pieces.drop_first();
        if at < pieces[0].len() {
            assert(join(pieces, sep)[at] == pieces[0][at]);
        } else if at > pieces[0].len() {
            let inner = at - pieces[0].len() - 1;
            lemma_join_items(rest, sep, inner);
            assert(join(pieces, sep)[at] == join(rest, sep)[inner]);
            if join(rest, sep)[inner] != sep {
                let (i, j) = choose|i: int, j: int|
                    0 <= i < rest.len() && 0 <= j < rest[i].len() && join(rest, sep)[inner]
                        == #[trigger] rest[i][j];
                assert(rest[i][j] == pieces[i + 1][j]);
            }
        }
    }
}

/// Splitting what was joined gives the pieces again, where no piece holds
/// the separator.
pub proof fn lemma_split_join<A>(pieces: Seq<Seq<A>>, sep: A)
    requires
        pieces.len() > 0,
        forall|i: int, j: int|
            0 <= i < pieces.len() && 0 <= j < pieces[i].len() ==> #[trigger] pieces[i][j] != sep,
    ensures
        split_on(join(pieces, sep), sep) == pieces,
    decreases pieces.len(),
{
    let whole = join(pieces, sep);
    let head = pieces[0];
    if pieces.len() == 1 {
        lemma_first_index_is(whole, sep, whole.len() as int);
        assert(split_on(whole, sep) == pieces);
    } else {
        let rest = pieces.drop_first();
        let at = head.len() as int;
        assert forall|k: int| 0 <= k < at implies whole[k] != sep by {
            assert(whole[k] == pieces[0][k]);
        }
        lemma_first_index_is(whole, sep, at);
        assert(whole.subrange(0, at) == head);
        assert(whole.subrange(at + 1, whole.len() as int) == join(rest, sep));
        assert forall|i: int, j: int|
            0 <= i < rest.len() && 0 <= j < rest[i].len() implies #[trigger] rest[i][j]
            != sep by {
            assert(rest[i][j] == pieces[i + 1][j]);
        }
        lemma_split_join(rest, sep);
        assert(seq![head] + rest == pieces);
    }
}

/// A clean line is what is left of itself after trimming.
pub proof fn lemma_clean_trimmed(line: Seq<char>)
    requires
        is_clean(line),
    ensures
        trimmed(line) == line,
{
}

/// Nothing is dropped from lines that all hold something.
proof fn lemma_keep_all(lines: Seq<Seq<char>>)
    requires
        forall|i: int| 0 <= i < lines.len() ==> (#[trigger] lines[i]).len() > 0,
    ensures
        drop_empty(lines) == lines,
    decreases lines.len(),
{
    let keep = |piece: Seq<char>| piece.len() > 0;
    if lines.len() > 0 {
        let before = lines.drop_last();
        assert forall|i: int| 0 <= i < before.len() implies (#[trigger] before[i]).len() > 0 by {
            assert(before[i] == lines[i]);
        }
        lemma_keep_all(before);
        assert(keep(lines.last()));
        assert(before.push(lines.last()) == lines);
        before.lemma_filter_push(lines.last(), keep);
    } else {
        assert(lines.filter(keep) == lines) by {
            reveal_with_fuel(Seq::filter, 1);
        }
    }
}

/// The lines of a text made of clean lines are those lines.
pub proof fn lemma_lines_of_joined(lines: Seq<Seq<char>>)
    requires
        lines.len() > 0,
        forall|i: int| 0 <= i < lines.len() ==> is_clean(#[trigger] lines[i]),
    ensures
        content_lines(join(lines, '\n')) == lines,
{
    assert forall|i: int, j: int|
        0 <= i < lines.len() && 0 <= j < lines[i].len() implies #[trigger] lines[i][j]
        != '\n' by {
        assert(is_clean(lines[i]));
    }
    lemma_split_join(lines, '\n');
    assert(trim_each(lines) == lines) by {
        assert forall|i: int| 0 <= i < lines.len() implies trim_each(lines)[i] == lines[i] by {
            lemma_clean_trimmed(lines[i]);
        }
    }
    lemma_keep_all(lines);
}

/// The declaration of a writable speaker declares that speaker.
pub proof fn lemma_speaker_read_back(speaker: SpeakerView)
    requires
        speaker_is_writable(speaker),
    ensures
        speaker_of(declaration(speaker)) == Ok::<SpeakerView, TranscriptErrorView>(speaker),
        declaration(speaker) != separator(),
{
    reveal_strlit("[sono]");
    reveal_strlit("[skribo]");
    let line = declaration(speaker);
    match speaker {
        SpeakerView::Sound => {
            assert(line.last() == ']');
        },
        SpeakerView::Text => {
            assert(line.last() == ']');
            assert(line.len() != "[sono]"@.len());
        },
        SpeakerView::Character { name, uncommon } => {
            assert(line.last() == ':');
            assert(separator().last() == '-');
            if uncommon {
                let body = seq!['~'] + name;
                assert(line.drop_last() == body);
                assert(body.drop_first() == name);
            } else {
                assert(line.drop_last() == name);
            }
        },
    }
}

/// The lines written for writable lines read back as those lines, and
/// none of them is a separator.
pub proof fn lemma_lines_read_back(lines: Seq<LineView>)
    requires
        forall|j: int| 0 <= j < lines.len() ==> line_is_writable(#[trigger] lines[j]),
    ensures
        parse_lines(panel_lines(lines)) == Ok::<Seq<LineView>, TranscriptErrorView>(lines),
        forall|k: int|
            0 <= k < panel_lines(lines).len() ==> is_clean(#[trigger] panel_lines(lines)[k])
                && panel_lines(lines)[k] != separator(),
    decreases lines.len(),
{
    if lines.len() == 0 {
        assert(lines == Seq::<LineView>::empty());
    } else {
        let rest = lines.drop_first();
        let written = panel_lines(lines);
        assert(line_is_writable(lines[0]));
        assert forall|j: int| 0 <= j < rest.len() implies line_is_writable(#[trigger] rest[j]) by {
            assert(rest[j] == lines[j + 1]);
        }
        lemma_speaker_read_back(lines[0].speaker);
        lemma_lines_read_back(rest);
        assert(written[0] == declaration(lines[0].speaker));
        assert(written[1] == lines[0].text);
        assert(written.skip(2) == panel_lines(rest));
        assert(seq![lines[0]] + rest == lines);
        assert forall|k: int| 0 <= k < written.len() implies is_clean(#[trigger] written[k])
            && written[k] != separator() by {
            if k >= 2 {
                assert(written[k] == panel_lines(rest)[k - 2]);
            }
        }
    }
}

/// The groups of lines written for writable panels read back as those
/// panels.
pub proof fn lemma_panels_read_back(panels: Seq<PanelView>)
    requires
        is_writable(panels),
    ensures
        parse_panels(groups_of(panels)) == Ok::<Seq<PanelView>, TranscriptErrorView>(panels),
    decreases panels.len(),
{
    if panels.len() == 0 {
        assert(panels == Seq::<PanelView>::empty());
    } else {
        let rest = panels.skip(1);
        assert forall|i: int, j: int|
            0 <= i < rest.len() && 0 <= j < rest[i].lines.len() implies line_is_writable(
            #[trigger] rest[i].lines[j],
        ) by {
            assert(rest[i] == panels[i + 1]);
            assert(line_is_writable(panels[i + 1].lines[j]));
        }
        assert forall|j: int| 0 <= j < panels[0].lines.len() implies line_is_writable(
            #[trigger] panels[0].lines[j],
        ) by {}
        lemma_lines_read_back(panels[0].lines);
        lemma_panels_read_back(rest);
        assert(groups_of(panels).skip(1) == groups_of(rest));
        assert(seq![panels[0]] + rest == panels);
    }
}

/// A transcript of three or of seven panels, written as text and read
/// again, is the same transcript, provided that reading each of its lines
/// gives that line: the texts and names are clean lines, no text is a
/// separator, and the names are in lower case.
pub proof fn lemma_round_trip(panels: Seq<PanelView>)
    requires
        panels.len() == 3 || panels.len() == 7,
        is_writable(panels),
    ensures
        parse_transcript(render(panels)) == Ok::<Seq<PanelView>, TranscriptErrorView>(panels),
{
    let groups = groups_of(panels);
    let all = join(groups, separator());
    assert forall|i: int, j: int|
        0 <= i < groups.len() && 0 <= j < groups[i].len() implies is_clean(
        #[trigger] groups[i][j],
    ) && groups[i][j] != separator() by {
        assert forall|k: int| 0 <= k < panels[i].lines.len() implies line_is_writable(
            #[trigger] panels[i].lines[k],
        ) by {}
        lemma_lines_read_back(panels[i].lines);
    }
    lemma_join_len(groups, separator());
    assert(is_clean(separator())) by {
        assert(separator()[0] == '-');
        assert(separator().last() == '-');
    }
    assert forall|k: int| 0 <= k < all.len() implies is_clean(#[trigger] all[k]) by {
        lemma_join_items(groups, separator(), k);
    }
    lemma_lines_of_joined(all);
    lemma_split_join(groups, separator());
    lemma_panels_read_back(panels);
}

/// Joining one piece more puts the separator and the piece at the end.
pub proof fn lemma_join_push<A>(pieces: Seq<Seq<A>>, sep: A, piece: Seq<A>)
    ensures
        join(pieces.push(piece), sep) == if pieces.len() == 0 {
            piece
        } else {
            join(pieces, sep) + seq![sep] + piece
        },
    decreases pieces.len(),
{
    let more = pieces.push(piece);
    if pieces.len() == 0 {
    } else {
        let rest = pieces.drop_first();
        assert(more.drop_first() == rest.push(piece));
        lemma_join_push(rest, sep, piece);
        if rest.len() == 0 {
            assert(join(more, sep) == pieces[0] + seq![sep] + piece);
        } else {
            assert(pieces[0] + seq![sep] + (join(rest, sep) + seq![sep] + piece) == pieces[0]
                + seq![sep] + join(rest, sep) + seq![sep] + piece);
        }
    }
}

/// Writing one line more puts its declaration and its text at the end.
pub proof fn lemma_panel_lines_push(lines: Seq<LineView>, line: LineView)
    ensures
        panel_lines(lines.push(line)) == panel_lines(lines) + seq![
            declaration(line.speaker),
            line.text,
        ],
    decreases lines.len(),
{
    let more = lines.push(line);
    let pair = seq![declaration(line.speaker), line.text];
    if lines.len() == 0 {
        assert(more.drop_first() == Seq::<LineView>::empty());
        assert(pair + panel_lines(more.drop_first()) == pair);
        assert(panel_lines(lines) + pair == pair);
    } else {
        let rest = lines.drop_first();
        assert(more.drop_first() == rest.push(line));
        lemma_panel_lines_push(rest, line);
        let head = seq![declaration(lines[0].speaker), lines[0].text];
        assert(head + (panel_lines(rest) + pair) == head + panel_lines(rest) + pair);
    }
}

/// The line that declares `speaker`.
pub fn declaration_of(speaker: &Speaker) -> (line: Vec<char>)
    ensures
        line@ == declaration(speaker@),
{
    match speaker {
        Speaker::Sound => chars_of("[sono]"),
        Speaker::Text => chars_of("[skribo]"),
        Speaker::Character { name, uncommon } => {
            let mut line: Vec<char> = Vec::new();
            if *uncommon {
                line.push('~');
            }
            let ghost start = line@;
            let mut letters = chars_of(name.as_str());
            line.append(&mut letters);
            line.push(':');
            assert(line@ == start + name@ + seq![':']);
            assert(Seq::<char>::empty() + name@ == name@);
            line
        },
    }
}

/// The lines that describe a panel.
pub fn lines_of_panel(lines: &Vec<Line>) -> (out: Vec<Vec<char>>)
    ensures
        views(out@) == panel_lines(line_views(lines@)),
{
    let ghost all = line_views(lines@);
    let mut out: Vec<Vec<char>> = Vec::new();
    let mut i: usize = 0;
    assert(all.take(0) == Seq::<LineView>::empty());
    assert(views(out@) == Seq::<Seq<char>>::empty());
    while i < lines.len()
        invariant
            i <= lines@.len(),
            all == line_views(lines@),
            views(out@) == panel_lines(all.take(i as int)),
        decreases lines@.len() - i,
    {
        let line = &lines[i];
        let first = declaration_of(&line.speaker);
        let second = chars_of(line.text.as_str());
        proof {
            assert(all.take(i + 1) == all.take(i as int).push(line@));
            lemma_panel_lines_push(all.take(i as int), line@);
            assert(views(out@.push(first).push(second)) == views(out@) + seq![first@, second@]);
        }
        out.push(first);
        out.push(second);
        i += 1;
    }
    assert(all.take(all.len() as int) == all);
    out
}

/// `lines` in one text, with `sep` between each two of them.
pub fn join_lines(lines: &Vec<Vec<char>>, sep: char) -> (out: Vec<char>)
    ensures
        out@ == join(views(lines@), sep),
{
    let ghost all = views(lines@);
    let mut out: Vec<char> = Vec::new();
    let mut i: usize = 0;
    assert(all.take(0) == Seq::<Seq<char>>::empty());
    while i < lines.len()
        invariant
            i <= lines@.len(),
            all == views(lines@),
            out@ == join(all.take(i as int), sep),
        decreases lines@.len() - i,
    {
        let ghost before = out@;
        proof {
            assert(all.take(i + 1) == all.take(i as int).push(lines@[i as int]@));
            lemma_join_push(all.take(i as int), sep, lines@[i as int]@);
        }
        if i > 0 {
            out.push(sep);
        }
        let mut line = slice_of(&lines[i], 0, lines[i].len());
        out.append(&mut line);
        assert(i > 0 ==> out@ == before + seq![sep] + lines@[i as int]@);
        assert(i == 0 ==> out@ == lines@[i as int]@);
        i += 1;
    }
    assert(all.take(all.len() as int) == all);
    out
}

/// The lines of `groups` in one run, with a separator line between each
/// two groups.
pub fn join_groups(groups: &Vec<Vec<Vec<char>>>) -> (out: Vec<Vec<char>>)
    ensures
        views(out@) == join(group_views(groups@), separator()),
{
    let ghost all = group_views(groups@);
    let mut out: Vec<Vec<char>> = Vec::new();
    let mut i: usize = 0;
    assert(all.take(0) == Seq::<Seq<Seq<char>>>::empty());
    assert(views(out@) == Seq::<Seq<char>>::empty());
    while i < groups.len()
        invariant
            i <= groups@.len(),
            all == group_views(groups@),
            views(out@) == join(all.take(i as int), separator()),
        decreases groups@.len() - i,
    {
        let group = &groups[i];
        let ghost start = views(out@);
        proof {
            assert(all.take(i + 1) == all.take(i as int).push(views(group@)));
            lemma_join_push(all.take(i as int), separator(), views(group@));
        }
        if i > 0 {
            let mut rule: Vec<char> = Vec::new();
            rule.push('-');
            rule.push('-');
            rule.push('-');
            assert(rule@ == separator());
            assert(views(out@.push(rule)) == views(out@).push(rule@));
            out.push(rule);
        }
        let ghost before = views(out@);
        assert(i > 0 ==> before == start + seq![separator()]);
        let mut j: usize = 0;
        assert(views(group@).take(0) == Seq::<Seq<char>>::empty());
        assert(before + Seq::<Seq<char>>::empty() == before);
        while j < group.len()
            invariant
                j <= group@.len(),
                views(out@) == before + views(group@).take(j as int),
            decreases group@.len() - j,
        {
            let line = slice_of(&group[j], 0, group[j].len());
            assert(line@ == group@[j as int]@);
            assert(views(out@.push(line)) == views(out@).push(line@));
            assert(views(group@).take(j + 1) == views(group@).take(j as int).push(line@));
            assert(before + views(group@).take(j as int).push(line@) == (before + views(
                group@,
            ).take(j as int)).push(line@));
            out.push(line);
            j += 1;
        }
        assert(views(group@).take(group@.len() as int) == views(group@));
        assert(i == 0 ==> views(out@) == views(group@)) by {
            assert(Seq::<Seq<char>>::empty() + views(group@) == views(group@));
        }
        i += 1;
    }
    assert(all.take(all.len() as int) == all);
    out
}

/// Whether `line` is not empty, has no white space at either end and no
/// line break inside.
pub fn is_clean_line(line: &Vec<char>) -> (clean: bool)
    ensures
        clean == is_clean(line@),
{
    let len: usize = line.len();
    if len == 0 || is_whitespace(line[0]) || is_whitespace(line[len - 1]) {
        return false;
    }
    let mut i: usize = 0;
    while i < len
        invariant
            i <= len == line@.len(),
            forall|k: int| 0 <= k < i ==> line@[k] != '\n',
        decreases len - i,
    {
        if line[i] == '\n' {
            assert(line@.contains('\n'));
            return false;
        }
        i += 1;
    }
    true
}

/// Whether lowering leaves `s` as it is.
pub fn is_lowered_text(s: &Vec<char>) -> (lowered: bool)
    ensures
        lowered == is_lowered(s@),
{
    let lower = chars_of(to_lowercase(string_of(s).as_str()).as_str());
    same_chars(&lower, s)
}

/// Whether reading the declaration of `speaker` gives `speaker` again.
pub fn speaker_reads_back(speaker: &Speaker) -> (writable: bool)
    ensures
        writable == speaker_is_writable(speaker@),
{
    let line = declaration_of(speaker);
    if !is_clean_line(&line) {
        return false;
    }
    let body = if line[line.len() - 1] == ':' {
        remove_last_char(&line)
    } else {
        slice_of(&line, 0, line.len())
    };
    assert(body@ == declared(line@));
    if !is_lowered_text(&body) {
        return false;
    }
    match speaker {
        Speaker::Character { name, uncommon } => {
            let letters = chars_of(name.as_str());
            *uncommon || letters.len() == 0 || letters[0] != '~'
        },
        _ => true,
    }
}

/// Whether reading what is written for `line` gives `line` again.
pub fn line_reads_back(line: &Line) -> (writable: bool)
    ensures
        writable == line_is_writable(line@),
{
    let text = chars_of(line.text.as_str());
    speaker_reads_back(&line.speaker) && is_clean_line(&text) && !is_separator(&text)
}

impl Transcript {
    /// The transcript as text: for each line spoken the declaration of its
    /// speaker and its text, one to a line, with a separator line between
    /// each two panels.
    pub fn to_text(&self) -> (text: String)
        ensures
            text@ == render(self@),
    {
        let panels = self.panels();
        let ghost all = panel_views(panels@);
        let mut groups: Vec<Vec<Vec<char>>> = Vec::new();
        let mut i: usize = 0;
        assert(group_views(groups@) == groups_of(all).take(0));
        while i < panels.len()
            invariant
                i <= panels@.len(),
                all == panel_views(panels@),
                group_views(groups@) == groups_of(all).take(i as int),
            decreases panels@.len() - i,
        {
            let group = lines_of_panel(&panels[i].lines);
            assert(group_views(groups@.push(group)) == group_views(groups@).push(views(group@)));
            assert(groups_of(all).take(i + 1) == groups_of(all).take(i as int).push(
                views(group@),
            ));
            groups.push(group);
            i += 1;
        }
        assert(groups_of(all).take(all.len() as int) == groups_of(all));
        string_of(&join_lines(&join_groups(&groups), '\n'))
    }

    /// Whether the text of this transcript reads back as this transcript.
    /// It does where each text and each name is a line by itself, without
    /// white space at its ends, no text is a separator line, and the names
    /// are in lower case.
    pub fn reads_back(&self) -> (writable: bool)
        ensures
            writable == is_writable(self@),
            writable ==> parse_transcript(render(self@)) == Ok::<
                Seq<PanelView>,
                TranscriptErrorView,
            >(self@),
    {
        let panels = self.panels();
        let ghost all = panel_views(panels@);
        let mut i: usize = 0;
        while i < panels.len()
            invariant
                i <= panels@.len(),
                all == panel_views(panels@),
                all == self@,
                forall|a: int, b: int|
                    0 <= a < i && 0 <= b < all[a].lines.len() ==> line_is_writable(
                        #[trigger] all[a].lines[b],
                    ),
            decreases panels@.len() - i,
        {
            let lines = &panels[i].lines;
            assert(all[i as int].lines == line_views(lines@));
            let mut j: usize = 0;
            while j < lines.len()
                invariant
                    j <= lines@.len(),
                    i < all.len(),
                    all == self@,
                    all[i as int].lines == line_views(lines@),
                    forall|b: int|
                        0 <= b < j ==> line_is_writable(#[trigger] all[i as int].lines[b]),
                decreases lines@.len() - j,
            {
                assert(all[i as int].lines[j as int] == lines@[j as int]@);
                if !line_reads_back(&lines[j]) {
                    assert(!line_is_writable(self@[i as int].lines[j as int]));
                    return false;
                }
                j += 1;
            }
            i += 1;
        }
        proof {
            lemma_round_trip(all);
        }
        true
    }
}

} // verus!
