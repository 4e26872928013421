//! A post as a JSON document, and the whole list as a JSON array.
//!
//! A text is written between quotation marks, with each quotation mark,
//! backslash and control character in it replaced by its escape.

use crate::corpus::{post_views, PostList, PostRef};
use crate::number::{decimal, decimal_of, digit, digit_of};
use crate::post::{folder_name, Errata, Post, PostView, Props, Special};
use crate::render::{join, join_lines};
use crate::text::{chars_of, put, put_chars, string_of, to_uppercase, uppercase, views};
use crate::transcript::{
    panel_views, LineView, Panel, PanelView, Speaker, SpeakerView, Transcript,
};
use vstd::prelude::*;

verus! {

/// The character of the hexadecimal digit `d`.
pub open spec fn hex_digit(d: nat) -> char {
    if d < 10 {
        digit(d)
    } else if d == 10 {
        'a'
    } else if d == 11 {
        'b'
    } else if d == 12 {
        'c'
    } else if d == 13 {
        'd'
    } else if d == 14 {
        'e'
    } else {
        'f'
    }
}

/// What stands for `c` inside a JSON string: `c` itself, or its escape if
/// it is a quotation mark, a backslash or a control character.
pub open spec fn escape(c: char) -> Seq<char> {
    if c == '"' {
        seq!['\\', '"']
    } else if c == '\\' {
        seq!['\\', '\\']
    } else if c == '\n' {
        seq!['\\', 'n']
    } else if c == '\r' {
        seq!['\\', 'r']
    } else if c == '\t' {
        seq!['\\', 't']
    } else if c == '\u{8}' {
        seq!['\\', 'b']
    } else if c == '\u{c}' {
        seq!['\\', 'f']
    } else if c <= '\u{1f}' {
        seq![
            '\\',
            'u',
            '0',
            '0',
            hex_digit((c as u32 / 16) as nat),
            hex_digit((c as u32 % 16) as nat),
        ]
    } else {
        seq![c]
    }
}

/// `s` with each of its characters replaced by what stands for it inside a
/// JSON string.
pub open spec fn escaped(s: Seq<char>) -> Seq<char>
    decreases s.len(),
{
    if s.len() == 0 {
        Seq::empty()
    } else {
        escaped(s.drop_last()) + escape(s.last())
    }
}

/// The number that the hexadecimal digit `c` stands for.
pub open spec fn hex_value(c: char) -> nat {
    if '0' <= c <= '9' {
        (c as u32 - '0' as u32) as nat
    } else {
        (c as u32 - 'a' as u32 + 10) as nat
    }
}

/// How many characters of `t` the escape at its start takes up, or the one
/// character that stands for itself.
pub open spec fn escape_len(t: Seq<char>) -> int {
    if t.len() >= 2 && t[0] == '\\' {
        if t[1] == 'u' && t.len() >= 6 {
            6
        } else {
            2
        }
    } else {
        1
    }
}

/// The character that the start of `t` stands for inside a JSON string.
pub open spec fn unescape(t: Seq<char>) -> char {
    if t.len() >= 2 && t[0] == '\\' {
        if t[1] == 'n' {
            '\n'
        } else if t[1] == 'r' {
            '\r'
        } else if t[1] == 't' {
            '\t'
        } else if t[1] == 'b' {
            '\u{8}'
        } else if t[1] == 'f' {
            '\u{c}'
        } else if t[1] == 'u' && t.len() >= 6 {
            ((hex_value(t[4]) * 16 + hex_value(t[5])) as u8) as char
        } else {
            t[1]
        }
    } else {
        t[0]
    }
}

/// The text that `t` stands for inside a JSON string: each escape of `t`
/// replaced by the character that it stands for.
pub open spec fn unescaped(t: Seq<char>) -> Seq<char>
    decreases t.len(),
{
    if t.len() == 0 {
        Seq::empty()
    } else {
        seq![unescape(t)] + unescaped(t.skip(escape_len(t)))
    }
}

/// What stands for a character is read back as that character, whatever
/// follows it, and holds no control character.
pub proof fn lemma_escape_reads_back(c: char, rest: Seq<char>)
    ensures
        escape_len(escape(c) + rest) == escape(c).len(),
        unescape(escape(c) + rest) == c,
        forall|i: int| 0 <= i < escape(c).len() ==> escape(c)[i] > '\u{1f}',
{
    let t = escape(c) + rest;
    assert(t[0] == escape(c)[0]);
    if escape(c).len() >= 2 {
        assert(t[1] == escape(c)[1]);
    }
    if escape(c).len() == 6 {
        assert(t[4] == escape(c)[4]);
        assert(t[5] == escape(c)[5]);
        let code = c as u32;
        assert(code <= 0x1f);
        assert(hex_value(hex_digit((code / 16) as nat)) == code / 16);
        assert(hex_value(hex_digit((code % 16) as nat)) == code % 16);
        assert((code / 16) * 16 + code % 16 == code);
        assert(((code as u8) as char) == c);
    }
}

/// Escaping a text that begins with `c` puts what stands for `c` first.
pub proof fn lemma_escaped_front(c: char, s: Seq<char>)
    ensures
        escaped(seq![c] + s) == escape(c) + escaped(s),
    decreases s.len(),
{
    let whole = seq![c] + s;
    if s.len() == 0 {
        assert(whole.drop_last() == Seq::<char>::empty());
        assert(whole.last() == c);
        assert(escaped(Seq::<char>::empty()) == Seq::<char>::empty());
        assert(escaped(whole) == Seq::<char>::empty() + escape(c));
        assert(escape(c) + escaped(s) == escape(c));
        assert(Seq::<char>::empty() + escape(c) == escape(c));
    } else {
        assert(whole.drop_last() == seq![c] + s.drop_last());
        assert(whole.last() == s.last());
        lemma_escaped_front(c, s.drop_last());
        assert(escape(c) + escaped(s.drop_last()) + escape(s.last()) == escape(c) + (escaped(
            s.drop_last(),
        ) + escape(s.last())));
    }
}

/// An escaped text holds no control character, and reading its escapes
/// gives the text again.
pub proof fn lemma_escaped_reads_back(s: Seq<char>)
    ensures
        unescaped(escaped(s)) == s,
        forall|i: int| 0 <= i < escaped(s).len() ==> escaped(s)[i] > '\u{1f}',
    decreases s.len(),
{
    if s.len() == 0 {
    } else {
        let c = s[0];
        let rest = s.drop_first();
        assert(seq![c] + rest == s);
        lemma_escaped_front(c, rest);
        lemma_escape_reads_back(c, escaped(rest));
        lemma_escaped_reads_back(rest);
        let t = escaped(s);
        assert(t == escape(c) + escaped(rest));
        assert(t.skip(escape(c).len() as int) == escaped(rest));
        assert(t.len() > 0);
        assert forall|i: int| 0 <= i < t.len() implies t[i] > '\u{1f}' by {
            if i < escape(c).len() {
                assert(t[i] == escape(c)[i]);
            } else {
                assert(t[i] == escaped(rest)[i - escape(c).len()]);
            }
        }
    }
}

/// `s` as a JSON string: escaped, between quotation marks.
pub open spec fn quoted(s: Seq<char>) -> Seq<char> {
    seq!['"'] + escaped(s) + seq!['"']
}

/// `items` between square brackets, with commas between them.
pub open spec fn array(items: Seq<Seq<char>>) -> Seq<char> {
    seq!['['] + join(items, ',') + seq![']']
}

/// A truth value as JSON writes it.
pub open spec fn truth(b: bool) -> Seq<char> {
    if b {
        "true"@
    } else {
        "false"@
    }
}

/// The name under which `speaker` is listed: one of the two markers, or
/// the name of the character in upper case.
pub open spec fn speaker_label(speaker: SpeakerView) -> Seq<char> {
    match speaker {
        SpeakerView::Text => "[skribo]"@,
        SpeakerView::Sound => "[sono]"@,
        SpeakerView::Character { name, uncommon } => uppercase(name),
    }
}

/// A pair of quoted texts.
pub open spec fn entry_json(label: Seq<char>, text: Seq<char>) -> Seq<char> {
    array(seq![quoted(label), quoted(text)])
}

/// A line of a transcript: the label of its speaker, and its text.
pub open spec fn line_json(line: LineView) -> Seq<char> {
    entry_json(speaker_label(line.speaker), line.text)
}

/// A panel: the array of its lines.
pub open spec fn panel_json(panel: PanelView) -> Seq<char> {
    array(panel.lines.map_values(|line: LineView| line_json(line)))
}

/// A transcript: the array of its panels, or `null` where there is none.
pub open spec fn transcript_json(transcript: Option<Seq<PanelView>>) -> Seq<char> {
    match transcript {
        None => "null"@,
        Some(panels) => array(panels.map_values(|panel: PanelView| panel_json(panel))),
    }
}

/// The corrections of a post: the array of the pairs of a wrong phrase and
/// the right one.
pub open spec fn errata_json(errata: Seq<(Seq<char>, Seq<char>)>) -> Seq<char> {
    array(errata.map_values(|pair: (Seq<char>, Seq<char>)| entry_json(pair.0, pair.1)))
}

/// The four properties, as an object.
pub open spec fn props_json(props: Props) -> Seq<char> {
    "{\"nogarfield\":"@ + truth(props.nogarfield) + ",\"notext\":"@ + truth(props.notext)
        + ",\"good\":"@ + truth(props.good) + ",\"earsback\":"@ + truth(props.earsback) + "}"@
}

/// An occasion: its word between quotation marks, or `null`.
pub open spec fn special_json(special: Option<Special>) -> Seq<char> {
    match special {
        None => "null"@,
        Some(Special::Halloween) => "\"haloveno\""@,
        Some(Special::Christmas) => "\"kristnasko\""@,
        Some(Special::NewYears) => "\"novjaro\""@,
    }
}

/// The index of a neighbour, if there is one.
pub open spec fn neighbor_json(index: Option<nat>) -> Seq<char> {
    match index {
        None => "null"@,
        Some(index) => quoted(folder_name(index)),
    }
}

/// The index of the post at place `at` of `posts`, if there is such a
/// place.
pub open spec fn index_at(posts: Seq<PostView>, at: int) -> Option<nat> {
    if 0 <= at < posts.len() {
        Some(posts[at].index)
    } else {
        None
    }
}

/// The members that a post has of itself, with commas between them: its
/// index, title and date, its transcript, its properties and occasion,
/// what is known of its old versions and errata, and its image.
pub open spec fn fields_json(post: PostView) -> Seq<char> {
    "\"index\":"@ + quoted(folder_name(post.index)) + ",\"title\":"@ + quoted(post.title)
        + ",\"date\":"@ + quoted(post.date) + ",\"is_sunday\":"@ + truth(post.is_sunday)
        + ",\"transcript\":"@ + transcript_json(post.transcript) + ",\"props\":"@ + props_json(
        post.props,
    ) + ",\"special\":"@ + special_json(post.special) + ",\"is_revised\":"@ + truth(
        post.is_revised,
    ) + ",\"version\":"@ + decimal(post.version) + ",\"errata\":"@ + errata_json(post.errata)
        + ",\"is_old\":"@ + truth(post.is_old) + ",\"image_bytes\":"@ + decimal(post.image_bytes)
}

/// The document of a post with the given neighbours: the indices of the
/// neighbours, then the members of the post itself.
pub open spec fn post_json(post: PostView, previous: Option<nat>, next: Option<nat>) -> Seq<
    char,
> {
    "{\"previous\":"@ + neighbor_json(previous) + ",\"next\":"@ + neighbor_json(next) + ","@
        + fields_json(post) + "}"@
}

/// The document of a post by itself, without its neighbours.
pub open spec fn post_alone_json(post: PostView) -> Seq<char> {
    "{"@ + fields_json(post) + "}"@
}

/// The document of the post at place `at` of `posts`.
pub open spec fn item_json(posts: Seq<PostView>, at: int) -> Seq<char> {
    post_json(posts[at], index_at(posts, at - 1), index_at(posts, at + 1))
}

/// The documents of all of `posts`, as one array.
pub open spec fn list_json(posts: Seq<PostView>) -> Seq<char> {
    array(Seq::new(posts.len(), |at: int| item_json(posts, at)))
}

/// `items` between square brackets, with commas between them.
pub fn array_of(items: &Vec<Vec<char>>) -> (out: Vec<char>)
    ensures
        out@ == array(views(items@)),
{
    let mut out: Vec<char> = Vec::new();
    out.push('[');
    put_chars(&mut out, &join_lines(items, ','));
    out.push(']');
    out
}

/// The character of the hexadecimal digit `d`.
pub fn hex_digit_of(d: u32) -> (c: char)
    requires
        d < 16,
    ensures
        c == hex_digit(d as nat),
{
    if d < 10 {
        digit_of(d as u64)
    } else if d == 10 {
        'a'
    } else if d == 11 {
        'b'
    } else if d == 12 {
        'c'
    } else if d == 13 {
        'd'
    } else if d == 14 {
        'e'
    } else {
        'f'
    }
}

/// Puts at the end of `out` what stands for `c` inside a JSON string.
pub fn put_escape(out: &mut Vec<char>, c: char)
    ensures
        final(out)@ == old(out)@ + escape(c),
{
    let ghost before = out@;
    if c == '"' || c == '\\' {
        out.push('\\');
        out.push(c);
        assert(out@ == before + seq!['\\', c]);
    } else if c == '\n' {
        out.push('\\');
        out.push('n');
        assert(out@ == before + seq!['\\', 'n']);
    } else if c == '\r' {
        out.push('\\');
        out.push('r');
        assert(out@ == before + seq!['\\', 'r']);
    } else if c == '\t' {
        out.push('\\');
        out.push('t');
        assert(out@ == before + seq!['\\', 't']);
    } else if c == '\u{8}' {
        out.push('\\');
        out.push('b');
        assert(out@ == before + seq!['\\', 'b']);
    } else if c == '\u{c}' {
        out.push('\\');
        out.push('f');
        assert(out@ == before + seq!['\\', 'f']);
    } else if c <= '\u{1f}' {
        let code: u32 = c as u32;
        let high = hex_digit_of(code / 16);
        let low = hex_digit_of(code % 16);
        out.push('\\');
        out.push('u');
        out.push('0');
        out.push('0');
        out.push(high);
        out.push(low);
        assert(out@ == before + seq!['\\', 'u', '0', '0', high, low]);
    } else {
        out.push(c);
        assert(out@ == before + seq![c]);
    }
}

/// `s` as a JSON string: escaped, between quotation marks.
pub fn quoted_of(s: &Vec<char>) -> (out: Vec<char>)
    ensures
        out@ == quoted(s@),
{
    let mut out: Vec<char> = Vec::new();
    out.push('"');
    let mut i: usize = 0;
    assert(s@.take(0) == Seq::<char>::empty());
    assert(out@ == seq!['"'] + escaped(s@.take(0)));
    while i < s.len()
        invariant
            i <= s@.len(),
            out@ == seq!['"'] + escaped(s@.take(i as int)),
        decreases s@.len() - i,
    {
        let ghost before = escaped(s@.take(i as int));
        assert(s@.take(i + 1).drop_last() == s@.take(i as int));
        assert(s@.take(i + 1).last() == s@[i as int]);
        put_escape(&mut out, s[i]);
        assert(seq!['"'] + before + escape(s@[i as int]) == seq!['"'] + (before + escape(
            s@[i as int],
        )));
        i += 1;
    }
    assert(s@.take(s@.len() as int) == s@);
    out.push('"');
    out
}

/// A truth value as JSON writes it.
pub fn truth_of(b: bool) -> (out: &'static str)
    ensures
        out@ == truth(b),
{
    if b {
        "true"
    } else {
        "false"
    }
}

/// A pair of quoted texts.
pub fn entry_of(label: &Vec<char>, text: &Vec<char>) -> (out: Vec<char>)
    ensures
        out@ == entry_json(label@, text@),
{
    let mut items: Vec<Vec<char>> = Vec::new();
    items.push(quoted_of(label));
    items.push(quoted_of(text));
    assert(views(items@) == seq![quoted(label@), quoted(text@)]);
    array_of(&items)
}

/// The name under which `speaker` is listed.
pub fn label_of(speaker: &Speaker) -> (out: Vec<char>)
    ensures
        out@ == speaker_label(speaker@),
{
    match speaker {
        Speaker::Text => chars_of("[skribo]"),
        Speaker::Sound => chars_of("[sono]"),
        Speaker::Character { name, uncommon } => chars_of(to_uppercase(name.as_str()).as_str()),
    }
}

/// The array of the lines of a panel.
pub fn panel_of(panel: &Panel) -> (out: Vec<char>)
    ensures
        out@ == panel_json(panel@),
{
    let lines = &panel.lines;
    let ghost wanted = panel@.lines.map_values(|line: LineView| line_json(line));
    let mut items: Vec<Vec<char>> = Vec::new();
    let mut i: usize = 0;
    assert(views(items@) == wanted.take(0));
    while i < lines.len()
        invariant
            i <= lines@.len(),
            wanted == panel@.lines.map_values(|line: LineView| line_json(line)),
            lines == panel.lines,
            views(items@) == wanted.take(i as int),
        decreases lines@.len() - i,
    {
        let line = &lines[i];
        let item = entry_of(&label_of(&line.speaker), &chars_of(line.text.as_str()));
        assert(panel@.lines[i as int] == line@);
        assert(views(items@.push(item)) == views(items@).push(item@));
        assert(wanted.take(i + 1) == wanted.take(i as int).push(item@));
        items.push(item);
        i += 1;
    }
    assert(wanted.take(wanted.len() as int) == wanted);
    array_of(&items)
}

/// The array of the panels of a transcript, or `null` where there is none.
pub fn transcript_of(transcript: &Option<Transcript>) -> (out: Vec<char>)
    ensures
        out@ == transcript_json(
            match *transcript {
                Some(transcript) => Some(transcript@),
                None => None,
            },
        ),
{
    match transcript {
        None => chars_of("null"),
        Some(transcript) => {
            let panels = transcript.panels();
            let ghost wanted = transcript@.map_values(|panel: PanelView| panel_json(panel));
            let mut items: Vec<Vec<char>> = Vec::new();
            let mut i: usize = 0;
            assert(views(items@) == wanted.take(0));
            while i < panels.len()
                invariant
                    i <= panels@.len(),
                    panel_views(panels@) == transcript@,
                    wanted == transcript@.map_values(|panel: PanelView| panel_json(panel)),
                    views(items@) == wanted.take(i as int),
                decreases panels@.len() - i,
            {
                let item = panel_of(&panels[i]);
                assert(transcript@[i as int] == panels@[i as int]@);
                assert(views(items@.push(item)) == views(items@).push(item@));
                assert(wanted.take(i + 1) == wanted.take(i as int).push(item@));
                items.push(item);
                i += 1;
            }
            assert(wanted.take(wanted.len() as int) == wanted);
            array_of(&items)
        },
    }
}

/// The array of the corrections of a post.
pub fn errata_of(errata: &Errata) -> (out: Vec<char>)
    ensures
        out@ == errata_json(errata@),
{
    let pairs = &errata.0;
    let ghost wanted = errata@.map_values(
        |pair: (Seq<char>, Seq<char>)| entry_json(pair.0, pair.1),
    );
    let mut items: Vec<Vec<char>> = Vec::new();
    let mut i: usize = 0;
    assert(views(items@) == wanted.take(0));
    while i < pairs.len()
        invariant
            i <= pairs@.len(),
            pairs == errata.0,
            wanted == errata@.map_values(
                |pair: (Seq<char>, Seq<char>)| entry_json(pair.0, pair.1),
            ),
            views(items@) == wanted.take(i as int),
        decreases pairs@.len() - i,
    {
        let item = entry_of(&chars_of(pairs[i].0.as_str()), &chars_of(pairs[i].1.as_str()));
        assert(errata@[i as int] == (pairs@[i as int].0@, pairs@[i as int].1@));
        assert(views(items@.push(item)) == views(items@).push(item@));
        assert(wanted.take(i + 1) == wanted.take(i as int).push(item@));
        items.push(item);
        i += 1;
    }
    assert(wanted.take(wanted.len() as int) == wanted);
    array_of(&items)
}

/// The object of the four properties.
pub fn props_of(props: Props) -> (out: Vec<char>)
    ensures
        out@ == props_json(props),
{
    let mut out: Vec<char> = Vec::new();
    put(&mut out, "{\"nogarfield\":");
    put(&mut out, truth_of(props.nogarfield));
    put(&mut out, ",\"notext\":");
    put(&mut out, truth_of(props.notext));
    put(&mut out, ",\"good\":");
    put(&mut out, truth_of(props.good));
    put(&mut out, ",\"earsback\":");
    put(&mut out, truth_of(props.earsback));
    put(&mut out, "}");
    assert(Seq::<char>::empty() + "{\"nogarfield\":"@ == "{\"nogarfield\":"@);
    out
}

/// The word of an occasion between quotation marks, or `null`.
pub fn special_of(special: Option<Special>) -> (out: &'static str)
    ensures
        out@ == special_json(special),
{
    match special {
        None => "null",
        Some(Special::Halloween) => "\"haloveno\"",
        Some(Special::Christmas) => "\"kristnasko\"",
        Some(Special::NewYears) => "\"novjaro\"",
    }
}

/// The index of a neighbour between quotation marks, or `null`.
pub fn neighbor_of(neighbor: Option<&Post>) -> (out: Vec<char>)
    ensures
        out@ == neighbor_json(
            match neighbor {
                Some(post) => Some(post@.index),
                None => None,
            },
        ),
{
    match neighbor {
        None => chars_of("null"),
        Some(post) => quoted_of(&chars_of(post.index().as_str())),
    }
}

/// The members that a post has of itself, with commas between them.
pub fn fields_of(post: &Post) -> (out: Vec<char>)
    ensures
        out@ == fields_json(post@),
{
    let mut out: Vec<char> = Vec::new();
    put(&mut out, "\"index\":");
    assert(out@ == "\"index\":"@);
    put_chars(&mut out, &quoted_of(&chars_of(post.index().as_str())));
    put(&mut out, ",\"title\":");
    put_chars(&mut out, &quoted_of(&chars_of(post.title.as_str())));
    put(&mut out, ",\"date\":");
    put_chars(&mut out, &quoted_of(&chars_of(post.date.as_str())));
    put(&mut out, ",\"is_sunday\":");
    put(&mut out, truth_of(post.is_sunday));
    put(&mut out, ",\"transcript\":");
    put_chars(&mut out, &transcript_of(&post.transcript));
    put(&mut out, ",\"props\":");
    put_chars(&mut out, &props_of(post.props));
    put(&mut out, ",\"special\":");
    put(&mut out, special_of(post.special));
    put(&mut out, ",\"is_revised\":");
    put(&mut out, truth_of(post.is_revised));
    put(&mut out, ",\"version\":");
    put_chars(&mut out, &decimal_of(post.version));
    put(&mut out, ",\"errata\":");
    put_chars(&mut out, &errata_of(&post.errata));
    put(&mut out, ",\"is_old\":");
    put(&mut out, truth_of(post.is_old));
    put(&mut out, ",\"image_bytes\":");
    put_chars(&mut out, &decimal_of(post.image_bytes));
    out
}

/// The document of `post` with the neighbours `previous` and `next`.
pub fn post_document(post: &Post, previous: Option<&Post>, next: Option<&Post>) -> (out: Vec<char>)
    ensures
        out@ == post_json(
            post@,
            match previous {
                Some(post) => Some(post@.index),
                None => None,
            },
            match next {
                Some(post) => Some(post@.index),
                None => None,
            },
        ),
{
    let mut out: Vec<char> = Vec::new();
    put(&mut out, "{\"previous\":");
    assert(out@ == "{\"previous\":"@);
    put_chars(&mut out, &neighbor_of(previous));
    put(&mut out, ",\"next\":");
    put_chars(&mut out, &neighbor_of(next));
    put(&mut out, ",");
    put_chars(&mut out, &fields_of(post));
    put(&mut out, "}");
    out
}

impl Post {
    /// The document of the post by itself, without its neighbours.
    pub fn to_json(&self) -> (out: String)
        ensures
            out@ == post_alone_json(self@),
    {
        let mut out: Vec<char> = Vec::new();
        put(&mut out, "{");
        assert(out@ == "{"@);
        put_chars(&mut out, &fields_of(self));
        put(&mut out, "}");
        string_of(&out)
    }
}

/// The document of the post that `post_ref` stands at: its fields, and
/// the indices of the posts before and after it in the list.
pub fn json_post(post_ref: PostRef<'_>) -> (out: String)
    ensures
        0 <= post_ref.position() < post_ref.seq().len(),
        out@ == item_json(post_views(post_ref.seq()), post_ref.position()),
{
    let around = post_ref.neighbors();
    let ghost posts = post_views(post_ref.seq());
    let ghost at = post_ref.position();
    assert(posts[at] == around.item@);
    assert(around.prev is Some ==> posts[at - 1] == around.prev->0@);
    assert(around.next is Some ==> posts[at + 1] == around.next->0@);
    string_of(&post_document(around.item, around.prev, around.next))
}

/// The documents of all posts of the list, as one array.
pub fn json_index(posts: &PostList) -> (out: String)
    ensures
        out@ == list_json(post_views(posts@)),
{
    let ghost given = post_views(posts@);
    let ghost wanted = Seq::new(given.len(), |at: int| item_json(given, at));
    let count: usize = posts.len();
    let mut items: Vec<Vec<char>> = Vec::new();
    let mut i: usize = 0;
    assert(views(items@) == wanted.take(0));
    while i < count
        invariant
            i <= count == posts@.len(),
            given == post_views(posts@),
            wanted == Seq::new(given.len(), |at: int| item_json(given, at)),
            views(items@) == wanted.take(i as int),
        decreases count - i,
    {
        let item = chars_of(json_post(posts.get_ref(i).unwrap()).as_str());
        assert(views(items@.push(item)) == views(items@).push(item@));
        assert(wanted.take(i + 1) == wanted.take(i as int).push(item@));
        items.push(item);
        i += 1;
    }
    assert(wanted.take(wanted.len() as int) == wanted);
    string_of(&array_of(&items))
}

} // verus!
