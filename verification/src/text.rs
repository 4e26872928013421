//! Character-level helpers: the text of a file as a sequence of characters,
//! white space, trimming and splitting.

use vstd::prelude::*;

verus! {

/// Whether `c` is white space: the characters that Unicode gives the
/// property `White_Space`.
pub open spec fn is_space(c: char) -> bool {
    ||| '\u{9}' <= c <= '\u{D}'
    ||| c == ' '
    ||| c == '\u{85}'
    ||| c == '\u{A0}'
    ||| c == '\u{1680}'
    ||| '\u{2000}' <= c <= '\u{200A}'
    ||| c == '\u{2028}'
    ||| c == '\u{2029}'
    ||| c == '\u{202F}'
    ||| c == '\u{205F}'
    ||| c == '\u{3000}'
}

/// `s` without the white space that it begins with.
pub open spec fn trim_start(s: Seq<char>) -> Seq<char>
    decreases s.len(),
{
    if s.len() > 0 && is_space(s[0]) {
        trim_start(s.drop_first())
    } else {
        s
    }
}

/// `s` without the white space that it ends with.
pub open spec fn trim_end(s: Seq<char>) -> Seq<char>
    decreases s.len(),
{
    if s.len() > 0 && is_space(s.last()) {
        trim_end(s.drop_last())
    } else {
        s
    }
}

/// `s` without white space at either end.
pub open spec fn trimmed(s: Seq<char>) -> Seq<char> {
    trim_end(trim_start(s))
}

/// The position of the first `sep` in `s`, or the length of `s` if it holds none.
pub open spec fn first_index<A>(s: Seq<A>, sep: A) -> int
    decreases s.len(),
{
    if s.len() == 0 || s[0] == sep {
        0
    } else {
        1 + first_index(s.drop_first(), sep)
    }
}

/// The pieces of `s` between occurrences of `sep`, in order. There is always
/// at least one piece, and a piece may be empty.
pub open spec fn split_on<A>(s: Seq<A>, sep: A) -> Seq<Seq<A>>
    decreases s.len(),
{
    let at = first_index(s, sep);
    if 0 <= at < s.len() {
        seq![s.subrange(0, at)] + split_on(s.subrange(at + 1, s.len() as int), sep)
    } else {
        seq![s]
    }
}

/// Each sequence of `pieces`, trimmed.
pub open spec fn trim_each(pieces: Seq<Seq<char>>) -> Seq<Seq<char>> {
    pieces.map_values(|piece: Seq<char>| trimmed(piece))
}

/// The sequences of `pieces` that are not empty, in order.
pub open spec fn drop_empty(pieces: Seq<Seq<char>>) -> Seq<Seq<char>> {
    pieces.filter(|piece: Seq<char>| piece.len() > 0)
}

/// The lines of `s` that hold more than white space, each trimmed.
pub open spec fn content_lines(s: Seq<char>) -> Seq<Seq<char>> {
    drop_empty(trim_each(split_on(s, '\n')))
}

/// `ahead` put in front of what `rest` holds, if `rest` holds anything.
pub open spec fn after<A, E>(ahead: Seq<A>, rest: Result<Seq<A>, E>) -> Result<Seq<A>, E> {
    match rest {
        Ok(items) => Ok(ahead + items),
        Err(error) => Err(error),
    }
}

/// Whether `s` begins with `prefix`.
pub open spec fn begins_with(s: Seq<char>, prefix: Seq<char>) -> bool {
    prefix.len() <= s.len() && s.take(prefix.len() as int) == prefix
}

/// The views of a vector of strings.
pub open spec fn text_views(texts: Seq<String>) -> Seq<Seq<char>> {
    texts.map_values(|text: String| text@)
}

/// The views of a vector of character vectors.
pub open spec fn views(pieces: Seq<Vec<char>>) -> Seq<Seq<char>> {
    pieces.map_values(|piece: Vec<char>| piece@)
}

/// The views of a vector of groups of character vectors.
pub open spec fn group_views(groups: Seq<Vec<Vec<char>>>) -> Seq<Seq<Seq<char>>> {
    groups.map_values(|group: Vec<Vec<char>>| views(group@))
}

/// What `str::to_lowercase` makes of a text.
pub uninterp spec fn lowercase(s: Seq<char>) -> Seq<char>;

/// What `str::to_uppercase` makes of a text.
pub uninterp spec fn uppercase(s: Seq<char>) -> Seq<char>;

/// The first position of `sep` lies within `s` or at its end, holds `sep`
/// where it lies within, and has no `sep` before it.
pub proof fn lemma_first_index_bounds<A>(s: Seq<A>, sep: A)
    ensures
        0 <= first_index(s, sep) <= s.len(),
        first_index(s, sep) < s.len() ==> s[first_index(s, sep)] == sep,
        forall|i: int| 0 <= i < first_index(s, sep) ==> s[i] != sep,
    decreases s.len(),
{
    if s.len() == 0 || s[0] == sep {
    } else {
        lemma_first_index_bounds(s.drop_first(), sep);
        assert forall|i: int| 0 <= i < first_index(s, sep) implies s[i] != sep by {
            if i > 0 {
                assert(s[i] == s.drop_first()[i - 1]);
            }
        }
    }
}

/// A position that holds `sep` and has none before it is the first.
pub proof fn lemma_first_index_is<A>(s: Seq<A>, sep: A, at: int)
    requires
        0 <= at <= s.len(),
        at < s.len() ==> s[at] == sep,
        forall|i: int| 0 <= i < at ==> s[i] != sep,
    ensures
        first_index(s, sep) == at,
{
    lemma_first_index_bounds(s, sep);
    let found = first_index(s, sep);
    if found < at {
        assert(s[found] == sep);
    } else if found > at {
        assert(s[at] != sep);
    }
}

/// White space, as `is_space` defines it.
pub fn is_whitespace(c: char) -> (b: bool)
    ensures
        b == is_space(c),
{
    ('\u{9}' <= c && c <= '\u{D}') || c == ' ' || c == '\u{85}' || c == '\u{A0}' || c
        == '\u{1680}' || ('\u{2000}' <= c && c <= '\u{200A}') || c == '\u{2028}' || c
        == '\u{2029}' || c == '\u{202F}' || c == '\u{205F}' || c == '\u{3000}'
}

/// The characters of a string slice, in order.
pub fn chars_of(s: &str) -> (out: Vec<char>)
    ensures
        out@ == s@,
{
    let mut out: Vec<char> = Vec::new();
    for c in it: s.chars()
        invariant
            out@ == it.seq().take(it.index as int),
    {
        out.push(c);
    }
    out
}

/// Calls `String::push`. Taken on trust: the string afterwards is the
/// string before with `c` at its end.
#[verifier::external_body]
fn push_char(s: &mut String, c: char)
    ensures
        final(s)@ == old(s)@.push(c),
{
    s.push(c)
}

/// The string made of the characters `chars`, in order.
pub fn string_of(chars: &Vec<char>) -> (out: String)
    ensures
        out@ == chars@,
{
    let mut out = String::new();
    let mut i: usize = 0;
    while i < chars.len()
        invariant
            i <= chars@.len(),
            out@ == chars@.take(i as int),
        decreases chars@.len() - i,
    {
        push_char(&mut out, chars[i]);
        i += 1;
        assert(chars@.take(i as int) == chars@.take(i - 1).push(chars@[i - 1]));
    }
    assert(chars@.take(chars@.len() as int) == chars@);
    out
}

/// A copy of the characters of `s` from position `from` up to `to`.
pub fn slice_of(s: &Vec<char>, from: usize, to: usize) -> (out: Vec<char>)
    requires
        from <= to <= s@.len(),
    ensures
        out@ == s@.subrange(from as int, to as int),
{
    let mut out: Vec<char> = Vec::new();
    let mut i: usize = from;
    while i < to
        invariant
            from <= i <= to <= s@.len(),
            out@ == s@.subrange(from as int, i as int),
        decreases to - i,
    {
        out.push(s[i]);
        i += 1;
        assert(s@.subrange(from as int, i as int) == s@.subrange(from as int, i - 1).push(
            s@[i - 1],
        ));
    }
    out
}

/// `s` without white space at either end.
pub fn trim(s: &Vec<char>) -> (out: Vec<char>)
    ensures
        out@ == trimmed(s@),
{
    let len: usize = s.len();
    let mut start: usize = 0;
    assert(s@.subrange(0, len as int) == s@);
    while start < len && is_whitespace(s[start])
        invariant
            start <= len == s@.len(),
            trim_start(s@) == trim_start(s@.subrange(start as int, len as int)),
        decreases len - start,
    {
        assert(s@.subrange(start as int, len as int).drop_first() == s@.subrange(
            start + 1,
            len as int,
        ));
        start += 1;
    }
    let mut end: usize = len;
    while end > start && is_whitespace(s[end - 1])
        invariant
            start <= end <= len == s@.len(),
            trimmed(s@) == trim_end(s@.subrange(start as int, end as int)),
        decreases end,
    {
        assert(s@.subrange(start as int, end as int).drop_last() == s@.subrange(
            start as int,
            end - 1,
        ));
        end -= 1;
    }
    slice_of(s, start, end)
}

/// Calls `str::to_lowercase`. Taken on trust: the lower-case equivalent of
/// a text, as Unicode defines it, depends on the characters of the text
/// alone. Nothing more is claimed of it.
#[verifier::external_body]
pub(crate) fn to_lowercase(s: &str) -> (out: String)
    ensures
        out@ == lowercase(s@),
{
    s.to_lowercase()
}

/// Calls `str::to_uppercase`. Taken on trust: the upper-case equivalent of
/// a text, as Unicode defines it, depends on the characters of the text
/// alone. Nothing more is claimed of it.
#[verifier::external_body]
pub(crate) fn to_uppercase(s: &str) -> (out: String)
    ensures
        out@ == uppercase(s@),
{
    s.to_uppercase()
}

/// Puts the characters of `s` at the end of `out`.
pub fn put(out: &mut Vec<char>, s: &str)
    ensures
        final(out)@ == old(out)@ + s@,
{
    let mut more = chars_of(s);
    out.append(&mut more);
}

/// Puts the characters `s` at the end of `out`.
pub fn put_chars(out: &mut Vec<char>, s: &Vec<char>)
    ensures
        final(out)@ == old(out)@ + s@,
{
    let mut more = slice_of(s, 0, s.len());
    assert(more@ == s@);
    out.append(&mut more);
}

/// Whether `s` holds exactly the characters of `word`.
pub fn is_word(s: &Vec<char>, word: &str) -> (b: bool)
    ensures
        b == (s@ == word@),
{
    let other = chars_of(word);
    same_chars(s, &other)
}

/// Whether `a` and `b` hold the same characters.
pub fn same_chars(a: &Vec<char>, b: &Vec<char>) -> (b_eq: bool)
    ensures
        b_eq == (a@ == b@),
{
    if a.len() != b.len() {
        return false;
    }
    let mut i: usize = 0;
    while i < a.len()
        invariant
            i <= a@.len() == b@.len(),
            a@.take(i as int) == b@.take(i as int),
        decreases a@.len() - i,
    {
        if a[i] != b[i] {
            return false;
        }
        i += 1;
        assert(a@.take(i as int) == a@.take(i - 1).push(a@[i - 1]));
        assert(b@.take(i as int) == b@.take(i - 1).push(b@[i - 1]));
    }
    assert(a@.take(a@.len() as int) == a@);
    assert(b@.take(b@.len() as int) == b@);
    true
}

/// Whether `s` begins with the characters of `prefix`.
pub fn starts_with(s: &Vec<char>, prefix: &str) -> (b: bool)
    ensures
        b == begins_with(s@, prefix@),
{
    let start = chars_of(prefix);
    if start.len() > s.len() {
        return false;
    }
    let head = slice_of(s, 0, start.len());
    same_chars(&head, &start)
}

/// The lines of `s` that hold more than white space, each trimmed.
pub fn lines(s: &Vec<char>) -> (out: Vec<Vec<char>>)
    ensures
        views(out@) == content_lines(s@),
{
    let raw = split(s, '\n');
    let mut out: Vec<Vec<char>> = Vec::new();
    let mut i: usize = 0;
    assert(views(raw@).take(0) == Seq::<Seq<char>>::empty());
    assert(views(out@) == Seq::<Seq<char>>::empty());
    while i < raw.len()
        invariant
            i <= raw@.len(),
            views(out@) == drop_empty(trim_each(views(raw@).take(i as int))),
        decreases raw@.len() - i,
    {
        let line = trim(&raw[i]);
        proof {
            let before = views(raw@).take(i as int);
            let keep = |piece: Seq<char>| piece.len() > 0;
            assert(views(raw@).take(i + 1) == before.push(raw@[i as int]@));
            assert(trim_each(before.push(raw@[i as int]@)) == trim_each(before).push(line@));
            trim_each(before).lemma_filter_push(line@, keep);
            assert(views(out@.push(line)) == views(out@).push(line@));
        }
        if line.len() > 0 {
            out.push(line);
        }
        i += 1;
    }
    assert(views(raw@).take(raw@.len() as int) == views(raw@));
    out
}

/// The position of the first text of `texts` that equals `text`, if there
/// is one.
pub fn find_text(texts: &Vec<String>, text: &Vec<char>) -> (at: Option<usize>)
    ensures
        match at {
            Some(at) => at < texts@.len() && first_index(text_views(texts@), text@) == at,
            None => first_index(text_views(texts@), text@) == texts@.len(),
        },
{
    let ghost all = text_views(texts@);
    let mut i: usize = 0;
    while i < texts.len()
        invariant
            i <= texts@.len(),
            all == text_views(texts@),
            forall|k: int| 0 <= k < i ==> all[k] != text@,
        decreases texts@.len() - i,
    {
        let other = chars_of(texts[i].as_str());
        assert(all[i as int] == other@);
        if same_chars(&other, text) {
            proof {
                lemma_first_index_is(all, text@, i as int);
            }
            return Some(i);
        }
        i += 1;
    }
    proof {
        lemma_first_index_is(all, text@, all.len() as int);
    }
    None
}

/// The pieces of `s` between occurrences of `sep`.
pub fn split(s: &Vec<char>, sep: char) -> (pieces: Vec<Vec<char>>)
    ensures
        views(pieces@) == split_on(s@, sep),
{
    let len: usize = s.len();
    let mut pieces: Vec<Vec<char>> = Vec::new();
    let mut from: usize = 0;
    let mut i: usize = 0;
    assert(s@.subrange(0, len as int) == s@);
    assert(views(pieces@) + split_on(s@, sep) == split_on(s@, sep));
    while i < len
        invariant
            from <= i <= len == s@.len(),
            forall|k: int| from <= k < i ==> s@[k] != sep,
            split_on(s@, sep) == views(pieces@) + split_on(s@.subrange(from as int, len as int), sep),
        decreases len - i,
    {
        if s[i] == sep {
            let piece = slice_of(s, from, i);
            proof {
                let rest = s@.subrange(from as int, len as int);
                assert forall|k: int| 0 <= k < i - from implies rest[k] != sep by {
                    assert(rest[k] == s@[from + k]);
                }
                lemma_first_index_is(rest, sep, i - from);
                assert(rest.subrange(0, i - from) == piece@);
                assert(rest.subrange(i - from + 1, rest.len() as int) == s@.subrange(
                    i + 1,
                    len as int,
                ));
                assert(views(pieces@.push(piece)) == views(pieces@) + seq![piece@]);
            }
            pieces.push(piece);
            from = i + 1;
        }
        i += 1;
    }
    let piece = slice_of(s, from, len);
    proof {
        let rest = s@.subrange(from as int, len as int);
        assert forall|k: int| 0 <= k < rest.len() implies rest[k] != sep by {
            assert(rest[k] == s@[from + k]);
        }
        lemma_first_index_is(rest, sep, rest.len() as int);
        assert(views(pieces@.push(piece)) == views(pieces@) + seq![piece@]);
    }
    pieces.push(piece);
    pieces
}

} // verus!
