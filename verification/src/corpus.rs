//! From the folders of an archive to its list of posts.
//!
//! A folder is handed over as plain values: its name, the text of each
//! sidecar file that it holds, and which images it holds. The posts are
//! checked one by one in the order of the folders' names, each against the
//! posts before it, and the first fault ends the build.

use crate::archive::{
    archive_fault, count_of, counts_from_zero, lemma_archive_in_order, ArchiveError,
    ArchiveErrorView, OldVersions,
};
use crate::list::{ItemRef, List};
use crate::order::{
    all_differ, arrange, each_is_among, is_permutation, lemma_listing_is_immaterial,
    lemma_order_of, order_of, positions, sort_order,
};
use crate::post::{
    errata_of, falls_on_sunday, folder_name, is_valid_date, parse_errata, parse_props, props_of,
    special_of, valid_date, Errata, ErrataError, ErrataErrorView, Index, Post, PostView, Props,
    PropsError, PropsErrorView, Special,
};
use crate::text::{
    begins_with, chars_of, find_text, first_index, lemma_first_index_bounds, same_chars,
    starts_with, string_of, text_views, trim, trimmed, views,
};
use crate::transcript::{
    parse_transcript, PanelView, Transcript, TranscriptError, TranscriptErrorView,
};
use vstd::prelude::*;

verus! {

/// The list of the posts of an archive.
pub type PostList = List<Post>;

/// A handle on one post of such a list.
pub type PostRef<'a> = ItemRef<'a, Post>;

/// What the folder of one post holds.
#[derive(Clone, Debug, PartialEq, Eq, Default)]
pub struct PostFolder {
    /// The name of the folder.
    pub name: String,
    /// The text of the file `title`.
    pub title: Option<String>,
    /// The text of the file `date`.
    pub date: Option<String>,
    /// The text of the file `transcript`.
    pub transcript: Option<String>,
    /// The text of the file `props`.
    pub props: Option<String>,
    /// The text of the file `special`.
    pub special: Option<String>,
    /// The text of the file `errata`.
    pub errata: Option<String>,
    /// The size of the file `esperanto.png`.
    pub esperanto_png: Option<u64>,
    /// Whether there is a file `english.png`.
    pub english_png: bool,
    /// Whether there is a file `esperanto.svg`.
    pub esperanto_svg: bool,
    /// Whether there is a file `esperanto.xcf`.
    pub esperanto_xcf: bool,
}

/// A file that every folder must hold.
#[derive(Clone, Copy, Debug, PartialEq, Eq)]
pub enum RequiredFile {
    Title,
    Date,
    EsperantoImage,
    EnglishImage,
}

/// Why a folder is not a post.
#[derive(Clone, Debug, PartialEq, Eq)]
pub enum PostError {
    /// The folder is not named by the index of the post.
    FolderName { expected: String, found: String },
    /// The folder lacks this file.
    Missing(RequiredFile),
    /// The title holds nothing but white space.
    EmptyTitle,
    /// The title does not begin with the name of the comic.
    TitlePrefix,
    /// The post at `other` has the same title.
    DuplicateTitle { title: String, other: Index },
    /// The date does not have the form of a date.
    InvalidDate(String),
    /// The post at `other` has the same date.
    DuplicateDate { date: String, other: Index },
    Transcript(TranscriptError),
    Props(PropsError),
    /// The word in the file `special` names no occasion.
    Special(String),
    Errata(ErrataError),
}

/// Why an archive is not a corpus.
#[derive(Clone, Debug, PartialEq, Eq)]
pub enum BuildError {
    /// The archive of old versions is out of order.
    Archive(ArchiveError),
    /// There is no post at all.
    Empty,
    /// The folder at place `index` is not a post.
    Post { index: Index, error: PostError },
}

/// A [`PostFolder`] with its texts as sequences of characters.
pub struct FolderView {
    pub name: Seq<char>,
    pub title: Option<Seq<char>>,
    pub date: Option<Seq<char>>,
    pub transcript: Option<Seq<char>>,
    pub props: Option<Seq<char>>,
    pub special: Option<Seq<char>>,
    pub errata: Option<Seq<char>>,
    pub esperanto_png: Option<u64>,
    pub english_png: bool,
    pub esperanto_svg: bool,
    pub esperanto_xcf: bool,
}

/// A [`PostError`] with its texts as sequences of characters.
pub enum PostErrorView {
    FolderName { expected: Seq<char>, found: Seq<char> },
    Missing(RequiredFile),
    EmptyTitle,
    TitlePrefix,
    DuplicateTitle { title: Seq<char>, other: nat },
    InvalidDate(Seq<char>),
    DuplicateDate { date: Seq<char>, other: nat },
    Transcript(TranscriptErrorView),
    Props(PropsErrorView),
    Special(Seq<char>),
    Errata(ErrataErrorView),
}

/// A [`BuildError`] with its texts as sequences of characters.
pub enum BuildErrorView {
    Archive(ArchiveErrorView),
    Empty,
    Post { index: nat, error: PostErrorView },
}

/// The view of a text that may be absent.
pub open spec fn text_view(text: Option<String>) -> Option<Seq<char>> {
    match text {
        Some(text) => Some(text@),
        None => None,
    }
}

impl View for PostFolder {
    type V = FolderView;

    open spec fn view(&self) -> FolderView {
        FolderView {
            name: self.name@,
            title: text_view(self.title),
            date: text_view(self.date),
            transcript: text_view(self.transcript),
            props: text_view(self.props),
            special: text_view(self.special),
            errata: text_view(self.errata),
            esperanto_png: self.esperanto_png,
            english_png: self.english_png,
            esperanto_svg: self.esperanto_svg,
            esperanto_xcf: self.esperanto_xcf,
        }
    }
}

impl View for PostError {
    type V = PostErrorView;

    open spec fn view(&self) -> PostErrorView {
        match self {
            PostError::FolderName { expected, found } => PostErrorView::FolderName {
                expected: expected@,
                found: found@,
            },
            PostError::Missing(file) => PostErrorView::Missing(*file),
            PostError::EmptyTitle => PostErrorView::EmptyTitle,
            PostError::TitlePrefix => PostErrorView::TitlePrefix,
            PostError::DuplicateTitle { title, other } => PostErrorView::DuplicateTitle {
                title: title@,
                other: other@,
            },
            PostError::InvalidDate(date) => PostErrorView::InvalidDate(date@),
            PostError::DuplicateDate { date, other } => PostErrorView::DuplicateDate {
                date: date@,
                other: other@,
            },
            PostError::Transcript(error) => PostErrorView::Transcript(error@),
            PostError::Props(error) => PostErrorView::Props(error@),
            PostError::Special(word) => PostErrorView::Special(word@),
            PostError::Errata(error) => PostErrorView::Errata(error@),
        }
    }
}

impl View for BuildError {
    type V = BuildErrorView;

    open spec fn view(&self) -> BuildErrorView {
        match self {
            BuildError::Archive(error) => BuildErrorView::Archive(error@),
            BuildError::Empty => BuildErrorView::Empty,
            BuildError::Post { index, error } => BuildErrorView::Post {
                index: index@,
                error: error@,
            },
        }
    }
}

/// The views of a vector of folders.
pub open spec fn folder_views(folders: Seq<PostFolder>) -> Seq<FolderView> {
    folders.map_values(|folder: PostFolder| folder@)
}

/// The views of a vector of posts.
pub open spec fn post_views(posts: Seq<Post>) -> Seq<PostView> {
    posts.map_values(|post: Post| post@)
}

/// The names of `folders`, in order.
pub open spec fn names_of(folders: Seq<FolderView>) -> Seq<Seq<char>> {
    folders.map_values(|folder: FolderView| folder.name)
}

/// The titles of `posts`, in order.
pub open spec fn titles_of(posts: Seq<PostView>) -> Seq<Seq<char>> {
    posts.map_values(|post: PostView| post.title)
}

/// The dates of `posts`, in order.
pub open spec fn dates_of(posts: Seq<PostView>) -> Seq<Seq<char>> {
    posts.map_values(|post: PostView| post.date)
}

/// The words that every title begins with.
pub open spec fn title_prefix() -> Seq<char> {
    "Garfildo "@
}

/// The transcript of a folder, where it has one.
pub open spec fn transcript_part(folder: FolderView) -> Result<
    Option<Seq<PanelView>>,
    TranscriptErrorView,
> {
    match folder.transcript {
        None => Ok(None),
        Some(file) => match parse_transcript(file) {
            Ok(transcript) => Ok(Some(transcript)),
            Err(error) => Err(error),
        },
    }
}

/// The properties of a folder: none, where it has no file for them.
pub open spec fn props_part(folder: FolderView) -> Result<Props, PropsErrorView> {
    match folder.props {
        None => Ok(Props { nogarfield: false, notext: false, good: false, earsback: false }),
        Some(file) => props_of(file),
    }
}

/// The occasion of a folder, where it names one.
pub open spec fn special_part(folder: FolderView) -> Result<Option<Special>, Seq<char>> {
    match folder.special {
        None => Ok(None),
        Some(file) => match special_of(file) {
            Ok(special) => Ok(Some(special)),
            Err(word) => Err(word),
        },
    }
}

/// The errata of a folder: none, where it has no file for them.
pub open spec fn errata_part(folder: FolderView) -> Result<
    Seq<(Seq<char>, Seq<char>)>,
    ErrataErrorView,
> {
    match folder.errata {
        None => Ok(Seq::empty()),
        Some(file) => errata_of(file),
    }
}

/// The first thing that keeps `folder` from being the post at `index`,
/// given the titles and dates of the posts before it. The checks are made
/// in a fixed order: the folder's name, the title, the date, the optional
/// files, the two images.
pub open spec fn post_fault(
    index: nat,
    folder: FolderView,
    titles: Seq<Seq<char>>,
    dates: Seq<Seq<char>>,
) -> Option<PostErrorView> {
    if folder.name != folder_name(index) {
        Some(PostErrorView::FolderName { expected: folder_name(index), found: folder.name })
    } else if folder.title is None {
        Some(PostErrorView::Missing(RequiredFile::Title))
    } else if trimmed(folder.title->0).len() == 0 {
        Some(PostErrorView::EmptyTitle)
    } else if !begins_with(trimmed(folder.title->0), title_prefix()) {
        Some(PostErrorView::TitlePrefix)
    } else if first_index(titles, trimmed(folder.title->0)) < titles.len() {
        Some(
            PostErrorView::DuplicateTitle {
                title: trimmed(folder.title->0),
                other: first_index(titles, trimmed(folder.title->0)) as nat,
            },
        )
    } else if folder.date is None {
        Some(PostErrorView::Missing(RequiredFile::Date))
    } else if !valid_date(trimmed(folder.date->0)) {
        Some(PostErrorView::InvalidDate(trimmed(folder.date->0)))
    } else if first_index(dates, trimmed(folder.date->0)) < dates.len() {
        Some(
            PostErrorView::DuplicateDate {
                date: trimmed(folder.date->0),
                other: first_index(dates, trimmed(folder.date->0)) as nat,
            },
        )
    } else if transcript_part(folder) is Err {
        Some(PostErrorView::Transcript(transcript_part(folder)->Err_0))
    } else if props_part(folder) is Err {
        Some(PostErrorView::Props(props_part(folder)->Err_0))
    } else if special_part(folder) is Err {
        Some(PostErrorView::Special(special_part(folder)->Err_0))
    } else if errata_part(folder) is Err {
        Some(PostErrorView::Errata(errata_part(folder)->Err_0))
    } else if folder.esperanto_png is None {
        Some(PostErrorView::Missing(RequiredFile::EsperantoImage))
    } else if !folder.english_png {
        Some(PostErrorView::Missing(RequiredFile::EnglishImage))
    } else {
        None
    }
}

/// The post that a faultless `folder` is, at `index` and with `version` old
/// versions.
pub open spec fn post_record(index: nat, folder: FolderView, version: nat) -> PostView {
    PostView {
        index,
        title: trimmed(folder.title->0),
        date: trimmed(folder.date->0),
        is_sunday: falls_on_sunday(index),
        transcript: transcript_part(folder)->Ok_0,
        props: props_part(folder)->Ok_0,
        special: special_part(folder)->Ok_0,
        errata: errata_part(folder)->Ok_0,
        version,
        is_revised: version > 0,
        is_old: !folder.esperanto_svg,
        is_simple: !folder.esperanto_xcf,
        image_bytes: folder.esperanto_png->0 as nat,
    }
}

/// `folder` read as the post at `index`.
pub open spec fn post_of(
    index: nat,
    folder: FolderView,
    version: nat,
    titles: Seq<Seq<char>>,
    dates: Seq<Seq<char>>,
) -> Result<PostView, PostErrorView> {
    match post_fault(index, folder, titles, dates) {
        Some(error) => Err(error),
        None => Ok(post_record(index, folder, version)),
    }
}

/// `folders` read as posts in the order given, each at its place, up to
/// the first that is not one. `entries` are the names in the archive of old
/// versions.
pub open spec fn posts_of(folders: Seq<FolderView>, entries: Seq<Seq<char>>) -> Result<
    Seq<PostView>,
    BuildErrorView,
>
    decreases folders.len(),
{
    if folders.len() == 0 {
        Ok(Seq::empty())
    } else {
        let index = (folders.len() - 1) as nat;
        match posts_of(folders.drop_last(), entries) {
            Err(error) => Err(error),
            Ok(posts) => match post_of(
                index,
                folders.last(),
                count_of(entries, folders.last().name),
                titles_of(posts),
                dates_of(posts),
            ) {
                Err(error) => Err(BuildErrorView::Post { index, error }),
                Ok(post) => Ok(posts.push(post)),
            },
        }
    }
}

/// The corpus that `folders` and the archive entries `entries` make: the
/// versions of each post in the archive must count up from zero, there must
/// be a folder, and the folders, taken in the order of their names, must
/// each be the post at its place.
pub open spec fn corpus_of(folders: Seq<FolderView>, entries: Seq<Seq<char>>) -> Result<
    Seq<PostView>,
    BuildErrorView,
> {
    let sorted = arrange(entries, order_of(entries));
    if archive_fault(entries) is Some {
        Err(BuildErrorView::Archive(archive_fault(entries)->0))
    } else if folders.len() == 0 {
        Err(BuildErrorView::Empty)
    } else {
        posts_of(arrange(folders, order_of(names_of(folders))), sorted)
    }
}

/// The post that `folder` is, at `index` and with `version` old versions,
/// given the titles and the dates of the posts before it.
pub fn parse_post(
    index: Index,
    folder: &PostFolder,
    version: u64,
    existing_titles: &Vec<String>,
    existing_dates: &Vec<String>,
) -> (out: Result<Post, PostError>)
    ensures
        match out {
            Ok(post) => post_of(
                index@,
                folder@,
                version as nat,
                text_views(existing_titles@),
                text_views(existing_dates@),
            ) == Ok::<PostView, PostErrorView>(post@),
            Err(error) => post_of(
                index@,
                folder@,
                version as nat,
                text_views(existing_titles@),
                text_views(existing_dates@),
            ) == Err::<PostView, PostErrorView>(error@),
        },
{
    let expected = chars_of(index.to_text().as_str());
    let found = chars_of(folder.name.as_str());
    if !same_chars(&found, &expected) {
        return Err(
            PostError::FolderName { expected: string_of(&expected), found: string_of(&found) },
        );
    }
    let title = match &folder.title {
        None => {
            return Err(PostError::Missing(RequiredFile::Title));
        },
        Some(file) => trim(&chars_of(file.as_str())),
    };
    if title.len() == 0 {
        return Err(PostError::EmptyTitle);
    }
    if !starts_with(&title, "Garfildo ") {
        return Err(PostError::TitlePrefix);
    }
    match find_text(existing_titles, &title) {
        Some(other) => {
            return Err(
                PostError::DuplicateTitle { title: string_of(&title), other: Index::new(other) },
            );
        },
        None => {},
    }
    let date = match &folder.date {
        None => {
            return Err(PostError::Missing(RequiredFile::Date));
        },
        Some(file) => trim(&chars_of(file.as_str())),
    };
    let date_text = string_of(&date);
    if !is_valid_date(date_text.as_str()) {
        return Err(PostError::InvalidDate(date_text));
    }
    match find_text(existing_dates, &date) {
        Some(other) => {
            return Err(PostError::DuplicateDate { date: date_text, other: Index::new(other) });
        },
        None => {},
    }
    let at: usize = index.as_int();
    let is_sunday = at % 7 == 6;
    let transcript = match &folder.transcript {
        None => None,
        Some(file) => match Transcript::from_file(file.as_str()) {
            Ok(transcript) => Some(transcript),
            Err(error) => {
                return Err(PostError::Transcript(error));
            },
        },
    };
    let props = match &folder.props {
        None => Props { nogarfield: false, notext: false, good: false, earsback: false },
        Some(file) => match parse_props(file.as_str()) {
            Ok(props) => props,
            Err(error) => {
                return Err(PostError::Props(error));
            },
        },
    };
    let special = match &folder.special {
        None => None,
        Some(file) => match Special::from_file(file.as_str()) {
            Ok(special) => Some(special),
            Err(word) => {
                return Err(PostError::Special(word));
            },
        },
    };
    let errata = match &folder.errata {
        None => {
            let none = Errata(Vec::new());
            assert(none@ == Seq::<(Seq<char>, Seq<char>)>::empty());
            none
        },
        Some(file) => match parse_errata(file.as_str()) {
            Ok(errata) => errata,
            Err(error) => {
                return Err(PostError::Errata(error));
            },
        },
    };
    let image_bytes = match folder.esperanto_png {
        None => {
            return Err(PostError::Missing(RequiredFile::EsperantoImage));
        },
        Some(bytes) => bytes,
    };
    if !folder.english_png {
        return Err(PostError::Missing(RequiredFile::EnglishImage));
    }
    let post = Post {
        index,
        title: string_of(&title),
        date: date_text,
        is_sunday,
        transcript,
        props,
        special,
        errata,
        version,
        is_revised: version > 0,
        is_old: !folder.esperanto_svg,
        is_simple: !folder.esperanto_xcf,
        image_bytes,
    };
    assert(post@ == post_record(index@, folder@, version as nat));
    Ok(post)
}

/// A fault among the first folders is the fault of them all.
pub proof fn lemma_fault_stays(folders: Seq<FolderView>, entries: Seq<Seq<char>>, upto: int)
    requires
        0 <= upto <= folders.len(),
        posts_of(folders.take(upto), entries) is Err,
    ensures
        posts_of(folders, entries) == posts_of(folders.take(upto), entries),
    decreases folders.len() - upto,
{
    if upto < folders.len() {
        assert(folders.take(upto + 1).drop_last() == folders.take(upto));
        lemma_fault_stays(folders, entries, upto + 1);
    } else {
        assert(folders.take(upto) == folders);
    }
}

/// The posts that a run of folders makes are as many as the folders, and
/// each has its place for its index and its folder's name.
pub proof fn lemma_posts_in_place(folders: Seq<FolderView>, entries: Seq<Seq<char>>)
    requires
        posts_of(folders, entries) is Ok,
    ensures
        posts_of(folders, entries)->Ok_0.len() == folders.len(),
        forall|i: int|
            0 <= i < folders.len() ==> {
                &&& (#[trigger] posts_of(folders, entries)->Ok_0[i]).index == i
                &&& folders[i].name == folder_name(i as nat)
            },
    decreases folders.len(),
{
    if folders.len() > 0 {
        lemma_posts_in_place(folders.drop_last(), entries);
    }
}

/// Where a run of folders makes posts, so does each shorter run, and each
/// folder is found without fault against the posts before it.
pub proof fn lemma_posts_step(folders: Seq<FolderView>, entries: Seq<Seq<char>>, at: int)
    requires
        posts_of(folders, entries) is Ok,
        0 <= at < folders.len(),
    ensures
        posts_of(folders, entries)->Ok_0.len() == folders.len(),
        post_fault(
            at as nat,
            folders[at],
            titles_of(posts_of(folders, entries)->Ok_0.take(at)),
            dates_of(posts_of(folders, entries)->Ok_0.take(at)),
        ) is None,
        posts_of(folders, entries)->Ok_0[at].title == trimmed(folders[at].title->0),
        posts_of(folders, entries)->Ok_0[at].date == trimmed(folders[at].date->0),
    decreases folders.len(),
{
    lemma_posts_in_place(folders, entries);
    let posts = posts_of(folders, entries)->Ok_0;
    let before = posts_of(folders.drop_last(), entries)->Ok_0;
    lemma_posts_in_place(folders.drop_last(), entries);
    assert(posts.drop_last() == before);
    if at == folders.len() - 1 {
        assert(posts.take(at) == before);
    } else {
        lemma_posts_step(folders.drop_last(), entries, at);
        assert(posts.take(at) == before.take(at));
        assert(posts[at] == before[at]);
    }
}

/// Two folders with the same title do not both become posts: a run of
/// folders that holds them makes no list.
pub proof fn lemma_same_title_fails(
    folders: Seq<FolderView>,
    entries: Seq<Seq<char>>,
    first: int,
    second: int,
)
    requires
        0 <= first < second < folders.len(),
        folders[first].title is Some,
        folders[second].title is Some,
        trimmed(folders[first].title->0) == trimmed(folders[second].title->0),
    ensures
        posts_of(folders, entries) is Err,
{
    if posts_of(folders, entries) is Ok {
        let posts = posts_of(folders, entries)->Ok_0;
        lemma_posts_step(folders, entries, first);
        lemma_posts_step(folders, entries, second);
        let titles = titles_of(posts.take(second));
        let title = trimmed(folders[second].title->0);
        assert(titles[first] == title);
        lemma_first_index_bounds(titles, title);
    }
}

/// Two folders with the same date do not both become posts.
pub proof fn lemma_same_date_fails(
    folders: Seq<FolderView>,
    entries: Seq<Seq<char>>,
    first: int,
    second: int,
)
    requires
        0 <= first < second < folders.len(),
        folders[first].date is Some,
        folders[second].date is Some,
        trimmed(folders[first].date->0) == trimmed(folders[second].date->0),
    ensures
        posts_of(folders, entries) is Err,
{
    if posts_of(folders, entries) is Ok {
        let posts = posts_of(folders, entries)->Ok_0;
        lemma_posts_step(folders, entries, first);
        lemma_posts_step(folders, entries, second);
        let dates = dates_of(posts.take(second));
        let date = trimmed(folders[second].date->0);
        assert(dates[first] == date);
        lemma_first_index_bounds(dates, date);
    }
}

/// An archive in which two folders, wherever they stand, have the same
/// title makes no corpus.
pub proof fn lemma_duplicate_title_fails(
    folders: Seq<FolderView>,
    entries: Seq<Seq<char>>,
    one: int,
    other: int,
)
    requires
        0 <= one < folders.len(),
        0 <= other < folders.len(),
        one != other,
        folders[one].title is Some,
        folders[other].title is Some,
        trimmed(folders[one].title->0) == trimmed(folders[other].title->0),
    ensures
        corpus_of(folders, entries) is Err,
{
    let order = order_of(names_of(folders));
    let sorted = arrange(folders, order);
    lemma_order_of(names_of(folders));
    assert(order.contains(one));
    assert(order.contains(other));
    let a = choose|a: int| 0 <= a < order.len() && order[a] == one;
    let b = choose|b: int| 0 <= b < order.len() && order[b] == other;
    assert(sorted[a] == folders[one]);
    assert(sorted[b] == folders[other]);
    let old = arrange(entries, order_of(entries));
    if a < b {
        lemma_same_title_fails(sorted, old, a, b);
    } else {
        lemma_same_title_fails(sorted, old, b, a);
    }
}

/// The order in which the folders and the entries of the archive are
/// listed does not show in what is built, where each folder and each entry
/// has a name of its own: the same folders and entries, listed in another
/// order, give the same corpus, or the same fault.
pub proof fn lemma_listing_order_is_immaterial(
    folders: Seq<FolderView>,
    entries: Seq<Seq<char>>,
    relisted: Seq<FolderView>,
    entries_relisted: Seq<Seq<char>>,
)
    requires
        folders.len() == relisted.len(),
        all_differ(names_of(folders)),
        all_differ(names_of(relisted)),
        each_is_among(folders, names_of(folders), relisted, names_of(relisted)),
        each_is_among(relisted, names_of(relisted), folders, names_of(folders)),
        entries.len() == entries_relisted.len(),
        all_differ(entries),
        all_differ(entries_relisted),
        each_is_among(entries, entries, entries_relisted, entries_relisted),
        each_is_among(entries_relisted, entries_relisted, entries, entries),
    ensures
        corpus_of(folders, entries) == corpus_of(relisted, entries_relisted),
{
    lemma_listing_is_immaterial(folders, names_of(folders), relisted, names_of(relisted));
    lemma_listing_is_immaterial(entries, entries, entries_relisted, entries_relisted);
}

/// The archive of old versions ends the build exactly where the versions of
/// some post do not count up from zero: where an entry gives no version, or
/// a version is given twice or left out.
pub proof fn lemma_archive_decides(folders: Seq<FolderView>, entries: Seq<Seq<char>>)
    ensures
        corpus_of(folders, entries) matches Err(BuildErrorView::Archive(_)) <==> !counts_from_zero(
            entries,
        ),
{
    lemma_archive_in_order(entries);
    if archive_fault(entries) is None && folders.len() > 0 {
        let sorted = arrange(folders, order_of(names_of(folders)));
        lemma_no_archive_fault(sorted, arrange(entries, order_of(entries)));
    }
}

/// No folder is at fault for the archive: the faults of a run of folders
/// are those of its posts.
pub proof fn lemma_no_archive_fault(folders: Seq<FolderView>, entries: Seq<Seq<char>>)
    ensures
        !(posts_of(folders, entries) matches Err(BuildErrorView::Archive(_))),
        !(posts_of(folders, entries) matches Err(BuildErrorView::Empty)),
    decreases folders.len(),
{
    if folders.len() > 0 {
        lemma_no_archive_fault(folders.drop_last(), entries);
    }
}

/// What is built depends on nothing but what the folders and the archive
/// hold: the same contents give the same corpus, or the same fault.
pub proof fn lemma_build_is_repeatable(
    folders: Seq<PostFolder>,
    entries: Seq<String>,
    again: Seq<PostFolder>,
    entries_again: Seq<String>,
)
    requires
        folder_views(folders) == folder_views(again),
        text_views(entries) == text_views(entries_again),
    ensures
        corpus_of(folder_views(folders), text_views(entries)) == corpus_of(
            folder_views(again),
            text_views(entries_again),
        ),
{
}

/// The list of posts that the folders `folders` make, with `entries` the
/// names of the entries in the archive of old versions.
///
/// The archive is checked first. The folders are then taken in the order of
/// their names, and each must be the post at its place: named by its index,
/// with a title and a date that no post before it has. The first fault ends
/// the build. The posts of the list stand in ascending order of index.
pub fn parse_posts(folders: &Vec<PostFolder>, entries: &Vec<String>) -> (out: Result<
    PostList,
    BuildError,
>)
    ensures
        match out {
            Ok(list) => {
                &&& corpus_of(folder_views(folders@), text_views(entries@)) == Ok::<
                    Seq<PostView>,
                    BuildErrorView,
                >(post_views(list@))
                &&& list@.len() == folders@.len()
                &&& forall|i: int| 0 <= i < list@.len() ==> (#[trigger] list@[i]).index@ == i
            },
            Err(error) => corpus_of(folder_views(folders@), text_views(entries@)) == Err::<
                Seq<PostView>,
                BuildErrorView,
            >(error@),
        },
{
    let ghost given = folder_views(folders@);
    let ghost listed = text_views(entries@);
    let versions = match OldVersions::scan(entries) {
        Ok(versions) => versions,
        Err(error) => {
            return Err(BuildError::Archive(error));
        },
    };
    if folders.len() == 0 {
        return Err(BuildError::Empty);
    }
    let mut names: Vec<Vec<char>> = Vec::new();
    let mut k: usize = 0;
    while k < folders.len()
        invariant
            k <= folders@.len(),
            given == folder_views(folders@),
            views(names@) == names_of(given).take(k as int),
        decreases folders@.len() - k,
    {
        let name = chars_of(folders[k].name.as_str());
        assert(views(names@.push(name)) == views(names@).push(name@));
        assert(names_of(given).take(k + 1) == names_of(given).take(k as int).push(name@));
        names.push(name);
        k += 1;
    }
    assert(names_of(given).take(given.len() as int) == names_of(given));
    let order = sort_order(&names);
    let ghost sorted = arrange(given, order_of(names_of(given)));
    let ghost old = arrange(listed, order_of(listed));
    let mut posts: Vec<Post> = Vec::new();
    let mut titles: Vec<String> = Vec::new();
    let mut dates: Vec<String> = Vec::new();
    let mut i: usize = 0;
    assert(sorted.take(0).len() == 0);
    assert(post_views(posts@) == Seq::<PostView>::empty());
    while i < order.len()
        invariant
            i <= order@.len() == folders@.len(),
            given == folder_views(folders@),
            listed == text_views(entries@),
            archive_fault(listed) is None,
            positions(order@) == order_of(names_of(given)),
            is_permutation(positions(order@), folders@.len()),
            sorted == arrange(given, order_of(names_of(given))),
            old == arrange(listed, order_of(listed)),
            versions.entries() == old,
            posts_of(sorted.take(i as int), old) == Ok::<Seq<PostView>, BuildErrorView>(
                post_views(posts@),
            ),
            posts@.len() == i,
            text_views(titles@) == titles_of(post_views(posts@)),
            text_views(dates@) == dates_of(post_views(posts@)),
        decreases order@.len() - i,
    {
        let at: usize = order[i];
        assert(positions(order@)[i as int] == at);
        let folder = &folders[at];
        assert(folder@ == sorted[i as int]);
        let ghost before = sorted.take(i as int);
        assert(sorted.take(i + 1).drop_last() == before);
        assert(sorted.take(i + 1).last() == folder@);
        let version = versions.versions_of(folder.name.as_str());
        let index = Index::new(i);
        let post = match parse_post(index, folder, version, &titles, &dates) {
            Ok(post) => post,
            Err(error) => {
                proof {
                    lemma_fault_stays(sorted, old, i + 1);
                }
                return Err(BuildError::Post { index, error });
            },
        };
        let title = post.title.clone();
        let date = post.date.clone();
        proof {
            assert(post_views(posts@.push(post)) == post_views(posts@).push(post@));
            assert(text_views(titles@.push(title)) == text_views(titles@).push(title@));
            assert(text_views(dates@.push(date)) == text_views(dates@).push(date@));
            assert(titles_of(post_views(posts@).push(post@)) == titles_of(post_views(posts@)).push(
                post@.title,
            ));
            assert(dates_of(post_views(posts@).push(post@)) == dates_of(post_views(posts@)).push(
                post@.date,
            ));
        }
        titles.push(title);
        dates.push(date);
        posts.push(post);
        i += 1;
    }
    proof {
        assert(sorted.take(sorted.len() as int) == sorted);
        lemma_posts_in_place(sorted, old);
        assert forall|j: int| 0 <= j < posts@.len() implies (#[trigger] posts@[j]).index@
            == j by {
            assert(post_views(posts@)[j] == posts@[j]@);
        }
    }
    Ok(List::new(posts))
}

} // verus!
