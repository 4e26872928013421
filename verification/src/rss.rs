//! The list of posts as an RSS feed, with the posts in the order of the
//! list.
//!
//! A text is written into the feed with each character that XML keeps for
//! its markup replaced by the entity that stands for it.

use crate::corpus::{post_views, PostList};
use crate::number::{decimal, decimal_of};
use crate::post::{folder_name, Post, PostView};
use crate::render::{join, join_lines};
use crate::text::{chars_of, put, put_chars, string_of, views};
use vstd::prelude::*;

verus! {

/// What a feed says of the site it belongs to.
#[derive(Clone, Debug, PartialEq, Eq, Default)]
pub struct Feed {
    /// The name of the site.
    pub title: String,
    /// The address of the site, without a slash at its end.
    pub url: String,
    /// The address under which the images lie, with a slash at its end.
    pub assets_url: String,
    /// A sentence about the site.
    pub description: String,
}

/// A [`Feed`] with its texts as sequences of characters.
pub struct FeedView {
    pub title: Seq<char>,
    pub url: Seq<char>,
    pub assets_url: Seq<char>,
    pub description: Seq<char>,
}

impl View for Feed {
    type V = FeedView;

    open spec fn view(&self) -> FeedView {
        FeedView {
            title: self.title@,
            url: self.url@,
            assets_url: self.assets_url@,
            description: self.description@,
        }
    }
}

/// What stands for `c` in the text of a feed: `c` itself, or the entity for
/// it if it is an ampersand, an angle bracket or a quotation mark.
pub open spec fn entity(c: char) -> Seq<char> {
    if c == '&' {
        "&amp;"@
    } else if c == '<' {
        "&lt;"@
    } else if c == '>' {
        "&gt;"@
    } else if c == '"' {
        "&quot;"@
    } else if c == '\'' {
        "&apos;"@
    } else {
        seq![c]
    }
}

/// `s` with each of its characters replaced by what stands for it in the
/// text of a feed.
pub open spec fn xml_text(s: Seq<char>) -> Seq<char>
    decreases s.len(),
{
    if s.len() == 0 {
        Seq::empty()
    } else {
        xml_text(s.drop_last()) + entity(s.last())
    }
}

/// Whether `c` is a character that XML keeps for its markup, the ampersand
/// apart.
pub open spec fn is_markup(c: char) -> bool {
    c == '<' || c == '>' || c == '"' || c == '\''
}

/// A text as a feed holds it has no angle bracket and no quotation mark.
pub proof fn lemma_no_markup(s: Seq<char>)
    ensures
        forall|i: int| 0 <= i < xml_text(s).len() ==> !is_markup(#[trigger] xml_text(s)[i]),
    decreases s.len(),
{
    if s.len() > 0 {
        reveal_strlit("&amp;");
        reveal_strlit("&lt;");
        reveal_strlit("&gt;");
        reveal_strlit("&quot;");
        reveal_strlit("&apos;");
        lemma_no_markup(s.drop_last());
        let before = xml_text(s.drop_last());
        let last = entity(s.last());
        assert forall|i: int| 0 <= i < xml_text(s).len() implies !is_markup(
            #[trigger] xml_text(s)[i],
        ) by {
            if i < before.len() {
                assert(xml_text(s)[i] == before[i]);
            } else {
                assert(xml_text(s)[i] == last[i - before.len()]);
            }
        }
    }
}

/// The entry of one post: its title and index, its page, its date, and its
/// image with the size of the image.
pub open spec fn item_xml(feed: FeedView, post: PostView) -> Seq<char> {
    "<item>\n<title>"@ + xml_text(post.title) + " ["@ + folder_name(post.index)
        + "]</title>\n<link>"@ + xml_text(feed.url) + "/"@ + folder_name(post.index)
        + "</link>\n<guid>"@ + xml_text(feed.url) + "/"@ + folder_name(post.index)
        + "</guid>\n<description>"@ + xml_text(feed.description) + "</description>\n<pubDate>"@
        + xml_text(post.date) + "</pubDate>\n<enclosure url=\""@ + xml_text(feed.assets_url)
        + "posts/"@ + folder_name(post.index) + "/esperanto.png\" length=\""@ + decimal(
        post.image_bytes,
    ) + "\" type=\"image/png\"/>\n</item>"@
}

/// The entries of `posts`, in the order of the list.
pub open spec fn items_xml(feed: FeedView, posts: Seq<PostView>) -> Seq<Seq<char>> {
    Seq::new(posts.len(), |i: int| item_xml(feed, posts[i]))
}

/// The feed of `posts`: what it says of the site, the index of the last
/// post, and the entries, one below the other.
pub open spec fn feed_xml(feed: FeedView, posts: Seq<PostView>) -> Seq<char> {
    "<?xml version=\"1.0\" encoding=\"UTF-8\"?>\n<rss version=\"2.0\">\n<channel>\n<title>"@
        + xml_text(feed.title) + "</title>\n<link>"@ + xml_text(feed.url)
        + "</link>\n<description>"@ + xml_text(feed.description)
        + "</description>\n<language>eo</language>\n<image>\n<url>"@ + xml_text(feed.assets_url)
        + "icon.png</url>\n<title>"@ + xml_text(feed.title) + "</title>\n<link>"@ + xml_text(
        feed.url,
    ) + "/"@ + folder_name(posts.last().index) + "</link>\n</image>\n"@ + join(
        items_xml(feed, posts),
        '\n',
    ) + "\n</channel>\n</rss>\n"@
}

/// Puts at the end of `out` the text `s` as a feed holds it.
pub fn put_xml(out: &mut Vec<char>, s: &str)
    ensures
        final(out)@ == old(out)@ + xml_text(s@),
{
    let ghost start = out@;
    let letters = chars_of(s);
    let mut i: usize = 0;
    assert(letters@.take(0) == Seq::<char>::empty());
    assert(start + xml_text(letters@.take(0)) == start);
    while i < letters.len()
        invariant
            i <= letters@.len(),
            letters@ == s@,
            out@ == start + xml_text(letters@.take(i as int)),
        decreases letters@.len() - i,
    {
        let c = letters[i];
        let ghost before = xml_text(letters@.take(i as int));
        assert(letters@.take(i + 1).drop_last() == letters@.take(i as int));
        assert(letters@.take(i + 1).last() == c);
        assert(start + before + entity(c) == start + (before + entity(c)));
        if c == '&' {
            put(out, "&amp;");
        } else if c == '<' {
            put(out, "&lt;");
        } else if c == '>' {
            put(out, "&gt;");
        } else if c == '"' {
            put(out, "&quot;");
        } else if c == '\'' {
            put(out, "&apos;");
        } else {
            out.push(c);
            assert(out@ == start + before + seq![c]);
        }
        i += 1;
    }
    assert(letters@.take(letters@.len() as int) == letters@);
}

/// The entry of one post.
pub fn item_of(feed: &Feed, post: &Post) -> (out: Vec<char>)
    ensures
        out@ == item_xml(feed@, post@),
{
    let index = post.index();
    let mut out: Vec<char> = Vec::new();
    put(&mut out, "<item>\n<title>");
    assert(out@ == "<item>\n<title>"@);
    put_xml(&mut out, post.title.as_str());
    put(&mut out, " [");
    put(&mut out, index.as_str());
    put(&mut out, "]</title>\n<link>");
    put_xml(&mut out, feed.url.as_str());
    put(&mut out, "/");
    put(&mut out, index.as_str());
    put(&mut out, "</link>\n<guid>");
    put_xml(&mut out, feed.url.as_str());
    put(&mut out, "/");
    put(&mut out, index.as_str());
    put(&mut out, "</guid>\n<description>");
    put_xml(&mut out, feed.description.as_str());
    put(&mut out, "</description>\n<pubDate>");
    put_xml(&mut out, post.date.as_str());
    put(&mut out, "</pubDate>\n<enclosure url=\"");
    put_xml(&mut out, feed.assets_url.as_str());
    put(&mut out, "posts/");
    put(&mut out, index.as_str());
    put(&mut out, "/esperanto.png\" length=\"");
    put_chars(&mut out, &decimal_of(post.image_bytes));
    put(&mut out, "\" type=\"image/png\"/>\n</item>");
    out
}

/// The feed of the posts of the list, in the order of the list.
pub fn generate_rss(posts: &PostList, feed: &Feed) -> (out: String)
    ensures
        out@ == feed_xml(feed@, post_views(posts@)),
{
    let ghost given = post_views(posts@);
    let ghost wanted = items_xml(feed@, given);
    let count: usize = posts.len();
    let mut items: Vec<Vec<char>> = Vec::new();
    let mut i: usize = 0;
    assert(views(items@) == wanted.take(0));
    while i < count
        invariant
            i <= count == posts@.len(),
            given == post_views(posts@),
            wanted == items_xml(feed@, given),
            views(items@) == wanted.take(i as int),
        decreases count - i,
    {
        let post = posts.get_ref(i).unwrap().get();
        let item = item_of(feed, post);
        assert(given[i as int] == post@);
        assert(views(items@.push(item)) == views(items@).push(item@));
        assert(wanted.take(i + 1) == wanted.take(i as int).push(item@));
        items.push(item);
        i += 1;
    }
    assert(wanted.take(wanted.len() as int) == wanted);
    let last = posts.last();
    assert(given.last() == last@);
    let mut out: Vec<char> = Vec::new();
    put(
        &mut out,
        "<?xml version=\"1.0\" encoding=\"UTF-8\"?>\n<rss version=\"2.0\">\n<channel>\n<title>",
    );
    assert(out@
        == "<?xml version=\"1.0\" encoding=\"UTF-8\"?>\n<rss version=\"2.0\">\n<channel>\n<title>"@);
    put_xml(&mut out, feed.title.as_str());
    put(&mut out, "</title>\n<link>");
    put_xml(&mut out, feed.url.as_str());
    put(&mut out, "</link>\n<description>");
    put_xml(&mut out, feed.description.as_str());
    put(&mut out, "</description>\n<language>eo</language>\n<image>\n<url>");
    put_xml(&mut out, feed.assets_url.as_str());
    put(&mut out, "icon.png</url>\n<title>");
    put_xml(&mut out, feed.title.as_str());
    put(&mut out, "</title>\n<link>");
    put_xml(&mut out, feed.url.as_str());
    put(&mut out, "/");
    put(&mut out, last.index().as_str());
    put(&mut out, "</link>\n</image>\n");
    put_chars(&mut out, &join_lines(&items, '\n'));
    put(&mut out, "\n</channel>\n</rss>\n");
    string_of(&out)
}

} // verus!
