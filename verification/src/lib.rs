//! The post corpus of a webcomic archive: the validated record of each post,
//! the ordered list that holds them, and the figures derived from it.
//!
//! A corpus is built by [`corpus::parse_posts`] from the folders of the
//! archive, handed over as plain values. What it returns is a
//! [`list::List`] of [`post::Post`], which is never empty and never
//! changes; [`list::ItemRef`] is a place in it, from which the neighbouring
//! posts are one step away. [`stats`] counts over the list, [`json`] and
//! [`rss`] write it out, and [`transcript`] and [`render`] read and write
//! the dialogue of a post.
//!
//! Every function states what it returns over sequences of characters and
//! of records, and is proved to return that.

pub mod archive;
pub mod corpus;
pub mod count;
pub mod display;
pub mod json;
pub mod known;
pub mod list;
pub mod number;
pub mod order;
pub mod post;
pub mod render;
pub mod rss;
pub mod stats;
pub mod text;
pub mod transcript;

pub use corpus::{parse_posts, PostList, PostRef};
pub use post::Post;
pub use transcript::Transcript;
