//! Renders a collection of markdown "books" of verses into static HTML pages.
//!
//! - `text`, `digits`: characters, trimming, searching, decimal numerals;
//! - `titles`: Chinese numerals and the headings of books and chapters;
//! - `verse`: the verse reference that starts a verse paragraph;
//! - `book`: books, chapters, verses and their models;
//! - `markdown`: the markdown events of a text (pulldown-cmark);
//! - `scan`: reading a book from its events;
//! - `order`: the order of books in the site;
//! - `render`: the HTML of verses, book pages and the index.

pub mod text;
pub mod digits;
pub mod titles;
pub mod verse;
pub mod book;
pub mod render;
pub mod markdown;
pub mod scan;
pub mod order;
