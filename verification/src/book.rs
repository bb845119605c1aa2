//! Books, chapters and verses, and their mathematical models.
use vstd::prelude::*;

verus! {

/// One verse: the chapter and verse numbers of its reference and its text.
#[derive(Debug)]
pub struct Verse {
    pub chapter_num: u32,
    pub verse_num: u32,
    pub text: String,
}

/// A chapter: its number, its title and its verses in order.
#[derive(Debug)]
pub struct Chapter {
    pub number: u32,
    pub title: String,
    pub verses: Vec<Verse>,
}

/// A book: the name of its file (without extension), its number, its Chinese
/// and English titles, and its chapters in order.
#[derive(Debug)]
pub struct Book {
    pub filename: String,
    pub number: u32,
    pub title_cn: String,
    pub title_en: String,
    pub chapters: Vec<Chapter>,
}

pub struct VerseModel {
    pub chapter_num: u32,
    pub verse_num: u32,
    pub text: Seq<char>,
}

pub struct ChapterModel {
    pub number: u32,
    pub title: Seq<char>,
    pub verses: Seq<VerseModel>,
}

pub struct BookModel {
    pub filename: Seq<char>,
    pub number: u32,
    pub title_cn: Seq<char>,
    pub title_en: Seq<char>,
    pub chapters: Seq<ChapterModel>,
}

impl View for Verse {
    type V = VerseModel;

    open spec fn view(&self) -> VerseModel {
        VerseModel { chapter_num: self.chapter_num, verse_num: self.verse_num, text: self.text@ }
    }
}

pub open spec fn verse_models(vs: Seq<Verse>) -> Seq<VerseModel> {
    vs.map_values(|v: Verse| v@)
}

impl View for Chapter {
    type V = ChapterModel;

    open spec fn view(&self) -> ChapterModel {
        ChapterModel { number: self.number, title: self.title@, verses: verse_models(self.verses@) }
    }
}

pub open spec fn chapter_models(cs: Seq<Chapter>) -> Seq<ChapterModel> {
    cs.map_values(|c: Chapter| c@)
}

impl View for Book {
    type V = BookModel;

    open spec fn view(&self) -> BookModel {
        BookModel {
            filename: self.filename@,
            number: self.number,
            title_cn: self.title_cn@,
            title_en: self.title_en@,
            chapters: chapter_models(self.chapters@),
        }
    }
}

pub open spec fn book_models(bs: Seq<Book>) -> Seq<BookModel> {
    bs.map_values(|b: Book| b@)
}

} // verus!
