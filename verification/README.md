# gospel_render

Turns a directory of markdown "books" of numbered verses into a static HTML
site: one page per book and an index.

- `src/` is the library, verified with Verus. Each public function states in
  its contract what it returns, over models of the text (`Seq<char>`) and of
  books (`BookModel`, `ChapterModel`, `VerseModel`).
- `src/markdown.rs` holds the only calls into pulldown-cmark: a parser is
  created for a text and its events are taken one by one.
- `app/main.rs` reads the `../books/*.md` files and writes `../site/`.
- `tests/` runs the library on concrete inputs.
