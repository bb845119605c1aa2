use gospel_render::book::Book;
use gospel_render::order::sort_books_by_number;

fn book(name: &str, number: u32) -> Book {
    Book {
        filename: name.to_string(),
        number,
        title_cn: String::new(),
        title_en: String::new(),
        chapters: Vec::new(),
    }
}

#[test]
fn sorts_by_number_stably() {
    let mut books = vec![book("c", 3), book("a1", 1), book("b", 2), book("a2", 1), book("d", 0), book("b2", 2)];
    sort_books_by_number(&mut books);
    let names: Vec<&str> = books.iter().map(|b| b.filename.as_str()).collect();
    assert_eq!(names, vec!["d", "a1", "a2", "b", "b2", "c"]);
}

#[test]
fn sorting_empty_and_sorted_lists() {
    let mut none: Vec<Book> = Vec::new();
    sort_books_by_number(&mut none);
    assert!(none.is_empty());
    let mut sorted = vec![book("a", 1), book("b", 1), book("c", u32::MAX)];
    sort_books_by_number(&mut sorted);
    let names: Vec<&str> = sorted.iter().map(|b| b.filename.as_str()).collect();
    assert_eq!(names, vec!["a", "b", "c"]);
}

#[test]
fn agrees_with_sort_by_key() {
    let numbers = [5u32, 1, 4, 1, 5, 9, 2, 6, 5, 3, 5, 8, 9, 7, 9, 3, 2, 3, 8, 4];
    let mut books: Vec<Book> = numbers.iter().enumerate().map(|(i, n)| book(&i.to_string(), *n)).collect();
    let mut expected: Vec<(u32, String)> = books.iter().map(|b| (b.number, b.filename.clone())).collect();
    expected.sort_by_key(|p| p.0);
    sort_books_by_number(&mut books);
    let got: Vec<(u32, String)> = books.iter().map(|b| (b.number, b.filename.clone())).collect();
    assert_eq!(got, expected);
}
