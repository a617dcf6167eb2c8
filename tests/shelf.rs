use clippings::args::{Commands, ParseArgs};
use clippings::book::Book;
use clippings::clipping::Clipping;
use clippings::shelf::BookShelf;
use clippings::timestamp::Timestamp;
use clippings::traits::Markdown;
use std::path::PathBuf;

fn ts(year: i32, month: u32, day: u32, hour: u32, minute: u32, second: u32) -> Timestamp {
    Timestamp { year, month, day, hour, minute, second }
}

fn clip(text: &str, day: u32) -> Clipping {
    Clipping::new(text.to_owned(), "#1-2".to_owned(), ts(2015, 2, day, 15, 21, 3), None)
}

fn book(title: &str, author: &str) -> Book {
    Book::new(title.to_owned(), author.to_owned())
}

#[test]
fn same_book_twice_merges_in_order() {
    let mut shelf = BookShelf::new();
    shelf.add_book_and_clipping(book("T", "A"), clip("one", 1));
    shelf.add_book_and_clipping(book(" T ", "A"), clip("two", 2));
    assert_eq!(shelf.books().len(), 1);
    let texts: Vec<&str> = shelf.books()[0].clippings().iter().map(|c| c.text()).collect();
    assert_eq!(texts, vec!["one", "two"]);
}

#[test]
fn new_book_goes_at_the_end() {
    let mut shelf = BookShelf::new();
    shelf.add_book_and_clipping(book("T", "A"), clip("one", 1));
    shelf.add_book_and_clipping(book("U", "B"), clip("two", 2));
    shelf.add_book_and_clipping(book("T", "A"), clip("three", 3));
    let titles: Vec<&str> = shelf.books().iter().map(|b| b.get_title()).collect();
    assert_eq!(titles, vec!["T", "U"]);
    assert_eq!(shelf.books()[0].clippings().len(), 2);
    assert_eq!(shelf.books()[1].clippings().len(), 1);
}

#[test]
fn same_title_other_author_stays_apart() {
    let mut shelf = BookShelf::new();
    shelf.add_book_and_clipping(book("T", "A"), clip("one", 1));
    shelf.add_book_and_clipping(book("T", "B"), clip("two", 2));
    assert_eq!(shelf.books().len(), 2);
    assert_eq!(shelf.books()[0].get_author(), "A");
    assert_eq!(shelf.books()[1].get_author(), "B");
    assert_eq!(shelf.books()[1].clippings()[0].text(), "two");
}

#[test]
fn book_identity_ignores_clippings() {
    let mut a = book("T", "A");
    a.add_clipping(clip("one", 1));
    assert!(a.is_identical(&book("T", "A")));
    assert!(!a.is_identical(&book("T", "a")));
    assert!(!a.is_identical(&book("t", "A")));
}

#[test]
fn timestamp_text() {
    assert_eq!(ts(2015, 2, 14, 15, 21, 3).to_text(), "2015/02/14 15:21:03");
    assert_eq!(ts(987, 12, 1, 0, 0, 9).to_text(), "0987/12/01 00:00:09");
    assert_eq!(ts(10000, 1, 1, 0, 0, 0).to_text(), "+10000/01/01 00:00:00");
}

#[test]
fn timestamp_from_parts() {
    assert_eq!(Timestamp::from_parts(2016, 2, 29, 23, 59, 59), Some(ts(2016, 2, 29, 23, 59, 59)));
    assert_eq!(Timestamp::from_parts(1900, 2, 29, 0, 0, 0), None);
    assert_eq!(Timestamp::from_parts(2000, 2, 29, 0, 0, 0), Some(ts(2000, 2, 29, 0, 0, 0)));
    assert_eq!(Timestamp::from_parts(2015, 4, 31, 0, 0, 0), None);
    assert_eq!(Timestamp::from_parts(2015, 1, 1, 24, 0, 0), None);
    assert_eq!(Timestamp::from_parts(2015, 1, 1, 0, 0, 60), None);
    assert_eq!(Timestamp::from_parts(2015, 0, 1, 0, 0, 0), None);
    assert_eq!(Timestamp::from_parts(262143, 1, 1, 0, 0, 0), None);
}

#[test]
fn clipping_markdown() {
    let c = clip("first", 14);
    assert_eq!(
        c.to_markdown(),
        "> &emsp; \n> first\n> \n> <p align=\"right\"> 2015/02/14 15:21:03 </p>\n> &emsp;\n"
    );
}

#[test]
fn book_markdown() {
    let mut b = book("书名", "作者");
    assert_eq!(b.to_markdown(), "# 书名 \nAuthor: `作者` \n");
    b.add_clipping(clip("one", 1));
    b.add_clipping(clip("two", 2));
    let expected = format!(
        "# 书名 \nAuthor: `作者` \n{}\r{}",
        clip("one", 1).to_markdown(),
        clip("two", 2).to_markdown()
    );
    assert_eq!(b.to_markdown(), expected);
}

#[test]
fn index_and_summary_documents() {
    let mut shelf = BookShelf::new();
    assert_eq!(shelf.to_content(), "# Clipping \r\r");
    assert_eq!(shelf.to_summary(), "- [Clipping](./clipping/index.md) \r  ");
    assert_eq!(shelf.to_markdown(), "");
    shelf.add_book_and_clipping(book("书名", "作者"), clip("one", 1));
    shelf.add_book_and_clipping(book("B", "C"), clip("two", 2));
    assert_eq!(shelf.to_content(), "# Clipping \r\r- [书名](./书名.md)\n- [B](./B.md)");
    assert_eq!(
        shelf.to_summary(),
        "- [Clipping](./clipping/index.md) \r  - [书名](./clipping/书名.md)\n  - [B](./clipping/B.md)"
    );
    let expected = format!(
        "{}\r{}",
        shelf.books()[0].to_markdown(),
        shelf.books()[1].to_markdown()
    );
    assert_eq!(shelf.to_markdown(), expected);
}

#[test]
fn rendering_twice_is_identical() {
    let mut shelf = BookShelf::new();
    shelf.add_book_and_clipping(book("T", "A"), clip("one", 1));
    shelf.add_book_and_clipping(book("U", "B"), clip("two", 2));
    assert_eq!(shelf.to_markdown(), shelf.to_markdown());
    assert_eq!(shelf.to_content(), shelf.to_content());
    assert_eq!(shelf.to_summary(), shelf.to_summary());
    for b in shelf.books() {
        assert_eq!(b.to_markdown(), b.to_markdown());
    }
}

#[test]
fn commands() {
    let parse = Commands::Parse(ParseArgs { path: PathBuf::from("in.txt") });
    let generate = Commands::Generate(ParseArgs { path: PathBuf::from("out.txt") });
    assert!(!parse.writes_output());
    assert!(generate.writes_output());
    assert_eq!(parse.args().path, PathBuf::from("in.txt"));
    assert_eq!(generate.args().path, PathBuf::from("out.txt"));
}

#[test]
fn new_book_keeps_only_the_added_clipping() {
    let mut shelf = BookShelf::new();
    let mut b = book("T", "A");
    b.add_clipping(clip("already there", 1));
    shelf.add_book_and_clipping(b, clip("added", 2));
    assert_eq!(shelf.books().len(), 1);
    let clippings = shelf.books()[0].clippings();
    assert_eq!(clippings.len(), 1);
    assert_eq!(clippings[0].text(), "added");
}

#[test]
fn clear_clippings_keeps_identity() {
    let mut b = book("T", "A");
    b.add_clipping(clip("one", 1));
    b.clear_clippings();
    assert!(b.clippings().is_empty());
    assert!(b.is_identical(&book("T", "A")));
}
