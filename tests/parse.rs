use clippings::book::Book;
use clippings::parse::{
    parse, parse_author, parse_book, parse_date_time, parse_lines, parse_position_date_time,
    parse_record, ParseError,
};
use clippings::timestamp::Timestamp;

fn ts(year: i32, month: u32, day: u32, hour: u32, minute: u32, second: u32) -> Timestamp {
    Timestamp { year, month, day, hour, minute, second }
}

#[test]
fn test_parse_book() {
    let parsed_book = parse_book("乌合之众:大众心理研究 (社会学经典名著) (古斯塔夫·勒宠)").unwrap();
    let book = Book::new("乌合之众:大众心理研究".to_owned(), "古斯塔夫·勒宠".to_owned());
    assert_eq!(book, parsed_book);
}

#[test]
fn test_parse_author() {
    let line1 = parse_author("(社会学经典名著) (古斯塔夫·勒宠)").unwrap();
    let line2 = parse_author("(知乎「盐」系列) (采铜)").unwrap();
    let line3 = parse_author("(万维钢(同人于野))").unwrap();
    assert_eq!(line1, "古斯塔夫·勒宠");
    assert_eq!(line2, "采铜");
    assert_eq!(line3, "万维钢");
}

#[test]
fn test_parse_date_time() {
    let parsed_date_time = parse_date_time("添加于 2015年2月14日星期六 下午3:21:03").unwrap();
    let date_time = ts(2015, 2, 14, 15, 21, 3);
    assert_eq!(date_time, parsed_date_time);
}

#[test]
fn test_parse_position_date_time() {
    let line = "- 您在位置 #116-119的标注 | 添加于 2015年2月14日星期六 下午3:21:03";
    let position = "#116-119";
    let date_time = ts(2015, 2, 14, 15, 21, 3);
    let (parsed_position, parsed_date_time) = parse_position_date_time(line).unwrap();
    assert_eq!(position, parsed_position);
    assert_eq!(date_time, parsed_date_time);
}

#[test]
fn book_line_with_many_tags_keeps_last_group() {
    let book = parse_book("  Title One  (tag a) (tag b) (tag c) ( The Author ) ").unwrap();
    assert_eq!(book.get_title(), "Title One");
    assert_eq!(book.get_author(), "The Author");
    assert!(book.clippings().is_empty());
}

#[test]
fn book_line_with_one_tag() {
    let book = parse_book("T (Tag) (A)").unwrap();
    assert_eq!(book.get_title(), "T");
    assert_eq!(book.get_author(), "A");
}

#[test]
fn book_line_nested_author_group() {
    let book = parse_book("T (A(B))").unwrap();
    assert_eq!(book.get_title(), "T");
    assert_eq!(book.get_author(), "A");
}

#[test]
fn book_line_errors() {
    assert_eq!(parse_book("no parenthesis here"), Err(ParseError::BookLine));
    assert_eq!(parse_book("(Author only)"), Err(ParseError::BookLine));
    assert_eq!(parse_book("Title (unclosed"), Err(ParseError::BookLine));
    assert_eq!(parse_book(""), Err(ParseError::BookLine));
    assert_eq!(parse_author("no group"), Err(ParseError::BookLine));
}

#[test]
fn morning_marker_keeps_hour() {
    let t = parse_date_time("添加于 2015年2月14日星期六 上午3:21:03").unwrap();
    assert_eq!(t, ts(2015, 2, 14, 3, 21, 3));
    let t = parse_date_time("添加于 2015年2月14日星期六 上午12:00:00").unwrap();
    assert_eq!(t, ts(2015, 2, 14, 12, 0, 0));
}

#[test]
fn afternoon_marker_adds_twelve_and_wraps() {
    let t = parse_date_time("添加于 2015年2月14日星期六 下午11:59:59").unwrap();
    assert_eq!(t, ts(2015, 2, 14, 23, 59, 59));
    let t = parse_date_time("添加于 2015年2月14日星期六 下午12:05:00").unwrap();
    assert_eq!(t, ts(2015, 2, 14, 0, 5, 0));
}

#[test]
fn date_time_errors() {
    assert_eq!(parse_date_time("添加于 2015年2月30日星期一 上午3:21:03"), Err(ParseError::DateTime));
    assert_eq!(parse_date_time("添加于 2015年2月14日星期六 上午3:21"), Err(ParseError::DateTime));
    assert_eq!(parse_date_time("添加于 99999999999年2月14日星期六 上午3:21:03"), Err(ParseError::DateTime));
    assert_eq!(parse_date_time(""), Err(ParseError::DateTime));
    assert_eq!(parse_date_time("添加于 2015年2月14日星期六 上午3:61:03"), Err(ParseError::DateTime));
}

#[test]
fn leap_day_depends_on_year() {
    assert!(parse_date_time("2016年2月29日 上午1:02:03").is_ok());
    assert_eq!(parse_date_time("2015年2月29日 上午1:02:03"), Err(ParseError::DateTime));
}

#[test]
fn position_line_errors() {
    assert_eq!(
        parse_position_date_time("- 您在位置 116-119的标注 | 添加于 2015年2月14日星期六 下午3:21:03"),
        Err(ParseError::PositionLine)
    );
    assert_eq!(parse_position_date_time("- 您在位置 #116-119的标注 | 添加于"), Err(ParseError::DateTime));
}

fn record_lines(title_line: &str, time: &str, text: &str) -> Vec<String> {
    vec![
        title_line.to_owned(),
        format!("- 您在位置 #116-119的标注 | 添加于 {}", time),
        text.to_owned(),
    ]
}

#[test]
fn record_of_three_lines() {
    let lines = record_lines("书名 (作者)", "2015年2月14日星期六 下午3:21:03", "  quoted text ");
    let (book, clipping) = parse_lines(&lines).unwrap();
    assert_eq!(book.get_title(), "书名");
    assert_eq!(book.get_author(), "作者");
    assert_eq!(clipping.text(), "  quoted text ");
    assert_eq!(clipping.position(), "#116-119");
    assert_eq!(clipping.date_time(), ts(2015, 2, 14, 15, 21, 3));
    let again = parse_record(&lines[0], &lines[1], &lines[2]).unwrap();
    assert_eq!(again, (book, clipping));
}

#[test]
fn record_with_bad_book_line_fails() {
    let lines = record_lines("no author", "2015年2月14日星期六 下午3:21:03", "x");
    assert_eq!(parse_lines(&lines).err(), Some(ParseError::BookLine));
}

#[test]
fn two_records_of_one_book_and_a_malformed_one() {
    let mut lines = Vec::new();
    lines.extend(record_lines("书名 (标签) (作者)", "2015年2月14日星期六 下午3:21:03", "first"));
    lines.push("==========".to_owned());
    lines.push(String::new());
    lines.extend(record_lines("书名 (作者)", "2015年2月15日星期日 上午9:00:00", "second"));
    lines.push("==========".to_owned());
    lines.extend(record_lines("broken line", "2015年2月16日星期一 上午9:00:00", "third"));
    lines.push("==========".to_owned());
    let shelf = parse(&lines);
    assert_eq!(shelf.books().len(), 1);
    let book = &shelf.books()[0];
    assert_eq!(book.get_title(), "书名");
    assert_eq!(book.get_author(), "作者");
    assert_eq!(book.clippings().len(), 2);
    assert_eq!(book.clippings()[0].text(), "first");
    assert_eq!(book.clippings()[1].text(), "second");
}

#[test]
fn groups_go_by_count_not_by_delimiter() {
    // a record of two lines shifts the grouping of what follows
    let mut lines = vec!["书名 (作者)".to_owned(), "==========".to_owned()];
    lines.extend(record_lines("书名 (作者)", "2015年2月14日星期六 下午3:21:03", "text"));
    let shelf = parse(&lines);
    assert_eq!(shelf.books().len(), 0);
}

#[test]
fn trailing_partial_group_is_left_out() {
    let mut lines = record_lines("书名 (作者)", "2015年2月14日星期六 下午3:21:03", "text");
    lines.push("另一本 (别人)".to_owned());
    let shelf = parse(&lines);
    assert_eq!(shelf.books().len(), 1);
    assert_eq!(shelf.books()[0].clippings().len(), 1);
}

#[test]
fn empty_input_gives_empty_library() {
    let shelf = parse(&[]);
    assert!(shelf.books().is_empty());
}

#[test]
fn missing_marker_is_a_failure() {
    assert_eq!(parse_date_time("添加于 2015年2月14日 3:21:03"), Err(ParseError::DateTime));
    assert_eq!(
        parse_position_date_time("- 您在位置 #116-119的标注 | 添加于 2015年2月14日 3:21:03"),
        Err(ParseError::DateTime)
    );
}

#[test]
fn numbers_are_runs_of_decimal_digits() {
    let t = parse_date_time("添加于 ①2015年2月14日星期六 上午3:21:03").unwrap();
    assert_eq!(t, ts(2015, 2, 14, 3, 21, 3));
    let t = parse_date_time("添加于 2015½年2月14日星期六 上午3:21:03").unwrap();
    assert_eq!(t, ts(2015, 2, 14, 3, 21, 3));
}

#[test]
fn short_group_is_no_record() {
    let empty: Vec<String> = Vec::new();
    assert_eq!(parse_lines(&empty).err(), Some(ParseError::MissingLines));
    let two = vec!["书名 (作者)".to_owned(), "- 您在位置 #1-2的标注 | 添加于 2015年2月14日星期六 下午3:21:03".to_owned()];
    assert_eq!(parse_lines(&two).err(), Some(ParseError::MissingLines));
}
