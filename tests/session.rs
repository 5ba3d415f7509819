use profile_book::book::Book;
use profile_book::command::{parse_directive, strip_line_end, Command, Effect};
use profile_book::date::Date;
use profile_book::error::BookError;
use profile_book::record::{split_line, Record};
use profile_book::text::{parse_i32, parse_u32, text_le};

fn book_of(lines: &[&str]) -> Book {
    let mut b = Book::new();
    for l in lines {
        assert!(matches!(b.apply_line(l), Ok(Effect::Added)));
    }
    b
}

fn ids(b: &Book) -> Vec<u32> {
    b.records().iter().map(|r| r.id).collect()
}

fn shown_ids(b: &Book, e: Result<Effect, BookError>) -> Vec<u32> {
    match e {
        Ok(Effect::Show(ix)) => ix.iter().map(|&i| b.records()[i].id).collect(),
        _ => panic!("expected records to show"),
    }
}

#[test]
fn one_record_then_count() {
    let mut b = Book::new();
    assert!(matches!(b.apply_line("1,Alice,2020-01-01,Tokyo,hello\n"), Ok(Effect::Added)));
    assert!(matches!(b.apply_line("%C"), Ok(Effect::Count(1))));
}

#[test]
fn count_after_several_additions() {
    let mut b = Book::new();
    assert!(matches!(b.apply_line("%C"), Ok(Effect::Count(0))));
    for i in 0..7 {
        let line = format!("{},n{},2021-03-0{},a,b", i, i, i + 1);
        assert!(matches!(b.apply_line(&line), Ok(Effect::Added)));
    }
    assert!(b.apply_line("2,bad,2021-13-01,a,b").is_err());
    assert!(matches!(b.apply_line("%C"), Ok(Effect::Count(7))));
}

#[test]
fn sort_by_id_then_print_all() {
    let mut b = book_of(&["3,C,2020-01-03,x,y", "1,A,2020-01-01,x,y", "2,B,2020-01-02,x,y"]);
    assert!(matches!(b.apply_line("%S 1"), Ok(Effect::Sorted)));
    let e = b.apply_line("%P 0");
    assert_eq!(shown_ids(&b, e), vec![1, 2, 3]);
}

#[test]
fn sort_is_stable_and_idempotent() {
    let mut b = book_of(&[
        "2,first,2020-01-01,x,y",
        "1,a,2020-01-01,x,y",
        "2,second,2020-01-01,x,y",
        "1,b,2020-01-01,x,y",
    ]);
    b.sort_by_key(1);
    let once: Vec<String> = b.records().iter().map(|r| r.name.clone()).collect();
    assert_eq!(once, vec!["a", "b", "first", "second"]);
    b.sort_by_key(1);
    let twice: Vec<String> = b.records().iter().map(|r| r.name.clone()).collect();
    assert_eq!(once, twice);
}

#[test]
fn sort_by_text_and_date_keys() {
    let mut b = book_of(&[
        "1,bob,2021-05-01,Osaka,z",
        "2,Bob,2019-12-31,Kyoto,a",
        "3,alice,2020-06-15,Aomori,m",
    ]);
    b.sort_by_key(2);
    assert_eq!(ids(&b), vec![2, 3, 1]);
    b.sort_by_key(3);
    assert_eq!(ids(&b), vec![2, 3, 1]);
    b.sort_by_key(4);
    assert_eq!(ids(&b), vec![3, 2, 1]);
    b.sort_by_key(5);
    assert_eq!(ids(&b), vec![2, 3, 1]);
}

#[test]
fn print_prefix_suffix_and_all() {
    let mut b = book_of(&[
        "1,a,2020-01-01,x,y",
        "2,b,2020-01-01,x,y",
        "3,c,2020-01-01,x,y",
        "4,d,2020-01-01,x,y",
    ]);
    let e = b.apply_line("%P 2");
    assert_eq!(shown_ids(&b, e), vec![1, 2]);
    let e = b.apply_line("%P -2");
    assert_eq!(shown_ids(&b, e), vec![3, 4]);
    let e = b.apply_line("%P 10");
    assert_eq!(shown_ids(&b, e), vec![1, 2, 3, 4]);
    let e = b.apply_line("%P -10");
    assert_eq!(shown_ids(&b, e), vec![1, 2, 3, 4]);
    let e = b.apply_line("%P -2147483648");
    assert_eq!(shown_ids(&b, e), vec![1, 2, 3, 4]);
    let e = b.apply_line("%P 0");
    assert_eq!(shown_ids(&b, e), vec![1, 2, 3, 4]);
}

#[test]
fn print_on_empty_book() {
    let mut b = Book::new();
    let e = b.apply_line("%P 3");
    assert!(shown_ids(&b, e).is_empty());
}

#[test]
fn find_is_exact() {
    let mut b = book_of(&[
        "10,Alice,2020-01-01,Tokyo,hello",
        "11,alice,2020-02-01,Osaka,Alice",
        "12,Bob,2020-01-01,Tokyo,bye",
    ]);
    let e = b.apply_line("%F Alice");
    assert_eq!(shown_ids(&b, e), vec![10, 11]);
    let e = b.apply_line("%F Ali");
    assert!(shown_ids(&b, e).is_empty());
    let e = b.apply_line("%F 2020-01-01");
    assert_eq!(shown_ids(&b, e), vec![10, 12]);
    let e = b.apply_line("%F 11");
    assert_eq!(shown_ids(&b, e), vec![11]);
    let e = b.apply_line("%F tokyo");
    assert!(shown_ids(&b, e).is_empty());
}

#[test]
fn find_matches_id_as_decimal() {
    let mut b = book_of(&["007,x,2020-01-01,y,z"]);
    let e = b.apply_line("%F 7");
    assert_eq!(shown_ids(&b, e), vec![7]);
    let e = b.apply_line("%F 007");
    assert!(shown_ids(&b, e).is_empty());
}

#[test]
fn write_then_read_reproduces() {
    let mut b = book_of(&[
        "3,Carol,2021-07-04,Nagoya,note, with commas",
        "1,Alice,2020-01-01,Tokyo,hello",
        "2,Bob,1999-12-31,Kobe,",
    ]);
    let text = match b.apply_line("%W out.csv") {
        Ok(Effect::Save(path, text)) => {
            assert_eq!(path, "out.csv");
            text
        }
        _ => panic!("expected a save"),
    };
    assert_eq!(
        text,
        "3,Carol,2021-07-04,Nagoya,note, with commas\n1,Alice,2020-01-01,Tokyo,hello\n2,Bob,1999-12-31,Kobe,\n"
    );
    let mut fresh = Book::new();
    match fresh.apply_line("%R out.csv") {
        Ok(Effect::Load(path)) => assert_eq!(path, "out.csv"),
        _ => panic!("expected a load"),
    }
    for line in text.lines() {
        assert!(matches!(fresh.apply_line(line), Ok(Effect::Added)));
    }
    assert_eq!(fresh.records(), b.records());
}

#[test]
fn invalid_sort_key_keeps_order() {
    let mut b = book_of(&["2,b,2020-01-01,x,y", "1,a,2020-01-01,x,y"]);
    assert!(matches!(b.apply_line("%S 9"), Err(BookError::InvalidSortKey)));
    assert!(matches!(b.apply_line("%S 0"), Err(BookError::InvalidSortKey)));
    assert!(matches!(b.apply_line("%S -1"), Err(BookError::InvalidSortKey)));
    assert_eq!(ids(&b), vec![2, 1]);
    assert!(matches!(b.apply_line("%S x"), Err(BookError::BadInteger)));
    assert!(matches!(b.apply_line("%S"), Err(BookError::MissingArgument)));
}

#[test]
fn unknown_directive_then_continue() {
    let mut b = Book::new();
    match b.apply_line("%Z") {
        Err(BookError::UnknownDirective(t)) => assert_eq!(t, "%Z"),
        _ => panic!("expected an unknown directive"),
    }
    assert!(matches!(b.apply_line("5,e,2020-01-01,x,y"), Ok(Effect::Added)));
    assert!(matches!(b.apply_line("%C"), Ok(Effect::Count(1))));
}

#[test]
fn directive_parsing() {
    assert!(matches!(parse_directive("%Q"), Ok(Command::Quit)));
    assert!(matches!(parse_directive("%Q now"), Ok(Command::Quit)));
    assert!(matches!(parse_directive("%P -3"), Ok(Command::Print(-3))));
    assert!(matches!(parse_directive("%P +3"), Ok(Command::Print(3))));
    assert!(matches!(parse_directive("%P 3 4"), Ok(Command::Print(3))));
    assert!(matches!(parse_directive("%P"), Err(BookError::MissingArgument)));
    assert!(matches!(parse_directive("%P "), Err(BookError::BadInteger)));
    assert!(matches!(parse_directive("%P 2147483648"), Err(BookError::BadInteger)));
    match parse_directive("%F two words") {
        Ok(Command::Find(w)) => assert_eq!(w, "two"),
        _ => panic!("expected a find"),
    }
    assert!(matches!(parse_directive("%W"), Err(BookError::MissingArgument)));
    assert!(matches!(parse_directive("%R"), Err(BookError::MissingArgument)));
    assert!(matches!(parse_directive("%F"), Err(BookError::MissingArgument)));
    match parse_directive("%QQ") {
        Ok(Command::NotDefine(t)) => assert_eq!(t, "%QQ"),
        _ => panic!("expected an unknown directive"),
    }
}

#[test]
fn quit_directive() {
    let mut b = Book::new();
    assert!(matches!(b.apply_line("%Q\n"), Ok(Effect::Quit)));
}

#[test]
fn record_errors() {
    let mut b = Book::new();
    assert!(matches!(b.apply_line("1,a,2020-01-01,x"), Err(BookError::MalformedRecord)));
    assert!(matches!(b.apply_line(""), Err(BookError::MalformedRecord)));
    assert!(matches!(b.apply_line("x,a,2020-01-01,x,y"), Err(BookError::BadInteger)));
    assert!(matches!(b.apply_line("-1,a,2020-01-01,x,y"), Err(BookError::BadInteger)));
    assert!(matches!(b.apply_line("4294967296,a,2020-01-01,x,y"), Err(BookError::BadInteger)));
    assert!(matches!(b.apply_line("x,a,bad,x,y"), Err(BookError::BadInteger)));
    assert!(matches!(b.apply_line("1,a,2020-02-30,x,y"), Err(BookError::BadDate)));
    assert!(matches!(b.apply_line("1,a,2020/01/01,x,y"), Err(BookError::BadDate)));
    assert_eq!(b.len(), 0);
    assert!(matches!(b.apply_line("4294967295,a,2020-02-29,x,y"), Ok(Effect::Added)));
    assert_eq!(b.records()[0].id, 4294967295);
}

#[test]
fn record_round_trip() {
    let r = Record::from_line("42, Dan ,2001-09-11,Main St,a, b,c").unwrap();
    assert_eq!(r.name, " Dan ");
    assert_eq!(r.addr, "Main St");
    assert_eq!(r.note, "a, b,c");
    let line = r.to_csv();
    assert_eq!(line, "42, Dan ,2001-09-11,Main St,a, b,c");
    let back = Record::from_line(&line).unwrap();
    assert_eq!(back, r);
}

#[test]
fn comma_in_name_breaks_round_trip() {
    let r = Record {
        id: 1,
        name: "Doe, John".to_string(),
        date: Date { year: 2020, month: 1, day: 1 },
        addr: "x".to_string(),
        note: "y".to_string(),
    };
    assert!(Record::from_line(&r.to_csv()).is_err());
}

#[test]
fn date_text_is_zero_padded() {
    let r = Record::from_line("+7,n,2020-1-5,a,b").unwrap();
    assert_eq!(r.id, 7);
    assert_eq!(r.date, Date { year: 2020, month: 1, day: 5 });
    assert_eq!(r.to_csv(), "7,n,2020-01-05,a,b");
    assert_eq!(Date { year: 33, month: 12, day: 9 }.text(), "0033-12-09");
}

#[test]
fn display_block() {
    let r = Record::from_line("1,Alice,2020-01-01,Tokyo,hello").unwrap();
    assert_eq!(
        r.display(),
        "-----\nID: 1\nName: Alice\nDate: 2020-01-01\nAddr: Tokyo\nNote: hello\n-----"
    );
    assert!(r.is_match("1"));
    assert!(r.is_match("hello"));
    assert!(!r.is_match("Hello"));
}

#[test]
fn line_end_is_stripped_only() {
    assert_eq!(strip_line_end("a b \r\n"), "a b ");
    assert_eq!(strip_line_end("a b \n"), "a b ");
    assert_eq!(strip_line_end(" x "), " x ");
    let r = Record::from_line(strip_line_end("1,a,2020-01-01,x, y \r\n")).unwrap();
    assert_eq!(r.note, " y ");
}

#[test]
fn split_keeps_rest_in_last_field() {
    assert_eq!(split_line("a,b,c,d,e,f"), vec!["a", "b", "c", "d", "e,f"]);
    assert_eq!(split_line("a,b"), vec!["a", "b"]);
    assert_eq!(split_line(""), vec![""]);
}

#[test]
fn integer_parsing() {
    assert_eq!(parse_u32("+12"), Some(12));
    assert_eq!(parse_u32("+"), None);
    assert_eq!(parse_u32("1 "), None);
    assert_eq!(parse_i32("-2147483648"), Some(i32::MIN));
    assert_eq!(parse_i32("-"), None);
    assert_eq!(parse_i32("-+1"), None);
    assert_eq!(parse_i32("2147483647"), Some(i32::MAX));
}

#[test]
fn text_order_is_lexicographic() {
    assert!(text_le("abc", "abd"));
    assert!(text_le("ab", "abc"));
    assert!(!text_le("b", "abc"));
    assert!(text_le("B", "a"));
    assert!(text_le("", ""));
}
