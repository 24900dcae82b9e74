use piece_table::{to_byte_offset, EditError, Location, PieceTable, Utf8Metric};

#[test]
fn test_byteoffset() {
    let test = "다람쥐 헌 쳇바퀴에 타고파";
    assert_eq!(to_byte_offset(test, 2), "다람".len());
    assert_eq!(to_byte_offset(&test["다람".len()..], 2), "쥐 ".len());
}

#[test]
fn test_get_piecedata() {
    let test = "a\u{310}e\u{301}o\u{308}\u{332}\r\nae";
    let table = PieceTable::new(test);
    let cursor = table.find_offset(0).unwrap();
    let piece = table.get_piece(&cursor);
    assert_eq!(test, table.get_piece_data(piece));
}

#[test]
fn test_findoffset() {
    let table = PieceTable::new("다람쥐");
    assert!(table.find_offset(0).is_some());
    assert!(table.find_offset(3).is_some());
    assert!(table.find_offset(4).is_none());
}

#[test]
fn test_splitpiece() {
    let table = PieceTable::new("04/25 (화)까지 조교에게 연락하여 면담 일정을 조정해주세요");
    let cursor = table.find_offset(8).unwrap();
    let (prev, next) = table.split_piece(&cursor);
    let whole = table.get_piece(&cursor);
    assert_eq!(prev.len.utf8 + next.len.utf8, whole.len.utf8);
    assert_eq!(prev.len.byte + next.len.byte, whole.len.byte);
    assert_eq!(table.get_piece_data(&prev), "04/25 (\u{d654}");
}

#[test]
fn test_insert_at() {
    let mut table = PieceTable::new("다람쥐 헌 쳇바퀴에 타고파");
    table.insert_at(0, " test").unwrap();

    assert_eq!(table.to_string(), " test다람쥐 헌 쳇바퀴에 타고파");
    table.insert_at(3, " test").unwrap();
    assert_eq!(table.to_string(), " te testst다람쥐 헌 쳇바퀴에 타고파");
    table.insert_at(11, " test").unwrap();
    assert_eq!(
        table.to_string(),
        " te testst다 test람쥐 헌 쳇바퀴에 타고파"
    );

    let mut table = PieceTable::new("");
    table.insert_at(0, "12345").unwrap();
    assert_eq!(table.to_string(), "12345");
    table.insert_at(5, "다람쥐").unwrap();
    println!("{table:#?}");
    assert_eq!(table.to_string(), "12345다람쥐");
}

#[test]
fn test_remove() {
    let mut table = PieceTable::new("");
    table.insert_at(0, "12345").unwrap();

    assert_eq!(table.to_string(), "12345");
    table.insert_at(5, "다람쥐").unwrap();

    assert_eq!(table.to_string(), "12345다람쥐");
    table.remove_range(0..4).unwrap();

    assert_eq!(table.to_string(), "5다람쥐");
    table.remove_range(0..3).unwrap();

    assert_eq!(table.to_string(), "쥐");
}

#[test]
fn boundary_insert_prepends_and_appends() {
    let mut table = PieceTable::new("다람쥐 헌 쳇바퀴에 타고파");
    table.insert_at(0, "head ").unwrap();
    assert_eq!(table.to_string(), "head 다람쥐 헌 쳇바퀴에 타고파");
    let total = table.to_string().chars().count();
    table.insert_at(total, " tail").unwrap();
    assert_eq!(table.to_string(), "head 다람쥐 헌 쳇바퀴에 타고파 tail");
}

#[test]
fn combining_marks_split_between_scalars() {
    // "a\u{310}e\u{301}o\u{308}\u{332}" is seven Unicode scalars: each base letter is followed by one
    // or two combining marks. Offsets count scalars, so offset 1 falls
    // between the base letter and its combining mark.
    let mut table = PieceTable::new("a\u{310}e\u{301}o\u{308}\u{332}");
    table.insert_at(1, "|").unwrap();
    assert_eq!(table.to_string(), "a|\u{310}e\u{301}o\u{308}\u{332}");

    // Offset 2 keeps the full two-scalar cluster on the left.
    let mut table = PieceTable::new("a\u{310}e\u{301}o\u{308}\u{332}");
    table.insert_at(2, "|").unwrap();
    assert_eq!(table.to_string(), "a\u{310}|e\u{301}o\u{308}\u{332}");
}

#[test]
fn metric_counts_scalars_and_bytes() {
    let m = Utf8Metric::from_str("a\u{310}");
    assert_eq!(m.utf8, 2);
    assert_eq!(m.byte, 3);
    let m = Utf8Metric::from_str("다람쥐");
    assert_eq!(m.utf8, 3);
    assert_eq!(m.byte, 9);
    let m = Utf8Metric::from_str("");
    assert_eq!(m.utf8, 0);
    assert_eq!(m.byte, 0);
}

#[test]
fn fresh_table_has_one_source_piece() {
    let table = PieceTable::new("다람쥐");
    let cursor = table.find_offset(0).unwrap();
    let piece = table.get_piece(&cursor);
    assert_eq!(piece.begin.byte, 0);
    assert_eq!(piece.begin.utf8, 0);
    assert_eq!(piece.len.utf8, 3);
    assert_eq!(piece.len.byte, 9);
    assert!(matches!(piece.location, Location::Original));
}

#[test]
fn split_second_half_begins_where_the_first_ends() {
    let table = PieceTable::new("a\u{310}e\u{301}o\u{308}\u{332}");
    let cursor = table.find_offset(1).unwrap();
    let (first, second) = table.split_piece(&cursor);
    assert_eq!(table.get_piece_data(&first), "a");
    assert_eq!(second.begin.byte, 1);
    assert_eq!(second.begin.utf8, 1);
    assert!(table.get_piece_data(&second).starts_with('\u{310}'));
}

#[test]
fn render_is_idempotent() {
    let mut table = PieceTable::new("다람쥐");
    table.insert_at(1, "ab").unwrap();
    let first = table.to_string();
    let second = table.to_string();
    assert_eq!(first, second);
    assert_eq!(first, "다ab람쥐");
}

#[test]
fn insert_out_of_range_leaves_table_unchanged() {
    let mut table = PieceTable::new("abc");
    assert_eq!(table.insert_at(4, "x"), Err(EditError::OffsetOutOfRange));
    assert_eq!(table.to_string(), "abc");
    table.insert_at(3, "x").unwrap();
    assert_eq!(table.to_string(), "abcx");
}

#[test]
fn remove_rejects_bad_ranges() {
    let mut table = PieceTable::new("다람쥐 헌");
    assert_eq!(table.remove_range(3..2), Err(EditError::InvalidRange));
    assert_eq!(table.to_string(), "다람쥐 헌");
    assert_eq!(table.remove_range(2..6), Err(EditError::OffsetOutOfRange));
    assert_eq!(table.to_string(), "다람쥐 헌");
    // start > end is reported invalid even when the end is also out of range
    assert_eq!(table.remove_range(7..6), Err(EditError::InvalidRange));
}

#[test]
fn remove_whole_document_and_empty_range() {
    let mut table = PieceTable::new("다람쥐");
    table.remove_range(1..1).unwrap();
    assert_eq!(table.to_string(), "다람쥐");
    table.remove_range(0..3).unwrap();
    assert_eq!(table.to_string(), "");
    table.insert_at(0, "새").unwrap();
    assert_eq!(table.to_string(), "새");
}

#[test]
fn remove_across_pieces() {
    let mut table = PieceTable::new("다람쥐 헌 쳇바퀴에 타고파");
    table.insert_at(3, "abc").unwrap();
    table.insert_at(9, "xyz").unwrap();
    assert_eq!(table.to_string(), "다람쥐abc 헌 xyz쳇바퀴에 타고파");
    table.remove_range(1..11).unwrap();
    assert_eq!(table.to_string(), "다z쳇바퀴에 타고파");
}

#[test]
fn edits_match_reference_string_model() {
    // the same edits applied to a plain character-indexed string
    let mut table = PieceTable::new("다람쥐 헌 쳇바퀴에 타고파");
    let mut model: Vec<char> = "다람쥐 헌 쳇바퀴에 타고파".chars().collect();

    let edits: [(usize, &str); 4] = [(0, "one "), (7, "두"), (3, " test"), (0, "x")];
    for (at, text) in edits {
        table.insert_at(at, text).unwrap();
        let mut grown: Vec<char> = model[..at].to_vec();
        grown.extend(text.chars());
        grown.extend(model[at..].iter());
        model = grown;
        assert_eq!(table.to_string(), model.iter().collect::<String>());
    }
    let cuts: [(usize, usize); 3] = [(0, 2), (5, 9), (1, 1)];
    for (a, b) in cuts {
        table.remove_range(a..b).unwrap();
        let mut cut: Vec<char> = model[..a].to_vec();
        cut.extend(model[b..].iter());
        model = cut;
        assert_eq!(table.to_string(), model.iter().collect::<String>());
    }
}
