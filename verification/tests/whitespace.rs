use text_utils::whitespace::{
    find_substring_ignoring_whitespace, full, operations, remove, repair, search_outcome,
    WhitespaceError, WhitespaceOperation,
};

#[test]
fn test_remove() {
    assert_eq!(remove(" t   h is is \n\t a tes    t ", true), "thisisatest");
    assert_eq!(remove("", true), "");
}

#[test]
fn test_full() {
    assert_eq!(
        full(" t   h is is \n\t a tes    t ", true),
        "t h i s i s a t e s t"
    );
    assert_eq!(full("", true), "");
}

#[test]
fn test_operations() {
    let from = " t  h isis a test  ";
    let to = "this is a test";
    assert_eq!(
        operations(from, from, true).unwrap(),
        vec![WhitespaceOperation::Keep; from.chars().count()]
    );
    assert_eq!(
        operations(to, to, true).unwrap(),
        vec![WhitespaceOperation::Keep; to.chars().count()]
    );
    assert_eq!(
        operations(from, to, true)
            .unwrap()
            .into_iter()
            .map(|op| op as u8)
            .collect::<Vec<u8>>(),
        vec![2, 0, 2, 2, 0, 2, 0, 0, 1, 0, 0, 0, 0, 0, 0, 0, 0, 2, 2]
    );
}

#[test]
fn test_repair() {
    let from = "t h isis a test";
    let to = "this is a test";
    assert_eq!(
        repair(from, &operations(from, to, true).unwrap(), true).unwrap(),
        to
    );
    assert_eq!(
        repair(to, &operations(to, from, true).unwrap(), true).unwrap(),
        "t h isis a test"
    );
    assert_eq!(
        repair("t", &vec![WhitespaceOperation::Delete,], true,).unwrap(),
        "t"
    );
    assert_eq!(repair("", &vec![], true).unwrap(), "");
}

#[test]
fn test_find_substring_ignoring_whitespace() {
    let s = "this is a test sentence";
    let sub = "  a te s\n t";
    let result = find_substring_ignoring_whitespace(s, sub, true).unwrap();
    assert!(result.is_some());
    let (start, end) = result.unwrap();
    assert_eq!(start, 8);
    assert_eq!(end, 14);
    assert_eq!(&s[start..end], "a test");
    let result = find_substring_ignoring_whitespace(s, "a t??st", true).unwrap();
    assert!(result.is_none());
    let s = "this is \" a \\w+ test \" sentence";
    let sub = "\"a \\w+test\"";
    let result = find_substring_ignoring_whitespace(s, sub, true).unwrap();
    assert!(result.is_some());
}

#[test]
fn remove_and_full_without_graphemes() {
    assert_eq!(remove(" a\u{a0}b \r\n c", false), "abc");
    assert_eq!(full(" a\u{a0}b \r\n c", false), "a b c");
    assert_eq!(full("abc", false), "a b c");
    assert_eq!(full("   ", true), "");
}

#[test]
fn grapheme_clusters_are_single_characters() {
    // the combining accent belongs to the letter before it
    assert_eq!(full("e\u{301}a", true), "e\u{301} a");
    assert_eq!(full("e\u{301}a", false), "e \u{301} a");
    // a carriage return with a line feed is one whitespace character
    assert_eq!(
        operations("a\r\nb", "ab", true).unwrap(),
        vec![
            WhitespaceOperation::Keep,
            WhitespaceOperation::Delete,
            WhitespaceOperation::Keep
        ]
    );
    assert_eq!(operations("a\r\nb", "ab", false).unwrap().len(), 4);
}

#[test]
fn operations_report_where_texts_differ() {
    assert_eq!(
        operations("abc", "abd", true),
        Err(WhitespaceError::Mismatch { from: 2, to: 2 })
    );
    assert_eq!(
        operations("ab", "a", true),
        Err(WhitespaceError::Mismatch { from: 1, to: 1 })
    );
    // an insertion passes over the whitespace and the character behind it
    assert_eq!(
        operations("ab", "a b", true).unwrap(),
        vec![WhitespaceOperation::Keep, WhitespaceOperation::Insert]
    );
    assert_eq!(operations("", "abc", true).unwrap(), vec![]);
}

#[test]
fn repair_needs_one_operation_per_character() {
    assert_eq!(
        repair("ab", &[WhitespaceOperation::Keep], true),
        Err(WhitespaceError::OperationCount { operations: 1, characters: 2 })
    );
    // no space is inserted behind a whitespace nor in front of one
    assert_eq!(
        repair(
            "a b",
            &[
                WhitespaceOperation::Insert,
                WhitespaceOperation::Insert,
                WhitespaceOperation::Insert
            ],
            true
        )
        .unwrap(),
        " a b"
    );
    // only whitespace is deleted
    assert_eq!(
        repair(
            "a b",
            &[
                WhitespaceOperation::Delete,
                WhitespaceOperation::Delete,
                WhitespaceOperation::Keep
            ],
            true
        )
        .unwrap(),
        "ab"
    );
}

#[test]
fn operations_of_a_text_onto_itself_keep_everything() {
    for text in ["", "a", "a b  c", "  x\ty "] {
        let ops = operations(text, text, true).unwrap();
        assert_eq!(ops, vec![WhitespaceOperation::Keep; text.chars().count()]);
        assert_eq!(repair(text, &ops, true).unwrap(), text);
    }
}

#[test]
fn operation_names_and_numbers() {
    assert_eq!(WhitespaceOperation::from_name("k"), Some(WhitespaceOperation::Keep));
    assert_eq!(WhitespaceOperation::from_name("keep"), Some(WhitespaceOperation::Keep));
    assert_eq!(WhitespaceOperation::from_name("i"), Some(WhitespaceOperation::Insert));
    assert_eq!(WhitespaceOperation::from_name("insert"), Some(WhitespaceOperation::Insert));
    assert_eq!(WhitespaceOperation::from_name("d"), Some(WhitespaceOperation::Delete));
    assert_eq!(WhitespaceOperation::from_name("delete"), Some(WhitespaceOperation::Delete));
    assert_eq!(WhitespaceOperation::from_name("x"), None);
    assert_eq!(WhitespaceOperation::from_code(0), Some(WhitespaceOperation::Keep));
    assert_eq!(WhitespaceOperation::from_code(1), Some(WhitespaceOperation::Insert));
    assert_eq!(WhitespaceOperation::from_code(2), Some(WhitespaceOperation::Delete));
    assert_eq!(WhitespaceOperation::from_code(3), None);
    for op in [
        WhitespaceOperation::Keep,
        WhitespaceOperation::Insert,
        WhitespaceOperation::Delete,
    ] {
        assert_eq!(WhitespaceOperation::from_code(op.code()), Some(op));
        assert_eq!(WhitespaceOperation::from_name(op.letter()), Some(op));
    }
}

#[test]
fn substring_search_escapes_pattern_characters() {
    // unescaped, the dot would match the x and the star would repeat it
    let found = find_substring_ignoring_whitespace("axb a.*b", "a.*b", true).unwrap();
    assert_eq!(found, Some((4, 8)));
    let found = find_substring_ignoring_whitespace("a . * b", "a.*b", false).unwrap();
    assert_eq!(found, Some((0, 7)));
    // offsets count bytes
    let found = find_substring_ignoring_whitespace("\u{e4}b c", "bc", true).unwrap();
    assert_eq!(found, Some((2, 5)));
    // nothing to search for is found at the start
    assert_eq!(find_substring_ignoring_whitespace("abc", "  ", true).unwrap(), Some((0, 0)));
}

#[test]
fn refused_pattern_is_a_pattern_error() {
    let refused = regex::Regex::new("(").unwrap_err();
    assert_eq!(search_outcome(Err(refused)), Err(WhitespaceError::Pattern));
    assert_eq!(search_outcome(Ok(Some((1, 2)))), Ok(Some((1, 2))));
    assert_eq!(search_outcome(Ok(None)), Ok(None));
}

#[test]
fn text_without_whitespace_is_left_as_it_is() {
    for text in ["", "abc", "e\u{301}a\u{1f1e9}\u{1f1ea}", "a-b_c"] {
        assert_eq!(remove(text, true), text);
        assert_eq!(remove(text, false), text);
    }
}
