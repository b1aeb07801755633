use field_filter::{parse_filter, reduce, Field, Filter, FilterError, Node, Position, Rule, Segment, Span};

#[test]
fn digit_start_reports_expected_names() {
    let err = parse_filter(".00asdf").expect_err("parsed an invalid name");
    match err {
        FilterError::Syntax { pos, expected } => {
            assert_eq!(pos, Position { offset: 1, line: 1, column: 2 });
            assert_eq!(expected, vec![Rule::Name, Rule::QuotedName]);
        }
        other => panic!("wrong error kind: {:?}", other),
    }
}

#[test]
fn missing_dot_reports_expected_segment() {
    let err = parse_filter("a_name").expect_err("parsed without a dot");
    match err {
        FilterError::Syntax { pos, expected } => {
            assert_eq!(pos, Position { offset: 0, line: 1, column: 1 });
            assert_eq!(expected, vec![Rule::Segment]);
        }
        other => panic!("wrong error kind: {:?}", other),
    }
}

#[test]
fn unterminated_quote_fails_at_end() {
    let err = parse_filter(".\"abc").expect_err("parsed an unterminated quote");
    match err {
        FilterError::Syntax { pos, expected } => {
            assert_eq!(pos.offset, 5);
            assert_eq!(expected, vec![Rule::QuotedName]);
        }
        other => panic!("wrong error kind: {:?}", other),
    }
}

#[test]
fn non_numeric_index_fails() {
    let err = parse_filter(".a[x]").expect_err("parsed a non-numeric index");
    match err {
        FilterError::Syntax { pos, expected } => {
            assert_eq!(pos.offset, 3);
            assert_eq!(expected, vec![Rule::NumericIndex]);
        }
        other => panic!("wrong error kind: {:?}", other),
    }
}

#[test]
fn unclosed_index_fails() {
    let err = parse_filter(".a[12").expect_err("parsed an unclosed index");
    match err {
        FilterError::Syntax { pos, expected } => {
            assert_eq!(pos.offset, 5);
            assert_eq!(expected, vec![Rule::NumericIndex]);
        }
        other => panic!("wrong error kind: {:?}", other),
    }
}

#[test]
fn unclosed_label_fails() {
    let err = parse_filter(".a{\"x\"").expect_err("parsed an unclosed label");
    match err {
        FilterError::Syntax { pos, expected } => {
            assert_eq!(pos.offset, 6);
            assert_eq!(expected, vec![Rule::Label]);
        }
        other => panic!("wrong error kind: {:?}", other),
    }
}

#[test]
fn label_must_be_quoted() {
    let err = parse_filter(".a{x}").expect_err("parsed an unquoted label");
    match err {
        FilterError::Syntax { pos, expected } => {
            assert_eq!(pos.offset, 3);
            assert_eq!(expected, vec![Rule::QuotedName]);
        }
        other => panic!("wrong error kind: {:?}", other),
    }
}

#[test]
fn oversized_index_is_an_overflow_error() {
    let input = ".a[99999999999999999999999999]";
    let err = parse_filter(input).expect_err("accepted an oversized index");
    match err {
        FilterError::IndexOverflow { pos } => {
            assert_eq!(pos, Position { offset: 3, line: 1, column: 4 });
        }
        other => panic!("wrong error kind: {:?}", other),
    }
}

#[test]
fn just_past_largest_index_is_an_overflow_error() {
    let input = format!(".a[{}]", (usize::MAX as u128) + 1);
    let err = parse_filter(&input).expect_err("accepted an oversized index");
    assert!(matches!(err, FilterError::IndexOverflow { .. }));
}

#[test]
fn error_position_counts_lines_and_columns() {
    let input = ".\"l1\nl2\".9";
    let err = parse_filter(input).expect_err("parsed a digit-led name");
    match err {
        FilterError::Syntax { pos, expected } => {
            assert_eq!(pos, Position { offset: 9, line: 2, column: 5 });
            assert_eq!(expected, vec![Rule::Name, Rule::QuotedName]);
        }
        other => panic!("wrong error kind: {:?}", other),
    }
}

#[test]
fn newline_may_sit_inside_a_quoted_name() {
    let fields = parse_filter(".\"l1\nl2\"").expect("failed to parse");
    assert_eq!(fields, vec![Field::new("l1\nl2")]);
}

#[test]
fn grammar_produces_the_parse_tree() {
    let tree = Filter::parse(".a[0]").expect("failed to parse");
    let expected = vec![Segment {
        nodes: vec![
            Node::Name { text: "a".to_string(), span: Span { start: 1, end: 2 } },
            Node::NumericIndex { text: "0".to_string(), span: Span { start: 3, end: 4 } },
        ],
    }];
    assert_eq!(tree, expected);
}

#[test]
fn reducer_turns_the_tree_into_fields() {
    let input = ".a{\"x\"}";
    let tree = Filter::parse(input).expect("failed to parse");
    let fields = reduce(input, &tree).expect("failed to reduce");
    assert_eq!(fields, vec![Field::labeled("a", &["x"])]);
}
