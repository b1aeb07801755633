use field_filter::{parse_filter, Field};

#[test]
fn name_filter() {
    let input = ".a_name";
    let expected = vec![Field::new("a_name")];
    let fields = parse_filter(input).expect("failed to parse");
    assert_eq!(expected, fields);
}

#[test]
fn label_filter() {
    let input = ".a_name{\"a_label\"}";
    let expected = vec![Field::labeled("a_name", &["a_label"])];
    let fields = parse_filter(input).expect("failed to parse");
    assert_eq!(expected, fields);
}

#[test]
fn index_filter() {
    let input = ".a_name[0]";
    let expected = vec![Field::indexed("a_name", 0)];
    let fields = parse_filter(input).expect("failed to parse");
    assert_eq!(expected, fields);
}

#[test]
fn traversal_filter() {
    let input = ".a_name{\"a_label\"}.another_name{\"another_label\"}.third_name";
    let expected = vec![
        Field::labeled("a_name", &["a_label"]),
        Field::labeled("another_name", &["another_label"]),
        Field::new("third_name"),
    ];
    let fields = parse_filter(input).expect("failed to parse");
    assert_eq!(expected, fields);
}

#[test]
fn name_starting_with_digit_should_err() {
    let input = ".00asdf";
    parse_filter(input).expect_err("succesfully parsed invalid name");
}

#[test]
fn empty_input_fails() {
    parse_filter("").expect_err("parsed an empty filter");
}

#[test]
fn missing_leading_dot_fails() {
    parse_filter("a_name").expect_err("parsed a segment with no leading dot");
}

#[test]
fn parsing_is_deterministic() {
    let input = ".a{\"x\"}[3].b";
    let first = parse_filter(input);
    let second = parse_filter(input);
    assert_eq!(first, second);
    let bad = ".a{\"x\"";
    assert_eq!(parse_filter(bad), parse_filter(bad));
}

#[test]
fn multiple_labels_kept_in_order() {
    let input = ".a{\"x\"}{\"y\"}";
    let expected = vec![Field::labeled("a", &["x", "y"])];
    let fields = parse_filter(input).expect("failed to parse");
    assert_eq!(expected, fields);
}

#[test]
fn label_and_index_may_coexist() {
    let input = ".a{\"x\"}[1]";
    let expected = vec![Field {
        name: "a".to_string(),
        labels: vec!["x".to_string()],
        index: Some(1),
    }];
    let fields = parse_filter(input).expect("failed to parse");
    assert_eq!(expected, fields);
}

#[test]
fn quoted_segment_name() {
    let input = ".\"foo bar\"";
    let expected = vec![Field::new("foo bar")];
    let fields = parse_filter(input).expect("failed to parse");
    assert_eq!(expected, fields);
}

#[test]
fn empty_quoted_name_yields_no_field() {
    let fields = parse_filter(".\"\"").expect("failed to parse");
    assert_eq!(fields, vec![]);
    let fields = parse_filter(".\"\".b").expect("failed to parse");
    assert_eq!(fields, vec![Field::new("b")]);
}

#[test]
fn empty_label_is_kept() {
    let input = ".a{\"\"}";
    let expected = vec![Field::labeled("a", &[""])];
    let fields = parse_filter(input).expect("failed to parse");
    assert_eq!(expected, fields);
}

#[test]
fn name_may_contain_digits_after_first_char() {
    let fields = parse_filter("._a1_b2").expect("failed to parse");
    assert_eq!(fields, vec![Field::new("_a1_b2")]);
}

#[test]
fn trailing_dot_fails() {
    parse_filter(".").expect_err("parsed a lone dot");
    parse_filter(".a.").expect_err("parsed a trailing dot");
}

#[test]
fn whitespace_is_not_skipped() {
    parse_filter(".a .b").expect_err("skipped whitespace between segments");
    parse_filter(". a").expect_err("skipped whitespace after the dot");
}

#[test]
fn quoted_name_takes_qualifiers_too() {
    let input = ".\"x y\"[1]";
    let expected = vec![Field::indexed("x y", 1)];
    let fields = parse_filter(input).expect("failed to parse");
    assert_eq!(expected, fields);
}

#[test]
fn qualifiers_of_both_kinds_may_chain() {
    let input = ".a{\"x\"}{\"y\"}[2]{\"z\"}";
    let expected = vec![Field {
        name: "a".to_string(),
        labels: vec!["x".to_string(), "y".to_string(), "z".to_string()],
        index: Some(2),
    }];
    let fields = parse_filter(input).expect("failed to parse");
    assert_eq!(expected, fields);
}

#[test]
fn index_value_is_exact() {
    let fields = parse_filter(".xs[42]").expect("failed to parse");
    assert_eq!(fields, vec![Field::indexed("xs", 42)]);
}

#[test]
fn largest_index_is_accepted() {
    let input = format!(".a[{}]", usize::MAX);
    let fields = parse_filter(&input).expect("failed to parse");
    assert_eq!(fields, vec![Field::indexed("a", usize::MAX)]);
}
