use texttools::cut::{has_char, parse_fields, parse_number, select_fields, FieldError};

fn chars(s: &str) -> Vec<char> {
    s.chars().collect()
}

#[test]
fn single_column() {
    assert_eq!(parse_fields("1"), Ok(vec![0]));
    assert_eq!(parse_fields("12"), Ok(vec![11]));
}

#[test]
fn columns_separated_by_commas() {
    assert_eq!(parse_fields("1,2"), Ok(vec![0, 1]));
    assert_eq!(parse_fields("3,1,2"), Ok(vec![2, 0, 1]));
}

#[test]
fn columns_separated_by_spaces() {
    assert_eq!(parse_fields("1 2"), Ok(vec![0, 1]));
    assert_eq!(parse_fields("10 20 30"), Ok(vec![9, 19, 29]));
}

#[test]
fn commas_count_before_spaces() {
    assert_eq!(parse_fields("1,2 3"), Err(FieldError::InvalidNumber));
    assert_eq!(parse_fields("1, 2"), Err(FieldError::InvalidNumber));
}

#[test]
fn empty_part_is_no_number() {
    assert_eq!(parse_fields(""), Err(FieldError::InvalidNumber));
    assert_eq!(parse_fields("1,"), Err(FieldError::InvalidNumber));
    assert_eq!(parse_fields(",1"), Err(FieldError::InvalidNumber));
    assert_eq!(parse_fields("1,,2"), Err(FieldError::InvalidNumber));
    assert_eq!(parse_fields("1  2"), Err(FieldError::InvalidNumber));
    assert_eq!(parse_fields(" "), Err(FieldError::InvalidNumber));
}

#[test]
fn column_zero_is_refused() {
    assert_eq!(parse_fields("0"), Err(FieldError::Zero));
    assert_eq!(parse_fields("1,0,2"), Err(FieldError::Zero));
    assert_eq!(parse_fields("+0 1"), Err(FieldError::Zero));
}

#[test]
fn invalid_number_counts_before_zero() {
    assert_eq!(parse_fields("0,x"), Err(FieldError::InvalidNumber));
    assert_eq!(parse_fields("x,0"), Err(FieldError::InvalidNumber));
}

#[test]
fn numbers_are_read_as_std_reads_them() {
    let max = usize::MAX.to_string();
    let above = format!("{}0", max);
    let mut samples = vec![
        String::from(""),
        String::from("0"),
        String::from("7"),
        String::from("007"),
        String::from("+7"),
        String::from("+"),
        String::from("-7"),
        String::from("++7"),
        String::from("7+"),
        String::from(" 7"),
        String::from("7 "),
        String::from("1_000"),
        String::from("0x10"),
        String::from("\u{664}"),
        String::from("12a"),
        String::from("4294967295"),
        String::from("4294967296"),
        String::from("18446744073709551615"),
        String::from("18446744073709551616"),
        String::from("99999999999999999999"),
    ];
    samples.push(max);
    samples.push(above);
    for sample in samples {
        assert_eq!(
            parse_number(&chars(&sample)),
            sample.parse::<usize>().ok(),
            "{:?}",
            sample
        );
    }
}

#[test]
fn largest_column_number() {
    let max = usize::MAX.to_string();
    assert_eq!(parse_fields(&max), Ok(vec![usize::MAX - 1]));
    let above = format!("1,{}0", max);
    assert_eq!(parse_fields(&above), Err(FieldError::InvalidNumber));
}

#[test]
fn has_char_finds_a_character() {
    assert!(has_char(&chars("a,b"), ','));
    assert!(!has_char(&chars("a b"), ','));
    assert!(!has_char(&[], ','));
}

#[test]
fn selected_columns_are_joined_in_the_order_asked() {
    let record = vec![String::from("a"), String::from("bb"), String::from("ccc")];
    assert_eq!(select_fields(&record, &[0]), Some(String::from("a")));
    assert_eq!(select_fields(&record, &[2, 0]), Some(String::from("ccca")));
    assert_eq!(select_fields(&record, &[1, 1]), Some(String::from("bbbb")));
    assert_eq!(select_fields(&record, &[]), Some(String::new()));
}

#[test]
fn missing_column_gives_nothing() {
    let record = vec![String::from("a"), String::from("bb")];
    assert_eq!(select_fields(&record, &[2]), None);
    assert_eq!(select_fields(&record, &[0, 5, 1]), None);
    assert_eq!(select_fields(&Vec::new(), &[0]), None);
}
