use faceted::csv::parse_csv_line;

#[test]
fn csv_fields_are_split_and_trimmed() {
    assert_eq!(parse_csv_line("a,b ,c\n", ",", None), vec!["a", "b", "c"]);
    assert_eq!(parse_csv_line("a,,b,", ",", None), vec!["a", "", "b", ""]);
    assert_eq!(parse_csv_line("x", ",", None), vec!["x"]);
    assert_eq!(parse_csv_line("", ",", None), vec![""]);
    assert_eq!(parse_csv_line("1,2,3,4", ",", Some(2)), vec!["1", "2"]);
    assert_eq!(parse_csv_line("1,2", ",", Some(5)), vec!["1", "2"]);
    assert_eq!(parse_csv_line("a::b:::c", "::", None), vec!["a", "b", ":c"]);
    assert_eq!(parse_csv_line(" a\t,b\u{3000}", ",", None), vec![" a", "b"]);
}
