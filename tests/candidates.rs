use faceted::BetterSelection;

#[test]
fn make_selection() {
    let mut bs = BetterSelection { selected_values: Vec::new() };
    assert!(bs.selected_values.is_empty());

    bs = BetterSelection::new(vec![("name", vec!["ni", "ai"]), ("country", vec!["swe"])]);
    assert_eq!(bs.selected_values.len(), 2);
}

#[test]
fn later_candidates_replace_earlier() {
    let bs = BetterSelection::new(vec![("name", vec!["ni"]), ("country", vec!["swe"]), ("name", vec!["ai", "qe"])]);
    assert_eq!(
        bs.selected_values,
        vec![
            (String::from("name"), vec![String::from("ai"), String::from("qe")]),
            (String::from("country"), vec![String::from("swe")]),
        ]
    );
}
