use faceted::join::{join_tables, JoinError};

#[test]
fn join_tables_test() {
    let table1 = vec![
        vec!["name", "age", "country"],
        vec!["ni", "35", "swe"],
        vec!["si", "34", "cn"],
        vec!["te", "35", "swe"],
        vec!["la", "25", "usa"],
    ];

    let table2 = vec![
        vec!["name", "item", "quantity"],
        vec!["ni", "book", "5"],
        vec!["ni", "phone", "1"],
        vec!["si", "book", "10"],
        vec!["si", "phone", "1"],
        vec!["si", "computer", "1"],
        vec!["te", "phone", "1"],
        vec!["la", "computer", "1"],
        vec!["la", "book", "3"],
    ];

    let table3 = join_tables(&table1, &table2).unwrap();

    println!("{:#?}", table3);

    assert_eq!(table3.iter().len(), 9);
}

#[test]
fn join_rows_keep_name_once() {
    let t1 = vec![vec!["name", "age"], vec!["ni", "35"], vec!["si", "34"]];
    let t2 = vec![vec!["item", "name"], vec!["book", "si"], vec!["pen", "xx"], vec!["cup", "si"]];
    let joined = join_tables(&t1, &t2).unwrap();
    assert_eq!(
        joined,
        vec![
            vec!["name", "age", "item"],
            vec!["si", "34", "book"],
            vec!["si", "34", "cup"],
        ]
    );
}

#[test]
fn join_needs_exactly_one_shared_column() {
    let t1 = vec![vec!["a", "b"], vec!["1", "2"]];
    let none = vec![vec!["c"], vec!["1"]];
    let two = vec![vec!["a", "b"], vec!["1", "2"]];
    assert_eq!(join_tables(&t1, &none), Err(JoinError {}));
    assert_eq!(join_tables(&t1, &two), Err(JoinError {}));
}
