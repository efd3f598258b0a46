use faceted::{DataType, Model, Selection, Table};

fn copy_strings(strs: &Vec<&str>) -> Vec<String> {
    strs.iter().map(|&s| String::from(s)).collect()
}

fn data_types(strs: &Vec<&str>) -> Vec<DataType> {
    strs.iter().map(|s| DataType::from_string(s)).collect()
}

fn table(name: &str, data: Vec<Vec<&str>>) -> Table {
    let table_header = data.get(0).expect("table header must exist");
    let mut t = Table::new(name, copy_strings(table_header));
    for row in data.iter().skip(1) {
        t.insert(data_types(row)).expect("row has one value per column");
    }
    t
}

fn model(tables: Vec<Table>) -> Model {
    let mut m = Model::new();
    for t in tables {
        m.add_table(t);
    }
    m
}

fn fixture_model() -> Model {
    let data1 = vec![
        vec!["name", "country"],
        vec!["ni", "swe"],
        vec!["ai", "swe"],
        vec!["ni", "swe"],
        vec!["qe", "cn"],
        vec!["usa", "usa"],
    ];
    let t1 = table("t1", data1);

    let data2 = vec![
        vec!["name", "item"],
        vec!["ni", "phone"],
        vec!["ni", "keys"],
        vec!["ai", "toy"],
        vec!["qe", "sandwich"],
    ];
    let t2 = table("t2", data2);

    let data3 = vec![
        vec!["item", "price"],
        vec!["phone", "10"],
        vec!["sandwich", "1.5"],
        vec!["toy", "2"],
    ];
    let t3 = table("t3", data3);

    model(vec![t1, t2, t3])
}

fn owned(v: Vec<&DataType>) -> Vec<DataType> {
    v.into_iter().cloned().collect()
}

fn sel(column: &str, value: &str) -> Selection {
    Selection { column: String::from(column), value: String::from(value) }
}

#[test]
fn model_get_values_1() {
    let data = vec![vec!["name"], vec!["ni"], vec!["ai"], vec!["ni"]];

    let t1 = table("t1", data);

    let m = model(vec![t1]);

    let values = m.get_all_values("name");

    let data_t: Vec<DataType> = data_types(&vec!["ai", "ni"]);
    let as_ref: Vec<&DataType> = data_t.iter().collect();

    assert_eq!(values, as_ref);
}

#[test]
fn model_get_values_2() {
    let data1 = vec![vec!["name"], vec!["ni"], vec!["ai"], vec!["ni"]];
    let t1 = table("t1", data1);

    let data2 = vec![
        vec!["name", "item"],
        vec!["ni", "phone"],
        vec!["ni", "keys"],
        vec!["ai", "toy"],
        vec!["qe", "sandwich"],
    ];
    let t2 = table("t2", data2);

    let m = model(vec![t1, t2]);

    let get_names = m.get_all_values("name");
    let get_items = m.get_all_values("item");

    let name_values: Vec<DataType> = data_types(&vec!["ai", "ni", "qe"]);
    let name_val_refs: Vec<&DataType> = name_values.iter().collect();

    assert_eq!(get_names, name_val_refs);

    let item_values: Vec<DataType> = data_types(&vec!["keys", "phone", "sandwich", "toy"]);
    let item_refs: Vec<&DataType> = item_values.iter().collect();

    assert_eq!(get_items, item_refs);
}

#[test]
fn model_get_values_3() {
    let model = fixture_model();

    let mut ctx = model.new_data_context();
    ctx.select(&Selection { column: String::from("item"), value: String::from("phone") });
    ctx.select(&Selection { column: String::from("item"), value: String::from("sandwich") });

    let possible_countries = ctx.get_possible("country");

    assert_eq!(possible_countries, vec![&DataType::from_string("cn"), &DataType::from_string("swe")]);

    let possible_names = ctx.get_possible("name");

    assert_eq!(possible_names, vec![&DataType::from_string("ni"), &DataType::from_string("qe")]);

    let possible_prices = ctx.get_possible("price");

    assert_eq!(possible_prices, vec![&DataType::from_string("1.5"), &DataType::from_string("10")])
}

#[test]
fn model_without_selection_reaches_everything() {
    let model = fixture_model();
    let ctx = model.new_data_context();
    assert_eq!(owned(ctx.get_possible("country")), data_types(&vec!["cn", "swe", "usa"]));
    assert!(ctx.get_possible("missing").is_empty());
}

#[test]
fn model_deselect_widens_again() {
    let model = fixture_model();
    let mut ctx = model.new_data_context();
    ctx.select(&sel("country", "cn"));
    assert_eq!(owned(ctx.get_possible("name")), data_types(&vec!["qe"]));
    // the items table shares a column with the selected one only through
    // the names table, so only that table narrows
    assert_eq!(owned(ctx.get_possible("item")), data_types(&vec!["phone", "sandwich", "toy"]));
    ctx.deselect(&sel("country", "cn"));
    assert_eq!(owned(ctx.get_possible("item")), data_types(&vec!["keys", "phone", "sandwich", "toy"]));
}

#[test]
fn model_get_table_by_name() {
    let model = fixture_model();
    let t = model.get_table("t2").expect("t2 is in the model");
    assert_eq!(t.get_name(), "t2");
    assert_eq!(t.get_columns(), &vec![String::from("name"), String::from("item")]);
    assert!(model.get_table("t9").is_none());
}

#[test]
fn values_sort_text_before_numbers() {
    let t = table("t", vec![vec!["v"], vec!["10"], vec!["b"], vec!["1.5"], vec!["a"], vec!["-3"], vec!["1.50"]]);
    let m = model(vec![t]);
    assert_eq!(owned(m.get_all_values("v")), data_types(&vec!["a", "b", "-3", "1.5", "1.50", "10"]));
}

#[test]
fn table_insert_rejects_wrong_arity() {
    let mut t = Table::new("t", copy_strings(&vec!["a", "b"]));
    let err = t.insert(data_types(&vec!["1"])).unwrap_err();
    assert_eq!(err.expected, 2);
    assert_eq!(err.found, 1);
    assert_eq!(t.len(), 0);
    assert!(t.insert(data_types(&vec!["1", "2"])).is_ok());
    assert_eq!(t.len(), 1);
}

#[test]
fn table_column_index_first_match() {
    let t = Table::new("t", copy_strings(&vec!["a", "b", "a"]));
    assert_eq!(t.get_col_index("a"), Some(0));
    assert_eq!(t.get_col_index("b"), Some(1));
    assert_eq!(t.get_col_index("c"), None);
}

fn people() -> Table {
    table(
        "people",
        vec![
            vec!["name", "age", "country"],
            vec!["ni", "35", "swe"],
            vec!["si", "34", "cn"],
            vec!["te", "35", "swe"],
            vec!["la", "25", "usa"],
        ],
    )
}

#[test]
fn table_or_within_and_across() {
    let t = people();
    assert_eq!(t.possible_rows(&vec![sel("country", "cn"), sel("country", "usa")]), vec![1, 3]);
    assert_eq!(t.possible_rows(&vec![sel("country", "swe"), sel("age", "35")]), vec![0, 2]);
    assert_eq!(t.possible_rows(&vec![sel("country", "swe"), sel("age", "34")]), Vec::<usize>::new());
    assert_eq!(t.possible_rows(&vec![]), vec![0, 1, 2, 3]);
    assert_eq!(t.possible_rows(&vec![sel("nope", "x")]), Vec::<usize>::new());
    let recs = t.get_possible(&vec![sel("name", "te")]);
    assert_eq!(recs.len(), 1);
    assert_eq!(recs[0], &data_types(&vec!["te", "35", "swe"]));
    let by_id = t.get_rows_by_id(&vec![3, 9, 0]);
    assert_eq!(by_id.len(), 2);
    assert_eq!(by_id[0][0], DataType::from_string("la"));
}

#[test]
fn context_counts_narrow_and_widen() {
    let t = people();
    let mut ctx = t.new_context();
    assert_eq!(ctx.count(), 4);
    ctx.select(&sel("country", "swe"));
    assert_eq!(ctx.count(), 2);
    ctx.select(&sel("age", "35"));
    assert_eq!(ctx.count(), 2);
    ctx.select(&sel("name", "ni"));
    assert_eq!(ctx.count(), 1);
    ctx.deselect(&sel("name", "ni"));
    assert_eq!(ctx.count(), 2);
    ctx.deselect(&sel("age", "99"));
    assert_eq!(ctx.count(), 2);
}

#[test]
fn context_select_twice_is_select_once() {
    let t = people();
    let mut ctx = t.new_context();
    ctx.select(&sel("country", "swe"));
    ctx.select(&sel("country", "cn"));
    let once = ctx.count();
    ctx.select(&sel("country", "cn"));
    assert_eq!(ctx.count(), once);
    assert_eq!(once, 3);
    ctx.deselect(&sel("country", "cn"));
    assert_eq!(ctx.count(), 2);
}

#[test]
fn context_aggregates() {
    let t = people();
    let mut ctx = t.new_context();
    assert_eq!(ctx.sum(String::from("age")), Some(DataType::Int(129)));
    assert_eq!(ctx.max(String::from("age")), Some(DataType::Int(35)));
    assert_eq!(ctx.min(String::from("age")), Some(DataType::Int(25)));
    assert_eq!(ctx.sum(String::from("height")), None);
    assert_eq!(ctx.max(String::from("height")), None);
    assert_eq!(ctx.sum(String::from("name")), Some(DataType::Int(0)));
    assert_eq!(ctx.max(String::from("name")), None);
    assert_eq!(ctx.min(String::from("country")), None);
    ctx.select(&sel("country", "usa"));
    assert_eq!(ctx.sum(String::from("age")), Some(DataType::Int(25)));
}

#[test]
fn context_decimal_safe_sum() {
    let t = table("prices", vec![vec!["p"], vec!["1.23"], vec!["5"], vec!["x"]]);
    let ctx = t.new_context();
    assert_eq!(ctx.sum(String::from("p")), Some(DataType::Decimal(623, 2)));
    assert_eq!(ctx.sum(String::from("p")).unwrap().to_string(), "6.23");
    assert_eq!(ctx.max(String::from("p")), Some(DataType::Int(5)));
    assert_eq!(ctx.min(String::from("p")), Some(DataType::Decimal(123, 2)));
}

#[test]
fn context_max_min_ties() {
    let t = table("t", vec![vec!["v"], vec!["1.0"], vec!["1"], vec!["0.5"], vec!["0.50"]]);
    let ctx = t.new_context();
    assert_eq!(ctx.max(String::from("v")), Some(DataType::Int(1)));
    assert_eq!(ctx.min(String::from("v")), Some(DataType::Decimal(5, 1)));
}

#[test]
fn context_sum_overflow_is_none() {
    let t = table("t", vec![vec!["v"], vec!["9223372036854775807"], vec!["1"]]);
    let ctx = t.new_context();
    assert_eq!(ctx.sum(String::from("v")), None);
}
