use faceted::catalog::{Catalog, Column, Person, Value};

fn v(column: Column, value: &str) -> Value {
    Value { column, value: String::from(value) }
}

fn sample() -> Catalog {
    let mut c = Catalog::new();
    c.insert(Person::new("ni", "swe", "m", 35, "dev"));
    c.insert(Person::new("si", "cn", "f", 34, "dev"));
    c.insert(Person::new("te", "swe", "f", 35, "ops"));
    c
}

#[test]
fn catalog_intersects_buckets() {
    let c = sample();
    let both = c.get_possible_rows(&vec![v(Column::Country, "swe"), v(Column::Sex, "f")]);
    assert_eq!(both.len(), 1);
    assert_eq!(both[0].name, "te");
    let devs = c.get_possible_rows(&vec![v(Column::Job, "dev")]);
    assert_eq!(devs.iter().map(|p| p.name.as_str()).collect::<Vec<_>>(), vec!["ni", "si"]);
    assert_eq!(c.get_possible_rows(&vec![]).len(), 3);
    assert_eq!(c.get_possible_rows(&vec![v(Column::Name, "nobody")]).len(), 0);
    // two values of one field: no person holds both
    assert_eq!(c.get_possible_rows(&vec![v(Column::Country, "swe"), v(Column::Country, "cn")]).len(), 0);
}

#[test]
fn catalog_rows_by_id() {
    let c = sample();
    let ps = c.get_persons_by_row_id(&vec![2, 7, 0]);
    assert_eq!(ps.len(), 2);
    assert_eq!(ps[0].name, "te");
    assert_eq!(ps[1].job, "dev");
}

#[test]
fn catalog_index_value_indexes_next_id() {
    let mut c = Catalog::new();
    c.index_value(v(Column::Job, "pilot"));
    c.insert(Person::new("al", "usa", "m", 40, "cook"));
    let pilots = c.get_possible_rows(&vec![v(Column::Job, "pilot")]);
    assert_eq!(pilots.len(), 1);
    assert_eq!(pilots[0].name, "al");
}
