use csv_wizard::group::{insert_row, Group};

fn row(cells: &[&str]) -> Vec<String> {
    cells.iter().map(|c| c.to_string()).collect()
}

#[test]
fn insert_row_starts_then_extends_a_group() {
    let mut groups: Vec<Group> = Vec::new();
    let header = row(&["id", "city"]);
    let first = row(&["1", "Foo"]);
    let second = row(&["2", "fOO"]);
    let field = "city".to_string();
    assert!(insert_row(&mut groups, &header, &first, "foo".to_string(), &first[1], &field));
    assert!(!insert_row(&mut groups, &header, &second, "foo".to_string(), &second[1], &field));
    assert_eq!(groups.len(), 1);
    assert_eq!(groups[0].name, "Foo");
    assert_eq!(groups[0].rows, vec![header.clone(), first.clone(), second.clone()]);
}

#[test]
fn insert_row_names_empty_value_after_field() {
    let mut groups: Vec<Group> = Vec::new();
    let header = row(&["id", "city"]);
    let r = row(&["1", ""]);
    assert!(insert_row(&mut groups, &header, &r, String::new(), &r[1], &"city".to_string()));
    let other = row(&["2", "Bonn"]);
    assert!(insert_row(&mut groups, &header, &other, "bonn".to_string(), &other[1], &"city".to_string()));
    assert_eq!(groups[0].name, "Empty_city");
    assert_eq!(groups[1].name, "Bonn");
    assert_eq!(groups.len(), 2);
}
