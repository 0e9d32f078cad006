use archive_stats::category::CategoryTable;

#[test]
fn empty_table_knows_no_extension() {
    let table = CategoryTable::new();
    assert_eq!(table.category("rs"), "");
    assert_eq!(table.category(""), "");
}

#[test]
fn table_gives_the_category_of_a_listed_extension() {
    let mut table = CategoryTable::new();
    table.insert("rs", "Rust");
    table.insert("txt", "Documentation");
    table.insert("md", "Documentation");
    assert_eq!(table.category("rs"), "Rust");
    assert_eq!(table.category("txt"), "Documentation");
    assert_eq!(table.category("md"), "Documentation");
    assert_eq!(table.category("py"), "");
}

#[test]
fn table_lookup_is_case_sensitive() {
    let mut table = CategoryTable::new();
    table.insert("rs", "Rust");
    assert_eq!(table.category("RS"), "");
    assert_eq!(table.category("Rs"), "");
}

#[test]
fn later_rule_replaces_an_earlier_one() {
    let mut table = CategoryTable::new();
    table.insert("jsx", "Web/Frontend");
    table.insert("h", "C/C++");
    table.insert("jsx", "Java");
    assert_eq!(table.category("jsx"), "Java");
    assert_eq!(table.category("h"), "C/C++");
}

#[test]
fn extension_may_be_listed_as_uncategorized() {
    let mut table = CategoryTable::new();
    table.insert("info", "");
    assert_eq!(table.category("info"), "");
}

fn compiled(entries: &'static [(&'static str, &'static str)]) -> phf::Map<&'static str, &'static str> {
    phf::Map { key: 0, disps: &[], entries }
}

#[test]
fn table_from_a_map_holds_the_pairs_of_the_map() {
    let map = compiled(&[("rs", "Rust"), ("txt", "Documentation"), ("info", ""), ("md", "Documentation")]);
    let table = CategoryTable::from_map(&map);
    assert_eq!(table.category("rs"), "Rust");
    assert_eq!(table.category("txt"), "Documentation");
    assert_eq!(table.category("md"), "Documentation");
    assert_eq!(table.category("info"), "");
    assert_eq!(table.category("py"), "");
    assert_eq!(table.category("RS"), "");
}

#[test]
fn table_from_an_empty_map_knows_no_extension() {
    let table = CategoryTable::from_map(&phf::Map::new());
    assert_eq!(table.category("rs"), "");
}

#[test]
fn table_from_a_map_takes_further_rules() {
    let map = compiled(&[("rs", "Rust")]);
    let mut table = CategoryTable::from_map(&map);
    table.insert("py", "Python");
    table.insert("rs", "Systems");
    assert_eq!(table.category("py"), "Python");
    assert_eq!(table.category("rs"), "Systems");
}
