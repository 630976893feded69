use crustydb::common::table::{
    Attribute, Catalog, Constraint, DataType, IndexInfo, TableInfo, TableSchema,
};

fn schema() -> TableSchema {
    TableSchema::from_vecs(
        vec!["a", "b", "c"],
        vec![DataType::BigInt, DataType::String, DataType::Decimal],
    )
}

#[test]
fn schema_from_names_and_types() {
    let s = schema();
    assert_eq!(s.size(), 3);
    assert_eq!(s.get_attribute(1).unwrap().name, "b");
    assert_eq!(s.get_attribute(1).unwrap().dtype, DataType::String);
    assert_eq!(s.get_attribute(1).unwrap().constraint, Constraint::Nothing);
    assert!(s.get_attribute(3).is_none());
    let names: Vec<&str> = s.attributes().map(|a| a.name.as_str()).collect();
    assert_eq!(names, vec!["a", "b", "c"]);
}

#[test]
fn schema_takes_as_many_columns_as_both_lists_have() {
    let s = TableSchema::from_vecs(vec!["a", "b"], vec![DataType::BigInt]);
    assert_eq!(s.size(), 1);
}

#[test]
fn first_field_of_a_name_is_found() {
    let s = schema().merge(&schema());
    assert_eq!(s.get_field_index("b"), Some(1));
    assert_eq!(s.get_field_index("z"), None);
    assert!(s.contains("c"));
    assert!(!s.contains("C"));
}

#[test]
fn primary_keys_are_told() {
    let mut a = Attribute::new("id".to_string(), DataType::BigInt);
    a.constraint = Constraint::PrimaryKey;
    let mut b = Attribute::new("u".to_string(), DataType::BigInt);
    b.constraint = Constraint::Unique;
    let mut c = Attribute::new("id2".to_string(), DataType::BigInt);
    c.constraint = Constraint::PrimaryKey;
    let s = TableSchema::new(vec![a.clone(), b, c.clone()]);
    assert_eq!(s.get_pks(), vec![a, c]);
    assert!(schema().get_pks().is_empty());
}

#[test]
fn merged_schema_has_the_columns_of_both() {
    let other = TableSchema::from_vecs(vec!["d"], vec![DataType::BigInt]);
    let s = schema().merge(&other);
    assert_eq!(s.size(), 4);
    assert_eq!(s.get_attribute(0).unwrap().name, "a");
    assert_eq!(s.get_attribute(3).unwrap().name, "d");
    assert_eq!(schema().merge(&TableSchema::default()), schema());
}

#[test]
fn schema_as_text() {
    assert_eq!(schema().to_text(), "a\tb\tc\t");
    assert_eq!(TableSchema::default().to_text(), "");
}

#[test]
fn catalog_gives_the_indexes_of_a_table() {
    let mut catalog = Catalog::new();
    catalog.add_table(TableInfo::new(1, "t".to_string(), schema()));
    catalog.add_index(IndexInfo::new(10, "i".to_string(), 1, vec![0], true));
    catalog.add_index(IndexInfo::new(11, "j".to_string(), 2, vec![1], false));
    catalog.add_index(IndexInfo::new(12, "k".to_string(), 1, vec![1, 0], false));
    let found: Vec<u16> = catalog.get_indexes_for_table(1).iter().map(|i| i.index_id).collect();
    assert_eq!(found, vec![10, 12]);
    assert!(catalog.get_indexes_for_table(3).is_empty());
    assert_eq!(catalog.tables[0].name, "t");
    assert_eq!(catalog.indexes[2].columns, vec![1, 0]);
}
