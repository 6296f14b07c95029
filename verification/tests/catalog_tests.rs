use storage_manager::catalog::{
    create_database, create_table, get_schema, lookup, Catalog, Column,
};
use storage_manager::StorageError;

fn col(name: &str, data_type: &str) -> Column {
    Column {
        name: name.to_string(),
        data_type: data_type.to_string(),
    }
}

#[test]
fn create_database_registers_once() {
    let mut catalog = Catalog::new();
    assert!(create_database(&mut catalog, "shop"));
    assert!(!create_database(&mut catalog, "shop"));
    assert!(!create_database(&mut catalog, ""));
    assert_eq!(catalog.databases.len(), 1);
    assert_eq!(catalog.databases[0].0, "shop");
}

#[test]
fn create_table_requires_existing_database() {
    let mut catalog = Catalog::new();
    assert!(!create_table(&mut catalog, "shop", "users", vec![col("id", "INT")]));
    create_database(&mut catalog, "shop");
    assert!(create_table(&mut catalog, "shop", "users", vec![col("id", "INT")]));
    assert!(!create_table(&mut catalog, "shop", "users", vec![col("id", "INT")]));
    let db = lookup(&catalog.databases, &"shop".to_string()).unwrap();
    assert_eq!(db.tables.len(), 1);
    assert_eq!(db.tables[0].0, "users");
    assert_eq!(db.tables[0].1.columns.len(), 1);
}

#[test]
fn get_schema_resolves_ordered_columns() {
    let mut catalog = Catalog::new();
    create_database(&mut catalog, "shop");
    create_table(
        &mut catalog,
        "shop",
        "users",
        vec![col("id", "INT"), col("name", "TEXT")],
    );
    let cols = get_schema(&catalog, "shop", "users").unwrap();
    assert_eq!(cols.len(), 2);
    assert_eq!(cols[0].name, "id");
    assert_eq!(cols[0].data_type, "INT");
    assert_eq!(cols[1].name, "name");
    assert_eq!(cols[1].data_type, "TEXT");
}

#[test]
fn get_schema_reports_missing_entries() {
    let mut catalog = Catalog::new();
    assert!(matches!(
        get_schema(&catalog, "shop", "users"),
        Err(StorageError::NotFound)
    ));
    create_database(&mut catalog, "shop");
    assert!(matches!(
        get_schema(&catalog, "shop", "users"),
        Err(StorageError::NotFound)
    ));
}
