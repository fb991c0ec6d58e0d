use sheets::{
    Cell, CellAddr, CellValue, Db, Schema, SchemaColumn, SchemaColumnKind, Sheet, SheetContent,
    SheetError, SheetId,
};

fn standard_schema() -> Schema {
    let col = |name: &str, kind| SchemaColumn { name: name.into(), kind };
    Schema {
        columns: vec![
            col("A", SchemaColumnKind::Boolean),
            col("B", SchemaColumnKind::Int),
            col("B2", SchemaColumnKind::Int),
            col("C", SchemaColumnKind::Double),
            col("D", SchemaColumnKind::String),
        ],
    }
}

fn standard_sheet() -> (Db, SheetId) {
    let mut db = Db::new_memory();
    let id = db.new_sheet(&standard_schema()).expect("valid sheet failed");
    (db, id)
}

fn set(
    db: &mut Db,
    id: &SheetId,
    column: &str,
    row: i64,
    value: CellValue,
) -> Result<(), SheetError> {
    db.insert_cell(id, &Cell { column: column.into(), row, value })
}

fn lookup(column: &str, row: i64) -> CellValue {
    CellValue::String(format!("lookup(\"{column}\", {row})"))
}

/// The entries of one column, sorted by row.
fn column_of(content: &SheetContent, name: &str) -> Vec<(i64, Option<CellValue>)> {
    let (_, entries) = content.columns.iter().find(|(n, _)| n == name).expect("column");
    let mut out: Vec<_> = entries.iter().map(|e| (e.row, e.value.clone())).collect();
    out.sort_by_key(|e| e.0);
    out
}

fn names(content: &SheetContent) -> Vec<&str> {
    content.columns.iter().map(|(n, _)| n.as_str()).collect()
}

#[test]
fn test_post_success_simple() {
    let mut db = Db::new_memory();
    assert!(db.new_sheet(&standard_schema()).is_ok());
}

#[test]
fn test_post_schema_with_duplicates() {
    let mut db = Db::new_memory();
    let schema = Schema {
        columns: vec![
            SchemaColumn { name: "A".into(), kind: SchemaColumnKind::String },
            SchemaColumn { name: "A".into(), kind: SchemaColumnKind::Boolean },
        ],
    };
    assert_eq!(db.new_sheet(&schema).unwrap_err(), SheetError::InvalidSchema);
}

#[test]
fn new_sheet_ids_differ() {
    let mut db = Db::new_memory();
    let a = db.new_sheet(&standard_schema()).unwrap();
    let b = db.new_sheet(&standard_schema()).unwrap();
    assert_ne!(a.inner(), b.inner());
    assert!(db.sheet_exists(&a) && db.sheet_exists(&b));
}

#[test]
fn new_sheet_with_taken_id() {
    let mut db = Db::new_memory();
    let id = SheetId::try_from("abCDefGHijklMnOPqrst1234").unwrap();
    assert_eq!(db.new_sheet_with_id(&standard_schema(), &id), Ok(()));
    assert_eq!(
        db.new_sheet_with_id(&standard_schema(), &id),
        Err(SheetError::StorageFailure)
    );
    let bad = Schema {
        columns: vec![SchemaColumn { name: "a\"b".into(), kind: SchemaColumnKind::Int }],
    };
    let other = SheetId::try_from("zzzzzzzzzzzzzzzzzzzzzzzz").unwrap();
    assert_eq!(db.new_sheet_with_id(&bad, &other), Err(SheetError::InvalidSchema));
    assert!(!db.sheet_exists(&other));
}

#[test]
fn test_post_sheetid_simple() {
    let (mut db, id) = standard_sheet();
    assert!(set(&mut db, &id, "B", 5, CellValue::Int(42)).is_ok());
}

#[test]
fn test_post_sheetid_update_cell() {
    let (mut db, id) = standard_sheet();
    assert!(set(&mut db, &id, "B", 5, CellValue::Int(42)).is_ok());
    assert!(set(&mut db, &id, "B", 5, CellValue::Int(43)).is_ok());
    let content = db.get_sheet(&id, false).unwrap();
    assert_eq!(column_of(&content, "B"), vec![(5, Some(CellValue::Int(43)))]);
}

#[test]
fn test_post_sheetid_invalid_type() {
    let (mut db, id) = standard_sheet();
    assert_eq!(set(&mut db, &id, "A", 5, CellValue::Int(42)), Err(SheetError::TypeMismatch));
}

#[test]
fn test_post_sheetid_invalid_column() {
    let (mut db, id) = standard_sheet();
    assert_eq!(
        set(&mut db, &id, "abracadabra", 5, CellValue::Int(42)),
        Err(SheetError::UnknownColumn)
    );
}

#[test]
fn test_post_sheetid_invalid_sheet() {
    let mut db = Db::new_memory();
    let id = SheetId::try_from("abCDefGHijklMnOPqrst1234").unwrap();
    assert_eq!(
        set(&mut db, &id, "abracadabra", 5, CellValue::Int(42)),
        Err(SheetError::SheetNotFound)
    );
    assert_eq!(db.get_sheet(&id, false).unwrap_err(), SheetError::SheetNotFound);
}

#[test]
fn test_post_sheetid_lookup_simple() {
    let (mut db, id) = standard_sheet();
    assert!(set(&mut db, &id, "B", 5, lookup("B", 4)).is_ok());
}

#[test]
fn test_post_sheetid_lookup_self_referential() {
    let (mut db, id) = standard_sheet();
    assert_eq!(set(&mut db, &id, "B", 5, lookup("B", 5)), Err(SheetError::CycleDetected));
}

#[test]
fn test_post_sheetid_lookup_wrong_type() {
    let (mut db, id) = standard_sheet();
    assert_eq!(set(&mut db, &id, "B", 5, lookup("A", 5)), Err(SheetError::TypeMismatch));
}

#[test]
fn lookup_unknown_target_column() {
    let (mut db, id) = standard_sheet();
    assert_eq!(set(&mut db, &id, "B", 5, lookup("Z", 5)), Err(SheetError::UnknownColumn));
}

#[test]
fn test_post_sheetid_same_type_different_col() {
    let (mut db, id) = standard_sheet();
    assert!(set(&mut db, &id, "B", 5, lookup("B2", 4)).is_ok());
}

#[test]
fn test_post_sheetid_lookup_chain() {
    let (mut db, id) = standard_sheet();
    assert!(set(&mut db, &id, "B", 5, lookup("B", 4)).is_ok());
    assert!(set(&mut db, &id, "B", 4, lookup("B", 3)).is_ok());
}

#[test]
fn test_post_sheetid_lookup_cycle2() {
    let (mut db, id) = standard_sheet();
    assert!(set(&mut db, &id, "B", 5, lookup("B", 4)).is_ok());
    let before = db.get_sheet(&id, false).unwrap();
    assert_eq!(set(&mut db, &id, "B", 4, lookup("B", 5)), Err(SheetError::CycleDetected));
    assert_eq!(db.get_sheet(&id, false).unwrap(), before);
}

#[test]
fn test_post_sheetid_lookup_cycle3() {
    let (mut db, id) = standard_sheet();
    assert!(set(&mut db, &id, "B", 5, lookup("B", 4)).is_ok());
    assert!(set(&mut db, &id, "B", 4, lookup("B", 3)).is_ok());
    assert_eq!(set(&mut db, &id, "B", 3, lookup("B", 5)), Err(SheetError::CycleDetected));
}

#[test]
fn test_post_sheetid_update_cell_lookup() {
    let (mut db, id) = standard_sheet();
    assert!(set(&mut db, &id, "B", 5, CellValue::Int(42)).is_ok());
    assert!(set(&mut db, &id, "B", 5, lookup("B", 4)).is_ok());
    // the literal is gone: the chain ends at the empty cell B4
    let content = db.get_sheet(&id, false).unwrap();
    assert_eq!(column_of(&content, "B"), vec![(5, None)]);
}

#[test]
fn test_post_sheetid_update_lookup_cell() {
    let (mut db, id) = standard_sheet();
    assert!(set(&mut db, &id, "B", 5, lookup("B", 4)).is_ok());
    assert!(set(&mut db, &id, "B", 5, CellValue::Int(42)).is_ok());
    // the lookup is gone, so B4 -> B5 closes no cycle
    assert!(set(&mut db, &id, "B", 4, lookup("B", 5)).is_ok());
    let content = db.get_sheet(&id, false).unwrap();
    assert_eq!(
        column_of(&content, "B"),
        vec![(4, Some(CellValue::Int(42))), (5, Some(CellValue::Int(42)))]
    );
}

#[test]
fn test_get_sheetid_lookup_chain() {
    let (mut db, id) = standard_sheet();
    set(&mut db, &id, "B", 5, lookup("B", 4)).unwrap();
    set(&mut db, &id, "B", 4, lookup("B", 3)).unwrap();
    set(&mut db, &id, "B", 3, CellValue::Int(10)).unwrap();
    let content = db.get_sheet(&id, false).unwrap();
    assert_eq!(names(&content), vec!["A", "B", "B2", "C", "D"]);
    assert_eq!(
        column_of(&content, "B"),
        vec![
            (3, Some(CellValue::Int(10))),
            (4, Some(CellValue::Int(10))),
            (5, Some(CellValue::Int(10))),
        ]
    );
    for empty in ["A", "B2", "C", "D"] {
        assert!(column_of(&content, empty).is_empty());
    }
}

#[test]
fn test_get_sheetid_various() {
    let (mut db, id) = standard_sheet();
    set(&mut db, &id, "A", 50, CellValue::Boolean(true)).unwrap();
    set(&mut db, &id, "B", 4, CellValue::Int(0)).unwrap();
    set(&mut db, &id, "C", 3, CellValue::Double((-1.12f64).to_bits())).unwrap();
    set(&mut db, &id, "D", 1, CellValue::String("hello!".into())).unwrap();
    let content = db.get_sheet(&id, false).unwrap();
    assert_eq!(column_of(&content, "A"), vec![(50, Some(CellValue::Boolean(true)))]);
    assert_eq!(column_of(&content, "B"), vec![(4, Some(CellValue::Int(0)))]);
    assert_eq!(column_of(&content, "C"), vec![(3, Some(CellValue::Double((-1.12f64).to_bits())))]);
    assert_eq!(column_of(&content, "D"), vec![(1, Some(CellValue::String("hello!".into())))]);
    assert!(column_of(&content, "B2").is_empty());
}

fn broken_chains(db: &mut Db, id: &SheetId) {
    set(db, id, "A", 50, lookup("A", 51)).unwrap();
    set(db, id, "B", 4, lookup("B", 5)).unwrap();
    set(db, id, "C", 3, lookup("C", 4)).unwrap();
    set(db, id, "D", 1, lookup("D", 2)).unwrap();
}

#[test]
fn test_get_sheetid_with_lookup_nulls() {
    let (mut db, id) = standard_sheet();
    broken_chains(&mut db, &id);
    let content = db.get_sheet(&id, false).unwrap();
    assert_eq!(column_of(&content, "A"), vec![(50, None)]);
    assert_eq!(column_of(&content, "B"), vec![(4, None)]);
    assert_eq!(column_of(&content, "C"), vec![(3, None)]);
    assert_eq!(column_of(&content, "D"), vec![(1, None)]);
    assert!(column_of(&content, "B2").is_empty());
}

#[test]
fn test_get_sheetid_without_lookup_nulls() {
    let (mut db, id) = standard_sheet();
    broken_chains(&mut db, &id);
    let content = db.get_sheet(&id, true).unwrap();
    assert_eq!(names(&content), vec!["A", "B", "B2", "C", "D"]);
    for name in ["A", "B", "B2", "C", "D"] {
        assert!(column_of(&content, name).is_empty());
    }
}

#[test]
fn suppression_keeps_resolved_chains() {
    let (mut db, id) = standard_sheet();
    set(&mut db, &id, "B", 1, lookup("B", 2)).unwrap();
    set(&mut db, &id, "B", 2, CellValue::Int(7)).unwrap();
    set(&mut db, &id, "B", 8, lookup("B", 9)).unwrap();
    let content = db.get_sheet(&id, true).unwrap();
    assert_eq!(
        column_of(&content, "B"),
        vec![(1, Some(CellValue::Int(7))), (2, Some(CellValue::Int(7)))]
    );
}

#[test]
fn idempotent_writes() {
    let (mut db, id) = standard_sheet();
    set(&mut db, &id, "B", 2, CellValue::Int(7)).unwrap();
    set(&mut db, &id, "B", 1, lookup("B", 2)).unwrap();
    let once = db.get_sheet(&id, false).unwrap();
    set(&mut db, &id, "B", 1, lookup("B", 2)).unwrap();
    assert_eq!(db.get_sheet(&id, false).unwrap(), once);
    set(&mut db, &id, "B", 2, CellValue::Int(7)).unwrap();
    assert_eq!(db.get_sheet(&id, false).unwrap(), once);
    assert_eq!(set(&mut db, &id, "A", 2, CellValue::Int(7)), Err(SheetError::TypeMismatch));
    assert_eq!(set(&mut db, &id, "A", 2, CellValue::Int(7)), Err(SheetError::TypeMismatch));
    assert_eq!(db.get_sheet(&id, false).unwrap(), once);
}

#[test]
fn round_trip_literal() {
    let (mut db, id) = standard_sheet();
    set(&mut db, &id, "D", -3, CellValue::String("lookup(B, 1)".into())).unwrap();
    set(&mut db, &id, "B", i64::MIN, CellValue::Int(i64::MAX)).unwrap();
    let content = db.get_sheet(&id, false).unwrap();
    assert_eq!(
        column_of(&content, "D"),
        vec![(-3, Some(CellValue::String("lookup(B, 1)".into())))]
    );
    assert_eq!(column_of(&content, "B"), vec![(i64::MIN, Some(CellValue::Int(i64::MAX)))]);
}

#[test]
fn scenario_type_mismatch_keeps_value() {
    let (mut db, id) = standard_sheet();
    set(&mut db, &id, "B", 0, CellValue::Int(42)).unwrap();
    assert_eq!(
        set(&mut db, &id, "B", 0, CellValue::String("text".into())),
        Err(SheetError::TypeMismatch)
    );
    let content = db.get_sheet(&id, false).unwrap();
    assert_eq!(column_of(&content, "B"), vec![(0, Some(CellValue::Int(42)))]);
}

#[test]
fn cross_column_chain_with_branches() {
    let (mut db, id) = standard_sheet();
    set(&mut db, &id, "B", 1, lookup("B2", 1)).unwrap();
    set(&mut db, &id, "B2", 1, lookup("B", 2)).unwrap();
    set(&mut db, &id, "B2", 7, lookup("B2", 1)).unwrap();
    set(&mut db, &id, "B", 2, CellValue::Int(5)).unwrap();
    assert_eq!(set(&mut db, &id, "B", 2, lookup("B2", 7)), Err(SheetError::CycleDetected));
    let content = db.get_sheet(&id, false).unwrap();
    assert_eq!(
        column_of(&content, "B"),
        vec![(1, Some(CellValue::Int(5))), (2, Some(CellValue::Int(5)))]
    );
    assert_eq!(
        column_of(&content, "B2"),
        vec![(1, Some(CellValue::Int(5))), (7, Some(CellValue::Int(5)))]
    );
}

#[test]
fn sheet_level_operations() {
    let mut sheet = Sheet::new(&standard_schema());
    assert_eq!(sheet.column_by_name(&"B2".to_string()), Some((2, SchemaColumnKind::Int)));
    assert_eq!(sheet.column_by_name(&"E".to_string()), None);
    let b = |row| CellAddr { col: 1, row };
    let write = |sheet: &mut Sheet, row, value| {
        sheet.set_cell(&Cell { column: "B".into(), row, value })
    };
    write(&mut sheet, 1, lookup("B", 2)).unwrap();
    write(&mut sheet, 2, lookup("B", 3)).unwrap();
    assert!(sheet.detect_cycle(b(3), b(1)));
    assert!(sheet.detect_cycle(b(1), b(1)));
    assert!(!sheet.detect_cycle(b(1), b(3)));
    assert!(!sheet.detect_cycle(b(4), b(1)));
    write(&mut sheet, 3, CellValue::Int(-9)).unwrap();
    let content = sheet.content(false);
    assert_eq!(
        column_of(&content, "B"),
        vec![
            (1, Some(CellValue::Int(-9))),
            (2, Some(CellValue::Int(-9))),
            (3, Some(CellValue::Int(-9))),
        ]
    );
}

#[test]
fn lookup_to_negative_row() {
    let (mut db, id) = standard_sheet();
    set(&mut db, &id, "B", -1, CellValue::Int(3)).unwrap();
    set(&mut db, &id, "B", 0, lookup("B", -1)).unwrap();
    assert_eq!(set(&mut db, &id, "B", -1, lookup("B", 0)), Err(SheetError::CycleDetected));
    let content = db.get_sheet(&id, false).unwrap();
    assert_eq!(
        column_of(&content, "B"),
        vec![(-1, Some(CellValue::Int(3))), (0, Some(CellValue::Int(3)))]
    );
}

#[test]
fn first_sheet_always_provisioned() {
    let mut db = Db::new_memory();
    let id = db.new_sheet(&standard_schema()).unwrap();
    assert!(db.sheet_exists(&id));
    assert!(SheetId::try_from(id.inner()).is_ok());
}
