use sheets::lookup_syntax::parse_lookup;
use sheets::{
    CellValue, LookupCellValue, Schema, SchemaColumn, SchemaColumnKind, SheetId, SheetIdError,
};

fn column(name: &str, kind: SchemaColumnKind) -> SchemaColumn {
    SchemaColumn { name: name.into(), kind }
}

fn standard_schema() -> Schema {
    Schema {
        columns: vec![
            column("A", SchemaColumnKind::Boolean),
            column("B", SchemaColumnKind::Int),
            column("B2", SchemaColumnKind::Int),
            column("C", SchemaColumnKind::Double),
            column("D", SchemaColumnKind::String),
        ],
    }
}

#[test]
fn sheet_id_valid_try_from() {
    let str = "abCDefGHijklMnOPqrst1234";
    let sheet_id = SheetId::try_from(str).unwrap();
    assert_eq!(sheet_id.inner(), str)
}

#[test]
#[should_panic]
fn sheet_id_invalid_try_from_length() {
    let _ = SheetId::try_from("invalidlength").unwrap();
}

#[test]
#[should_panic]
fn sheet_id_invalid_try_from_content() {
    let _ = SheetId::try_from("invalid characters!zzzzz").unwrap();
}

#[test]
fn sheet_id_error_kinds() {
    assert_eq!(SheetId::try_from("invalidlength").unwrap_err(), SheetIdError::InvalidLength);
    assert_eq!(SheetId::try_from("").unwrap_err(), SheetIdError::InvalidLength);
    assert_eq!(
        SheetId::try_from("invalid characters!zzzzz").unwrap_err(),
        SheetIdError::InvalidContent
    );
    assert_eq!(
        SheetId::try_from("abCDefGHijklMnOPqrst123\u{e9}").unwrap_err(),
        SheetIdError::InvalidContent
    );
}

#[test]
fn sheet_id_generate_shape() {
    let a = SheetId::generate();
    let b = SheetId::generate();
    assert_eq!(a.inner().chars().count(), 24);
    assert!(a.inner().chars().all(|c| c.is_ascii_alphanumeric()));
    assert!(SheetId::try_from(a.inner()).is_ok());
    assert_ne!(a.inner(), b.inner());
}

#[test]
fn valid_schema() {
    assert!(standard_schema().is_valid());
}

#[test]
fn empty_schema_is_valid() {
    assert!(Schema { columns: vec![] }.is_valid());
}

#[test]
fn invalid_schema_duplicate() {
    let mut schema = standard_schema();
    schema.columns[1].name = "A".into();
    assert!(!schema.is_valid());
}

#[test]
fn invalid_schema_quotes() {
    let mut schema = standard_schema();
    schema.columns[0].name = r#""quotes""#.into();
    assert!(!schema.is_valid());
}

#[test]
fn valid_lookup() {
    let val = CellValue::String(r#"lookup("hello", 5)"#.into());
    assert_eq!(
        val.is_lookup(),
        Some(LookupCellValue {
            target_col: "hello".into(),
            target_row: 5
        })
    )
}

#[test]
fn invalid_lookup() {
    let val = CellValue::String(r#"yo"#.into());
    assert!(val.is_lookup().is_none())
}

#[test]
fn lookup_spacing() {
    let val = CellValue::String("lookup( \"B 2\"\t,\n 0042 )".into());
    assert_eq!(
        val.is_lookup(),
        Some(LookupCellValue { target_col: "B 2".into(), target_row: 42 })
    );
    let val = CellValue::String("lookup(\u{3000}\"x\",\u{a0}7)".into());
    assert_eq!(val.is_lookup(), Some(LookupCellValue { target_col: "x".into(), target_row: 7 }));
}

#[test]
fn lookup_rejected_forms() {
    for text in [
        r#"lookup ("B", 4)"#,
        r#"lookup("", 4)"#,
        r#"lookup("B", - 4)"#,
        r#"lookup("B", -)"#,
        r#"lookup("B", --4)"#,
        r#"lookup("B", +4)"#,
        r#"lookup("B", -9223372036854775809)"#,
        r#"lookup("B", 4) "#,
        r#"lookup("B" 4)"#,
        r#"lookup("B", )"#,
        r#"lookup('B', 4)"#,
        r#"blahlookup("B", 50)"#,
        r#"lookup("B", 9223372036854775808)"#,
        r#"lookup("B", 4"#,
    ] {
        assert!(CellValue::String(text.into()).is_lookup().is_none(), "{text}");
    }
    assert!(CellValue::Int(4).is_lookup().is_none());
}

#[test]
fn lookup_negative_rows() {
    let val = CellValue::String(r#"lookup("B", -4)"#.into());
    assert_eq!(val.is_lookup(), Some(LookupCellValue { target_col: "B".into(), target_row: -4 }));
    assert_eq!(
        parse_lookup(r#"lookup( "B" ,  -0012 )"#),
        Some(("B".to_string(), -12))
    );
    assert_eq!(parse_lookup(r#"lookup("B", -0)"#), Some(("B".to_string(), 0)));
    assert_eq!(
        parse_lookup(r#"lookup("B", -9223372036854775808)"#),
        Some(("B".to_string(), i64::MIN))
    );
}

#[test]
fn lookup_largest_row() {
    assert_eq!(
        parse_lookup(r#"lookup("B", 9223372036854775807)"#),
        Some(("B".to_string(), i64::MAX))
    );
}

#[test]
fn sql_text_round_trip() {
    for kind in [
        SchemaColumnKind::Boolean,
        SchemaColumnKind::Int,
        SchemaColumnKind::Double,
        SchemaColumnKind::String,
    ] {
        assert_eq!(SchemaColumnKind::from_sql_text(kind.get_sql_text()), Some(kind));
    }
    assert_eq!(SchemaColumnKind::Int.get_sql_text(), "INTEGER");
    assert_eq!(SchemaColumnKind::Double.get_sql_text(), "REAL");
    assert_eq!(SchemaColumnKind::from_sql_text("BOOLEAN"), Some(SchemaColumnKind::Boolean));
    assert_eq!(SchemaColumnKind::from_sql_text("TEXT"), Some(SchemaColumnKind::String));
    assert_eq!(SchemaColumnKind::from_sql_text("integer"), None);
}

#[test]
fn kind_of_value() {
    assert_eq!(SchemaColumnKind::from(&CellValue::Boolean(true)), SchemaColumnKind::Boolean);
    assert_eq!(SchemaColumnKind::from(&CellValue::Int(1)), SchemaColumnKind::Int);
    assert_eq!(
        SchemaColumnKind::from(&CellValue::Double(1.5f64.to_bits())),
        SchemaColumnKind::Double
    );
    assert_eq!(SchemaColumnKind::from(&CellValue::String("x".into())), SchemaColumnKind::String);
}
