use merged_reader::error::MergeError;
use merged_reader::schema::{column_plan, find_field, unify_schemas, FieldDef};

fn field(name: &str, data_type: &str, nullable: bool) -> FieldDef {
    FieldDef { name: name.to_string(), data_type: data_type.to_string(), nullable }
}

fn summary(fields: &[FieldDef]) -> Vec<(String, String, bool)> {
    fields.iter().map(|f| (f.name.clone(), f.data_type.clone(), f.nullable)).collect()
}

fn ts() -> FieldDef {
    field("ts", "Timestamp(Millisecond, None)", false)
}

#[test]
fn superset_schema_and_null_filled_column() {
    let a = vec![ts(), field("level", "Utf8", false)];
    let b = vec![ts(), field("level", "Utf8", false), field("host", "Utf8", false)];
    let u = unify_schemas(&vec![a, b]).unwrap();
    assert_eq!(
        summary(&u),
        vec![
            ("ts".to_string(), "Timestamp(Millisecond, None)".to_string(), false),
            ("level".to_string(), "Utf8".to_string(), false),
            ("host".to_string(), "Utf8".to_string(), true),
        ]
    );
    let a_again = vec![ts(), field("level", "Utf8", false)];
    assert_eq!(column_plan(&u, &a_again), vec![Some(0), Some(1), None]);
}

#[test]
fn conflicting_types_are_refused() {
    let a = vec![ts(), field("level", "Utf8", true)];
    let b = vec![ts(), field("level", "Int64", true)];
    assert_eq!(unify_schemas(&vec![a, b]).unwrap_err(), MergeError::SchemaConflict);
}

#[test]
fn fields_in_first_appearance_order() {
    let a = vec![field("x", "Int64", false), ts()];
    let b = vec![field("y", "Int64", false), ts(), field("x", "Int64", false)];
    let u = unify_schemas(&vec![a, b]).unwrap();
    let names: Vec<String> = u.iter().map(|f| f.name.clone()).collect();
    assert_eq!(names, vec!["x".to_string(), "ts".to_string(), "y".to_string()]);
    assert!(!u[1].nullable);
    assert!(!u[0].nullable);
    assert!(u[2].nullable);
}

#[test]
fn nullable_if_any_declaration_is() {
    let a = vec![ts(), field("v", "Int64", false)];
    let b = vec![ts(), field("v", "Int64", true)];
    let u = unify_schemas(&vec![a, b]).unwrap();
    assert!(u[1].nullable);
    assert!(!u[0].nullable);
}

#[test]
fn zero_schemas_unify_to_empty() {
    let u = unify_schemas(&vec![]).unwrap();
    assert!(u.is_empty());
}

#[test]
fn single_schema_is_its_own_unified_schema() {
    let a = vec![ts(), field("level", "Utf8", false), field("n", "Int32", true)];
    let u = unify_schemas(&vec![a]).unwrap();
    assert_eq!(
        summary(&u),
        vec![
            ("ts".to_string(), "Timestamp(Millisecond, None)".to_string(), false),
            ("level".to_string(), "Utf8".to_string(), false),
            ("n".to_string(), "Int32".to_string(), true),
        ]
    );
    let a_again = vec![ts(), field("level", "Utf8", false), field("n", "Int32", true)];
    assert_eq!(column_plan(&u, &a_again), vec![Some(0), Some(1), Some(2)]);
}

#[test]
fn plan_follows_reordered_columns() {
    let target = vec![ts(), field("a", "Int64", true), field("b", "Utf8", true)];
    let local = vec![field("b", "Utf8", true), ts()];
    assert_eq!(column_plan(&target, &local), vec![Some(1), None, Some(0)]);
}

#[test]
fn find_field_gives_first_match() {
    let fields = vec![field("a", "Int64", true), field("b", "Utf8", true), field("a", "Int64", true)];
    assert_eq!(find_field(&fields, &"a".to_string()), Some(0));
    assert_eq!(find_field(&fields, &"b".to_string()), Some(1));
    assert_eq!(find_field(&fields, &"c".to_string()), None);
}
