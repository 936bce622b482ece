use propane_core::{
    diff, diff_table, AColumn, ATable, DeferredSqlType, Error, Operation, SqlType, SqlVal,
    TypeKey, TypeResolver, ADB,
};

fn col(name: &str, ty: SqlType, nullable: bool, pk: bool) -> AColumn {
    AColumn::new(name, DeferredSqlType::Known(ty), nullable, pk, None)
}

fn deferred_col(name: &str, table: &str, pk: bool) -> AColumn {
    AColumn::new(
        name,
        DeferredSqlType::Deferred(TypeKey::PK(table.to_string())),
        false,
        pk,
        None,
    )
}

fn table(name: &str, columns: Vec<AColumn>) -> ATable {
    let mut t = ATable {
        name: name.to_string(),
        columns: Vec::new(),
    };
    for c in columns {
        t.replace_column(c);
    }
    t
}

fn users(with_email: bool) -> ATable {
    let mut cols = vec![
        col("id", SqlType::Int, false, true),
        col("name", SqlType::Text, false, false),
    ];
    if with_email {
        cols.push(col("email", SqlType::Text, false, false));
    }
    table("users", cols)
}

fn posts() -> ATable {
    table(
        "posts",
        vec![
            col("id", SqlType::Int, false, true),
            col("title", SqlType::Text, false, false),
        ],
    )
}

fn db(tables: Vec<ATable>) -> ADB {
    let mut d = ADB::new();
    for t in tables {
        d.replace_table(t);
    }
    d
}

fn known_type(d: &ADB, t: &str, c: &str) -> Result<SqlType, Error> {
    d.get_table(t).unwrap().get_column(c).unwrap().sqltype()
}

#[test]
fn add_column_yields_one_add_column() {
    let old = db(vec![users(false)]);
    let new = db(vec![users(true)]);
    let ops = diff(&old, &new);
    assert_eq!(ops.len(), 1);
    match &ops[0] {
        Operation::AddColumn(t, c) => {
            assert_eq!(t, "users");
            assert_eq!(c.name(), "email");
            assert_eq!(c.sqltype(), Ok(SqlType::Text));
        }
        other => panic!("unexpected {:?}", other),
    }
}

#[test]
fn removed_table_yields_one_remove_table() {
    let old = db(vec![users(false), posts()]);
    let new = db(vec![users(false)]);
    let ops = diff(&old, &new);
    assert_eq!(ops.len(), 1);
    assert!(matches!(&ops[0], Operation::RemoveTable(n) if n == "posts"));
}

#[test]
fn added_table_carries_whole_definition() {
    let old = db(vec![users(false)]);
    let new = db(vec![users(false), posts()]);
    let ops = diff(&old, &new);
    assert_eq!(ops.len(), 1);
    match &ops[0] {
        Operation::AddTable(t) => {
            assert_eq!(t.name, "posts");
            assert_eq!(t.columns.len(), 2);
            assert!(t.get_column("title").is_some());
        }
        other => panic!("unexpected {:?}", other),
    }
}

#[test]
fn nullability_change_yields_change_column() {
    let old = db(vec![table(
        "t",
        vec![col("id", SqlType::Int, false, true), col("age", SqlType::Int, true, false)],
    )]);
    let new = db(vec![table(
        "t",
        vec![col("id", SqlType::Int, false, true), col("age", SqlType::Int, false, false)],
    )]);
    let ops = diff(&old, &new);
    assert_eq!(ops.len(), 1);
    match &ops[0] {
        Operation::ChangeColumn(t, before, after) => {
            assert_eq!(t, "t");
            assert_eq!(before.name(), "age");
            assert!(before.nullable());
            assert!(!after.nullable());
        }
        other => panic!("unexpected {:?}", other),
    }
}

#[test]
fn unchanged_column_yields_nothing() {
    let make = || {
        db(vec![table(
            "t",
            vec![
                col("id", SqlType::Int, false, true),
                AColumn::new(
                    "age",
                    DeferredSqlType::Known(SqlType::Int),
                    true,
                    false,
                    Some(SqlVal::Int(3)),
                ),
            ],
        )])
    };
    assert!(diff(&make(), &make()).is_empty());
}

#[test]
fn type_default_and_pk_changes_are_detected() {
    let old = table(
        "t",
        vec![
            col("id", SqlType::Int, false, true),
            col("a", SqlType::Int, false, false),
            AColumn::new("b", DeferredSqlType::Known(SqlType::Text), false, false, Some(SqlVal::Text("x".to_string()))),
            col("c", SqlType::Int, false, false),
        ],
    );
    let new = table(
        "t",
        vec![
            col("id", SqlType::Int, false, true),
            col("a", SqlType::BigInt, false, false),
            AColumn::new("b", DeferredSqlType::Known(SqlType::Text), false, false, Some(SqlVal::Text("y".to_string()))),
            col("c", SqlType::Int, false, true),
        ],
    );
    let ops = diff_table(&old, &new);
    assert_eq!(ops.len(), 3);
    assert!(ops.iter().all(|o| matches!(o, Operation::ChangeColumn(..))));
}

#[test]
fn column_add_and_remove_within_table() {
    let old = table("t", vec![col("id", SqlType::Int, false, true), col("x", SqlType::Int, false, false)]);
    let new = table("t", vec![col("id", SqlType::Int, false, true), col("y", SqlType::Int, false, false)]);
    let ops = diff_table(&old, &new);
    assert_eq!(ops.len(), 2);
    assert!(matches!(&ops[0], Operation::AddColumn(t, c) if t == "t" && c.name() == "y"));
    assert!(matches!(&ops[1], Operation::RemoveColumn(t, c) if t == "t" && c == "x"));
}

#[test]
fn table_operations_come_before_column_operations() {
    let old = db(vec![users(false), posts()]);
    let new = db(vec![
        users(true),
        table("tags", vec![col("id", SqlType::Int, false, true)]),
    ]);
    let ops = diff(&old, &new);
    assert_eq!(ops.len(), 3);
    assert!(matches!(&ops[0], Operation::AddTable(t) if t.name == "tags"));
    assert!(matches!(&ops[1], Operation::RemoveTable(n) if n == "posts"));
    assert!(matches!(&ops[2], Operation::AddColumn(t, c) if t == "users" && c.name() == "email"));
}

#[test]
fn diff_of_snapshot_with_itself_is_empty() {
    let s = db(vec![users(true), posts()]);
    assert!(diff(&s, &s).is_empty());
    let empty = ADB::new();
    assert!(diff(&empty, &empty).is_empty());
}

#[test]
fn deferred_column_resolves_to_pk_type() {
    let mut d = db(vec![
        table(
            "comments",
            vec![col("id", SqlType::BigInt, false, true), deferred_col("post", "posts", false)],
        ),
        posts(),
    ]);
    assert!(known_type(&d, "comments", "post").is_err());
    assert_eq!(d.resolve_types(), Ok(()));
    assert_eq!(known_type(&d, "comments", "post"), Ok(SqlType::Int));
}

#[test]
fn resolution_follows_chains_in_any_order() {
    let mut d = db(vec![
        table("a", vec![deferred_col("id", "b", true)]),
        table("b", vec![deferred_col("id", "c", true)]),
        table("c", vec![col("id", SqlType::Text, false, true)]),
    ]);
    assert_eq!(d.resolve_types(), Ok(()));
    assert_eq!(known_type(&d, "a", "id"), Ok(SqlType::Text));
    assert_eq!(known_type(&d, "b", "id"), Ok(SqlType::Text));
}

#[test]
fn cyclic_keys_stay_deferred() {
    let mut d = db(vec![
        table("a", vec![deferred_col("id", "b", true)]),
        table("b", vec![deferred_col("id", "a", true)]),
    ]);
    assert_eq!(d.resolve_types(), Ok(()));
    assert_eq!(
        known_type(&d, "a", "id"),
        Err(Error::UnknownSqlType { ty: "PK(b)".to_string() })
    );
    assert!(known_type(&d, "b", "id").is_err());
}

#[test]
fn missing_table_stays_deferred() {
    let mut d = db(vec![table(
        "a",
        vec![col("id", SqlType::Int, false, true), deferred_col("ghost", "nowhere", false)],
    )]);
    assert_eq!(d.resolve_types(), Ok(()));
    assert_eq!(
        known_type(&d, "a", "ghost"),
        Err(Error::UnknownSqlType { ty: "PK(nowhere)".to_string() })
    );
}

#[test]
fn resolving_twice_changes_nothing() {
    let mut d = db(vec![users(true), posts()]);
    assert_eq!(d.resolve_types(), Ok(()));
    let before = d.clone();
    assert_eq!(d.resolve_types(), Ok(()));
    assert!(diff(&before, &d).is_empty());
}

#[test]
fn table_without_pk_fails_resolution() {
    let mut d = db(vec![
        users(false),
        table("loose", vec![deferred_col("u", "users", false)]),
    ]);
    assert_eq!(
        d.resolve_types(),
        Err(Error::NoPK { table: "loose".to_string() })
    );
    assert!(known_type(&d, "loose", "u").is_err());
}

#[test]
fn get_pk_finds_key_or_names_table() {
    let t = users(false);
    assert_eq!(t.get_pk().unwrap().name(), "id");
    let loose = table("loose", vec![col("x", SqlType::Int, false, false)]);
    assert_eq!(loose.get_pk().unwrap_err(), Error::NoPK { table: "loose".to_string() });
}

#[test]
fn replace_and_remove_columns_by_name() {
    let mut t = users(false);
    t.replace_column(col("name", SqlType::Blob, true, false));
    assert_eq!(t.columns.len(), 2);
    let c = t.get_column("name").unwrap();
    assert_eq!(c.sqltype(), Ok(SqlType::Blob));
    assert!(c.nullable());
    t.remove_column("name");
    assert!(t.get_column("name").is_none());
    assert_eq!(t.columns.len(), 1);
    t.remove_column("absent");
    assert_eq!(t.columns.len(), 1);
}

#[test]
fn replace_table_overwrites_same_name() {
    let mut d = db(vec![users(false)]);
    d.replace_table(users(true));
    assert_eq!(d.tables().len(), 1);
    assert!(d.get_table("users").unwrap().get_column("email").is_some());
    assert!(d.get_table("posts").is_none());
}

#[test]
fn column_accessors() {
    let c = AColumn::new(
        "created",
        DeferredSqlType::Known(SqlType::Timestamp),
        true,
        false,
        Some(SqlVal::Timestamp(86400)),
    );
    assert_eq!(c.name(), "created");
    assert!(c.nullable());
    assert!(!c.is_pk());
    assert_eq!(c.sqltype(), Ok(SqlType::Timestamp));
    assert_eq!(c.default(), &Some(SqlVal::Timestamp(86400)));
}

#[test]
fn resolver_keeps_first_type() {
    let mut r = TypeResolver::new();
    let key = TypeKey::PK("users".to_string());
    assert_eq!(r.find_type(&key), None);
    assert!(r.insert_pk("users", SqlType::Int));
    assert!(!r.insert_pk("users", SqlType::Text));
    assert!(!r.insert(TypeKey::PK("users".to_string()), SqlType::Blob));
    assert_eq!(r.find_type(&key), Some(SqlType::Int));
    assert_eq!(
        DeferredSqlType::Deferred(key.clone()).resolve(&r),
        Ok(SqlType::Int)
    );
    assert_eq!(
        DeferredSqlType::Deferred(TypeKey::PK("posts".to_string())).resolve(&r),
        Err(Error::UnknownSqlType { ty: "PK(posts)".to_string() })
    );
    assert_eq!(key.to_string(), "PK(users)");
}

#[test]
fn values_compare_by_content() {
    assert!(SqlVal::Blob(vec![1, 2]).same_value(&SqlVal::Blob(vec![1, 2])));
    assert!(!SqlVal::Blob(vec![1, 2]).same_value(&SqlVal::Blob(vec![1, 3])));
    assert!(!SqlVal::Int(1).same_value(&SqlVal::BigInt(1)));
    assert!(SqlVal::Null.same_value(&SqlVal::Null));
}

#[test]
fn remove_table_by_name() {
    let mut d = db(vec![users(false), posts()]);
    d.remove_table("posts");
    assert!(d.get_table("posts").is_none());
    assert!(d.get_table("users").is_some());
    d.remove_table("absent");
    assert_eq!(d.tables().len(), 1);
}

fn replay(base: &ADB, ops: &[Operation]) -> ADB {
    let mut d = base.clone();
    for op in ops {
        match op {
            Operation::AddTable(t) => d.replace_table(t.clone()),
            Operation::RemoveTable(n) => d.remove_table(n),
            Operation::AddColumn(tn, c) | Operation::ChangeColumn(tn, _, c) => {
                let mut t = d.get_table(tn).unwrap().clone();
                t.replace_column(c.clone());
                d.replace_table(t);
            }
            Operation::RemoveColumn(tn, cn) => {
                let mut t = d.get_table(tn).unwrap().clone();
                t.remove_column(cn);
                d.replace_table(t);
            }
        }
    }
    d
}

#[test]
fn replaying_diff_reaches_new_snapshot() {
    let old = db(vec![
        users(false),
        posts(),
        table(
            "t",
            vec![col("id", SqlType::Int, false, true), col("age", SqlType::Int, true, false)],
        ),
    ]);
    let new = db(vec![
        table("tags", vec![col("id", SqlType::Int, false, true)]),
        table(
            "t",
            vec![col("id", SqlType::Int, false, true), col("age", SqlType::BigInt, false, false)],
        ),
        users(true),
    ]);
    let ops = diff(&old, &new);
    assert_eq!(ops.len(), 4);
    let replayed = replay(&old, &ops);
    assert!(diff(&replayed, &new).is_empty());
    assert!(diff(&new, &replayed).is_empty());
    let age = replayed.get_table("t").unwrap().get_column("age").unwrap();
    assert_eq!(age.sqltype(), Ok(SqlType::BigInt));
    assert!(!age.nullable());
}
