use std::collections::BTreeMap;
use systems_lab::query::{Row, Statement, Table};
use systems_lab::statement::parse_statement;

#[test]
fn parser_accepts_insert_select_and_scan() {
    assert_eq!(
        parse_statement("insert 42 'meaning'").expect("insert parses"),
        Statement::Insert { id: 42, value: "meaning".to_string() }
    );
    assert_eq!(parse_statement("select 42;").expect("select parses"), Statement::Select { id: 42 });
    assert_eq!(parse_statement("scan 10..20").expect("scan parses"), Statement::Scan { start: 10, end: 20 });
}

#[test]
fn index_splits_leaves_and_preserves_ordered_range_scan() {
    let mut table = Table::new();
    for id in [9, 1, 5, 3, 7, 2, 8] {
        table.execute(Statement::Insert { id, value: format!("row-{id}") }).expect("insert succeeds");
    }

    assert!(table.index.leaves.len() > 1);
    let rows = table.execute(Statement::Scan { start: 2, end: 7 }).expect("scan succeeds");
    let ids = rows.into_iter().map(|row| row.id).collect::<Vec<_>>();
    assert_eq!(ids, vec![2, 3, 5, 7]);
}

#[test]
fn select_uses_primary_key_lookup() {
    let mut table = Table::new();
    table.execute(Statement::Insert { id: 12, value: "alpha".to_string() }).expect("insert succeeds");

    let rows = table.execute(Statement::Select { id: 12 }).expect("select succeeds");
    assert_eq!(rows, vec![Row { id: 12, value: "alpha".to_string() }]);
    assert!(table.execute(Statement::Select { id: 99 }).expect("select succeeds").is_empty());
}

#[test]
fn duplicate_primary_keys_are_rejected() {
    let mut table = Table::new();
    table.execute(Statement::Insert { id: 1, value: "first".to_string() }).expect("insert succeeds");

    let error = table
        .execute(Statement::Insert { id: 1, value: "second".to_string() })
        .expect_err("duplicate key should fail");

    assert!(error.message().contains("duplicate primary key"));
    assert_eq!(table.arena.rows.len(), 1);
}

#[test]
fn table_behaves_as_one_map_of_ids_to_values() {
    let mut table = Table::new();
    let mut model: BTreeMap<u64, String> = BTreeMap::new();
    let ids = [7u64, 3, 11, 3, 1, 20, 15, 9, 7, 2, 30, 25, 4];
    for (n, id) in ids.iter().enumerate() {
        let value = format!("v{n}");
        let result = table.execute(Statement::Insert { id: *id, value: value.clone() });
        if model.contains_key(id) {
            assert!(result.is_err());
        } else {
            assert_eq!(result.unwrap(), vec![Row { id: *id, value: value.clone() }]);
            model.insert(*id, value);
        }
    }
    for id in 0..35u64 {
        let rows = table.execute(Statement::Select { id }).unwrap();
        let expected: Vec<Row> = model.get(&id).map(|v| Row { id, value: v.clone() }).into_iter().collect();
        assert_eq!(rows, expected);
    }
    for (start, end) in [(0u64, 40u64), (3, 11), (12, 14), (20, 5), (25, 25)] {
        let rows = table.execute(Statement::Scan { start, end }).unwrap();
        let expected: Vec<Row> = if start > end {
            Vec::new()
        } else {
            model.range(start..=end).map(|(k, v)| Row { id: *k, value: v.clone() }).collect()
        };
        assert_eq!(rows, expected);
    }
}
