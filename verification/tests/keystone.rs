//! Tallying recorded outcomes from Keystone query results.

use augur::keystone::{tally_outcomes, FeedbackTable, MemoryTable, Order, QueryBuilder, QueryResult, RelationalPriorData, Row, Table};

fn row(a: &str, b: &[u8]) -> Row {
    Row::new(vec!["model_id".to_string(), "outcome".to_string()], vec![Some(a.as_bytes().to_vec()), Some(b.to_vec())])
}

fn feedback_result() -> QueryResult {
    QueryResult::new(
        vec!["model_id".into(), "outcome".into()],
        vec![row("m", b"success"), row("m", b"success"), row("m", b"failure")],
        None,
    )
}

#[test]
fn record_outcomes_tallies_text_outcomes() {
    let res = feedback_result();
    let data = tally_outcomes(&res);
    assert_eq!(data.successes, 2);
    assert_eq!(data.failures, 1);
}

#[test]
fn integer_outcomes_count_as_success_and_failure() {
    let res = QueryResult::new(
        vec!["model_id".into(), "outcome".into()],
        vec![row("m", b"1"), row("m", b"+01"), row("m", b"0"), row("m", b"-0"), row("m", b"-1"), row("m", b"2"), row("m", b"1.0"), row("m", b"maybe")],
        None,
    );
    assert_eq!(tally_outcomes(&res), RelationalPriorData { successes: 2, failures: 2 });
}

#[test]
fn missing_cells_and_columns_are_skipped() {
    let no_outcome = Row::new(vec!["x".to_string()], vec![Some(b"success".to_vec())]);
    let null_cell = Row::new(vec!["model_id".to_string(), "outcome".to_string()], vec![Some(b"m".to_vec()), None]);
    let res = QueryResult::new(vec![], vec![no_outcome, null_cell], None);
    // Without an `outcome` column the first column is read.
    assert_eq!(tally_outcomes(&res), RelationalPriorData { successes: 1, failures: 0 });
}

#[test]
fn query_builder_renders_sql_and_parameters() {
    let (sql, params) = QueryBuilder::<FeedbackTable, String>::new().filter_eq("model_id", "m".to_string()).build();
    assert_eq!(sql, "SELECT * FROM augur_feedback WHERE model_id = $1");
    assert_eq!(params, vec!["m".to_string()]);
    let (sql, params) = QueryBuilder::<MemoryTable, i64>::new()
        .filter_eq("strategy_id", 7)
        .filter_eq("kind", 2)
        .order_by("similarity", Order::Desc)
        .limit(100)
        .build();
    assert_eq!(sql, "SELECT * FROM augur_memories WHERE strategy_id = $1 AND kind = $2 ORDER BY similarity DESC LIMIT 100");
    assert_eq!(params, vec![7, 2]);
}

#[test]
fn tables_name_their_columns() {
    assert_eq!(FeedbackTable::name(), "augur_feedback");
    assert_eq!(FeedbackTable::columns(), vec!["model_id", "outcome"]);
    assert_eq!(MemoryTable::name(), "augur_memories");
    assert_eq!(MemoryTable::columns(), vec!["strategy_id", "similarity"]);
}
