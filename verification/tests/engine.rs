use std::collections::VecDeque;

use logql::common::EvalErrorKind;
use logql::common::Value;
use logql::common::Variables;
use logql::common::empty_variables;
use logql::common::merge;
use logql::common::value_eq;
use logql::execution::ApproxCountDistinctAggregate;
use logql::execution::AvgAggregate;
use logql::execution::CountAggregate;
use logql::execution::Expression;
use logql::execution::MinAggregate;
use logql::execution::Named;
use logql::execution::NamedAggregate;
use logql::execution::Aggregate;
use logql::execution::Ordering;
use logql::execution::PercentileDiscAggregate;
use logql::execution::Relation;
use logql::execution::SumAggregate;
use logql::execution::compare_values;
use logql::group::GroupByStream;
use logql::order::OrderByStream;
use logql::stream::InMemoryStream;
use logql::stream::Record;
use logql::stream::RecordStream;

fn three_host_records() -> VecDeque<Record> {
    let mut records = VecDeque::new();
    records.push_back(Record::new(
        vec!["host".to_string(), "port".to_string()],
        vec![Value::String("a.com".to_string()), Value::Int(8000)],
    ));
    records.push_back(Record::new(
        vec!["host".to_string(), "port".to_string()],
        vec![Value::String("b.com".to_string()), Value::Int(8001)],
    ));
    records.push_back(Record::new(
        vec!["host".to_string(), "port".to_string()],
        vec![Value::String("a.com".to_string()), Value::Int(8002)],
    ));
    records
}

#[test]
fn merge_prefers_the_right_hand_value() {
    let mut a = Variables::default();
    a.insert("x".to_string(), Value::Int(1));
    a.insert("only_left".to_string(), Value::Int(10));
    let mut b = Variables::default();
    b.insert("x".to_string(), Value::Int(2));

    let merged = merge(a, b);
    assert_eq!(Some(&Value::Int(2)), merged.get(&"x".to_string()));
    assert_eq!(Some(&Value::Int(10)), merged.get(&"only_left".to_string()));
}

#[test]
fn value_equality_is_type_sensitive() {
    assert!(value_eq(&Value::Int(1), &Value::Int(1)));
    assert!(!value_eq(&Value::Int(1), &Value::String("1".to_string())));
    assert!(!value_eq(&Value::Bool(true), &Value::Int(1)));
}

#[test]
fn compare_values_orders_strings_lexicographically() {
    let a = Value::String("abc".to_string());
    let b = Value::String("abd".to_string());
    assert_eq!(Ok(true), compare_values(Relation::LessThan, &a, &b).map_err(|e| e.kind));
    assert_eq!(Ok(false), compare_values(Relation::MoreThan, &a, &b).map_err(|e| e.kind));
    assert_eq!(Ok(true), compare_values(Relation::LessEqual, &a, &a).map_err(|e| e.kind));
}

#[test]
fn compare_values_rejects_mixed_kinds() {
    let err = compare_values(Relation::LessThan, &Value::Int(1), &Value::String("a".to_string()))
        .unwrap_err();
    assert_eq!(EvalErrorKind::TypeMismatch, err.kind);
}

#[test]
fn compare_values_rejects_ordering_booleans() {
    let err = compare_values(Relation::LessThan, &Value::Bool(false), &Value::Bool(true))
        .unwrap_err();
    assert_eq!(EvalErrorKind::TypeMismatch, err.kind);
    assert_eq!(
        Ok(true),
        compare_values(Relation::Equal, &Value::Bool(true), &Value::Bool(true)).map_err(|e| e.kind),
    );
}

#[test]
fn evaluating_an_unbound_variable_is_reported() {
    let expr = Expression::Variable("missing".to_string());
    let err = expr.expression_value(&empty_variables()).unwrap_err();
    assert_eq!(EvalErrorKind::UndefinedVariable, err.kind);
}

#[test]
fn evaluating_a_function_call_is_reported() {
    let expr = Expression::Function("upper".to_string(), vec![]);
    let err = expr.expression_value(&empty_variables()).unwrap_err();
    assert_eq!(EvalErrorKind::UnknownFunction, err.kind);
}

#[test]
fn group_by_counts_rows_per_host() {
    let fields = vec!["host".to_string()];
    let aggregates = vec![NamedAggregate::new(
        Aggregate::Count(CountAggregate::new(), Named::Star),
        Some("count".to_string()),
    )];
    let mut stream = GroupByStream::new(
        fields,
        aggregates,
        Variables::default(),
        InMemoryStream::new(three_host_records()),
    );

    let mut result = Vec::new();
    while let Some(n) = stream.next().unwrap() {
        result.push(n);
    }

    let expected = vec![
        Record::new(
            vec!["host".to_string(), "count".to_string()],
            vec![Value::String("a.com".to_string()), Value::Int(2)],
        ),
        Record::new(
            vec!["host".to_string(), "count".to_string()],
            vec![Value::String("b.com".to_string()), Value::Int(1)],
        ),
    ];
    assert_eq!(expected, result);
}

#[test]
fn group_by_missing_field_is_reported() {
    let mut stream = GroupByStream::new(
        vec!["nope".to_string()],
        vec![],
        Variables::default(),
        InMemoryStream::new(three_host_records()),
    );
    let err = stream.next().unwrap_err();
    assert_eq!(EvalErrorKind::UndefinedVariable, err.kind);
}

#[test]
fn order_by_is_stable_for_equal_keys() {
    let mut records = VecDeque::new();
    records.push_back(Record::new(
        vec!["k".to_string(), "p".to_string()],
        vec![Value::Int(1), Value::Int(100)],
    ));
    records.push_back(Record::new(
        vec!["k".to_string(), "p".to_string()],
        vec![Value::Int(1), Value::Int(200)],
    ));
    records.push_back(Record::new(
        vec!["k".to_string(), "p".to_string()],
        vec![Value::Int(0), Value::Int(300)],
    ));

    let mut stream = OrderByStream::new(
        vec!["k".to_string()],
        vec![Ordering::Asc],
        InMemoryStream::new(records),
    );

    let mut result = Vec::new();
    while let Some(n) = stream.next().unwrap() {
        result.push(n);
    }

    let expected = vec![
        Record::new(
            vec!["k".to_string(), "p".to_string()],
            vec![Value::Int(0), Value::Int(300)],
        ),
        Record::new(
            vec!["k".to_string(), "p".to_string()],
            vec![Value::Int(1), Value::Int(100)],
        ),
        Record::new(
            vec!["k".to_string(), "p".to_string()],
            vec![Value::Int(1), Value::Int(200)],
        ),
    ];
    assert_eq!(expected, result);
}

#[test]
fn order_by_descending_reverses_the_direction() {
    let mut stream = OrderByStream::new(
        vec!["port".to_string()],
        vec![Ordering::Desc],
        InMemoryStream::new(three_host_records()),
    );
    let mut ports = Vec::new();
    while let Some(n) = stream.next().unwrap() {
        ports.push(n.data[1].clone());
    }
    assert_eq!(vec![Value::Int(8002), Value::Int(8001), Value::Int(8000)], ports);
}

#[test]
fn order_by_missing_field_is_reported() {
    let mut stream = OrderByStream::new(
        vec!["nope".to_string()],
        vec![Ordering::Asc],
        InMemoryStream::new(three_host_records()),
    );
    let err = stream.next().unwrap_err();
    assert_eq!(EvalErrorKind::UndefinedVariable, err.kind);
}

#[test]
fn average_truncates_toward_zero() {
    let mut acc = AvgAggregate::new();
    acc.update(&Value::Int(-7)).unwrap();
    acc.update(&Value::Int(0)).unwrap();
    assert_eq!(Value::Int(-3), acc.finalize().unwrap());

    let mut positive = AvgAggregate::new();
    positive.update(&Value::Int(7)).unwrap();
    positive.update(&Value::Int(0)).unwrap();
    assert_eq!(Value::Int(3), positive.finalize().unwrap());
}

#[test]
fn average_of_no_rows_is_reported() {
    let acc = AvgAggregate::new();
    assert_eq!(EvalErrorKind::AggregateDomain, acc.finalize().unwrap_err().kind);
}

#[test]
fn minimum_of_no_rows_is_reported() {
    let acc = MinAggregate::new();
    assert_eq!(EvalErrorKind::AggregateDomain, acc.finalize().unwrap_err().kind);
}

#[test]
fn sum_out_of_range_is_reported() {
    let mut acc = SumAggregate::new();
    acc.update(&Value::Int(i64::MAX)).unwrap();
    let err = acc.update(&Value::Int(1)).unwrap_err();
    assert_eq!(EvalErrorKind::AggregateDomain, err.kind);
    assert_eq!(Value::Int(i64::MAX), acc.finalize().unwrap());
}

#[test]
fn sum_rejects_strings() {
    let mut acc = SumAggregate::new();
    let err = acc.update(&Value::String("a".to_string())).unwrap_err();
    assert_eq!(EvalErrorKind::TypeMismatch, err.kind);
}

#[test]
fn distinct_count_ignores_duplicates() {
    let mut acc = ApproxCountDistinctAggregate::new();
    acc.update(&Value::Int(1)).unwrap();
    acc.update(&Value::Int(2)).unwrap();
    acc.update(&Value::Int(1)).unwrap();
    assert_eq!(Value::Int(2), acc.finalize().unwrap());
}

#[test]
fn percentile_selects_the_middle_rank() {
    let mut acc = PercentileDiscAggregate::new(500_000, Ordering::Asc);
    acc.update(&Value::Int(30)).unwrap();
    acc.update(&Value::Int(10)).unwrap();
    acc.update(&Value::Int(20)).unwrap();
    assert_eq!(Value::Int(20), acc.finalize().unwrap());
}

#[test]
fn percentile_outside_the_unit_interval_is_reported() {
    let mut acc = PercentileDiscAggregate::new(1_000_001, Ordering::Asc);
    acc.update(&Value::Int(1)).unwrap();
    assert_eq!(EvalErrorKind::AggregateDomain, acc.finalize().unwrap_err().kind);
}
