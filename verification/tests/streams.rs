use std::collections::VecDeque;

use logql::common::Value;
use logql::common::Variables;
use logql::execution::Expression;
use logql::execution::Formula;
use logql::execution::Named;
use logql::execution::Relation;
use logql::stream::FilterStream;
use logql::stream::InMemoryStream;
use logql::stream::LimitStream;
use logql::stream::MapStream;
use logql::stream::Record;
use logql::stream::RecordStream;

fn three_host_records() -> VecDeque<Record> {
    let mut records = VecDeque::new();
    records.push_back(Record::new(
        vec!["host".to_string(), "port".to_string()],
        vec![Value::String("example01.com".to_string()), Value::Int(8000)],
    ));
    records.push_back(Record::new(
        vec!["host".to_string(), "port".to_string()],
        vec![Value::String("example.com".to_string()), Value::Int(8001)],
    ));
    records.push_back(Record::new(
        vec!["host".to_string(), "port".to_string()],
        vec![Value::String("example01.com".to_string()), Value::Int(8002)],
    ));
    records
}

#[test]
fn test_filter_stream() {
    let left = Box::new(Expression::Variable("host".to_string()));
    let right = Box::new(Expression::Variable("const".to_string()));
    let rel = Relation::Equal;
    let predicate = Formula::Predicate(rel, left, right);

    let mut variables: Variables = Variables::default();
    variables.insert("const".to_string(), Value::String("example.com".to_string()));

    let records = three_host_records();
    let stream = InMemoryStream::new(records);

    let mut filtered_stream = FilterStream::new(predicate, variables, stream);

    let mut result = Vec::new();
    while let Some(n) = filtered_stream.next().unwrap() {
        result.push(n);
    }

    let expected = vec![Record::new(
        vec!["host".to_string(), "port".to_string()],
        vec![Value::String("example.com".to_string()), Value::Int(8001)],
    )];

    assert_eq!(expected, result);
}

#[test]
fn test_map_stream_with_star() {
    let named_list = vec![Named::Star];

    let mut variables: Variables = Variables::default();
    variables.insert("const".to_string(), Value::String("example.com".to_string()));

    let records = three_host_records();
    let stream = InMemoryStream::new(records);

    let mut filtered_stream = MapStream::new(named_list, variables, stream);

    let mut result = Vec::new();
    while let Some(n) = filtered_stream.next().unwrap() {
        result.push(n);
    }

    let expected = vec![
        Record::new(
            vec!["host".to_string(), "port".to_string()],
            vec![Value::String("example01.com".to_string()), Value::Int(8000)],
        ),
        Record::new(
            vec!["host".to_string(), "port".to_string()],
            vec![Value::String("example.com".to_string()), Value::Int(8001)],
        ),
        Record::new(
            vec!["host".to_string(), "port".to_string()],
            vec![Value::String("example01.com".to_string()), Value::Int(8002)],
        ),
    ];

    assert_eq!(expected, result);
}

#[test]
fn test_map_stream_with_names() {
    let named_list = vec![Named::Expression(
        Expression::Variable("port".to_string()),
        Some("port".to_string()),
    )];

    let mut variables: Variables = Variables::default();
    variables.insert("const".to_string(), Value::String("example.com".to_string()));

    let records = three_host_records();
    let stream = InMemoryStream::new(records);

    let mut filtered_stream = MapStream::new(named_list, variables, stream);

    let mut result = Vec::new();
    while let Some(n) = filtered_stream.next().unwrap() {
        result.push(n);
    }

    let expected = vec![
        Record::new(vec!["port".to_string()], vec![Value::Int(8000)]),
        Record::new(vec!["port".to_string()], vec![Value::Int(8001)]),
        Record::new(vec!["port".to_string()], vec![Value::Int(8002)]),
    ];

    assert_eq!(expected, result);
}

#[test]
fn filter_then_map_projects_matching_ports() {
    let mut records = VecDeque::new();
    records.push_back(Record::new(
        vec!["host".to_string(), "port".to_string()],
        vec![Value::String("a.com".to_string()), Value::Int(8000)],
    ));
    records.push_back(Record::new(
        vec!["host".to_string(), "port".to_string()],
        vec![Value::String("b.com".to_string()), Value::Int(8001)],
    ));
    records.push_back(Record::new(
        vec!["host".to_string(), "port".to_string()],
        vec![Value::String("a.com".to_string()), Value::Int(8002)],
    ));

    let predicate = Formula::Predicate(
        Relation::Equal,
        Box::new(Expression::Variable("host".to_string())),
        Box::new(Expression::Variable("const_000000000".to_string())),
    );
    let mut constants: Variables = Variables::default();
    constants.insert("const_000000000".to_string(), Value::String("a.com".to_string()));

    let filtered = FilterStream::new(predicate, constants, InMemoryStream::new(records));
    let named_list = vec![Named::Expression(
        Expression::Variable("port".to_string()),
        Some("port".to_string()),
    )];
    let mut mapped = MapStream::new(named_list, Variables::default(), filtered);

    let mut result = Vec::new();
    while let Some(n) = mapped.next().unwrap() {
        result.push(n);
    }

    let expected = vec![
        Record::new(vec!["port".to_string()], vec![Value::Int(8000)]),
        Record::new(vec!["port".to_string()], vec![Value::Int(8002)]),
    ];
    assert_eq!(expected, result);
}

#[test]
fn filter_type_mismatch_is_reported() {
    let predicate = Formula::Predicate(
        Relation::LessThan,
        Box::new(Expression::Variable("host".to_string())),
        Box::new(Expression::Variable("port".to_string())),
    );
    let mut stream = FilterStream::new(
        predicate,
        Variables::default(),
        InMemoryStream::new(three_host_records()),
    );
    let err = stream.next().unwrap_err();
    assert_eq!(logql::common::EvalErrorKind::TypeMismatch, err.kind);
}

#[test]
fn filter_undefined_variable_is_reported() {
    let predicate = Formula::Predicate(
        Relation::Equal,
        Box::new(Expression::Variable("missing".to_string())),
        Box::new(Expression::Variable("port".to_string())),
    );
    let mut stream = FilterStream::new(
        predicate,
        Variables::default(),
        InMemoryStream::new(three_host_records()),
    );
    let err = stream.next().unwrap_err();
    assert_eq!(logql::common::EvalErrorKind::UndefinedVariable, err.kind);
}

#[test]
fn limit_zero_yields_no_rows() {
    let mut stream = LimitStream::new(0, InMemoryStream::new(three_host_records()));
    assert_eq!(None, stream.next().unwrap());
    assert_eq!(None, stream.next().unwrap());
}

#[test]
fn limit_beyond_length_yields_all_rows() {
    let mut stream = LimitStream::new(10, InMemoryStream::new(three_host_records()));
    let mut count = 0;
    while let Some(_) = stream.next().unwrap() {
        count += 1;
    }
    assert_eq!(3, count);
}

#[test]
fn limit_caps_the_row_count() {
    let mut stream = LimitStream::new(2, InMemoryStream::new(three_host_records()));
    let mut count = 0;
    while let Some(_) = stream.next().unwrap() {
        count += 1;
    }
    assert_eq!(2, count);
}

#[test]
fn exhausted_stream_stays_exhausted() {
    let mut stream = InMemoryStream::new(VecDeque::new());
    assert_eq!(None, stream.next().unwrap());
    assert_eq!(None, stream.next().unwrap());
}

#[test]
fn record_to_tuples_keeps_declaration_order() {
    let record = Record::new(
        vec!["host".to_string(), "port".to_string()],
        vec![Value::String("a.com".to_string()), Value::Int(8000)],
    );
    let tuples = record.to_tuples();
    assert_eq!(2, tuples.len());
    assert_eq!(("host".to_string(), Value::String("a.com".to_string())), tuples[0]);
    assert_eq!(("port".to_string(), Value::Int(8000)), tuples[1]);
}

#[test]
fn map_eval_error_is_reported_not_swallowed() {
    let named_list = vec![Named::Expression(
        Expression::Variable("missing".to_string()),
        Some("out".to_string()),
    )];
    let mut stream = MapStream::new(
        named_list,
        Variables::default(),
        InMemoryStream::new(three_host_records()),
    );
    let err = stream.next().unwrap_err();
    assert_eq!(logql::common::EvalErrorKind::UndefinedVariable, err.kind);
}
