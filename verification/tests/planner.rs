use logql::common::DataSource;
use logql::common::Value;
use logql::common::Variables;
use logql::execution;
use logql::logical::Aggregate;
use logql::logical::Expression;
use logql::logical::Formula;
use logql::logical::LogicInfixOp;
use logql::logical::Named;
use logql::logical::NamedAggregate;
use logql::logical::Node;
use logql::logical::PhysicalPlanCreator;
use logql::logical::Relation;

#[test]
fn test_relation_gen_physical() {
    let rel = Relation::Equal;
    let ans = rel.physical().unwrap();
    let expected = execution::Relation::Equal;

    assert_eq!(expected, ans);
}

#[test]
fn test_formula_gen_physical() {
    let formula = Formula::InfixOperator(
        LogicInfixOp::And,
        Box::new(Formula::Constant(true)),
        Box::new(Formula::Constant(false)),
    );
    let mut physical_plan_creator = PhysicalPlanCreator::new(DataSource::Stdin);
    let (physical_formula, variables) = formula.physical(&mut physical_plan_creator).unwrap();
    let expected_formula = execution::Formula::And(
        Box::new(execution::Formula::Constant(true)),
        Box::new(execution::Formula::Constant(false)),
    );

    let expected_variables = Variables::default();

    assert_eq!(expected_formula, *physical_formula);
    assert_eq!(expected_variables, variables);
}

#[test]
fn test_expression_gen_physical() {
    let expr = Expression::Constant(Value::Int(1));
    let mut physical_plan_creator = PhysicalPlanCreator::new(DataSource::Stdin);
    let (physical_expr, variables) = expr.physical(&mut physical_plan_creator).unwrap();
    let expected_formula = execution::Expression::Variable("const_000000000".to_string());

    let mut expected_variables = Variables::default();
    expected_variables.insert("const_000000000".to_string(), Value::Int(1));
    assert_eq!(expected_formula, *physical_expr);
    assert_eq!(expected_variables, variables);
}

#[test]
fn test_filter_with_map_gen_physical() {
    let filtered_formula = Formula::Predicate(
        Relation::Equal,
        Box::new(Expression::Variable("a".to_string())),
        Box::new(Expression::Constant(Value::Int(1))),
    );

    let filter = Node::Filter(
        Box::new(filtered_formula),
        Box::new(Node::Project(
            vec![
                Named::Expression(Expression::Variable("a".to_string()), Some("a".to_string())),
                Named::Expression(Expression::Variable("b".to_string()), Some("b".to_string())),
            ],
            Box::new(Node::DataSource(DataSource::Stdin, "elb".to_string())),
        )),
    );

    let mut physical_plan_creator = PhysicalPlanCreator::new(DataSource::Stdin);
    let (physical_formula, variables) = filter.physical(&mut physical_plan_creator).unwrap();

    let expected_filtered_formula = execution::Formula::Predicate(
        execution::Relation::Equal,
        Box::new(execution::Expression::Variable("a".to_string())),
        Box::new(execution::Expression::Variable("const_000000000".to_string())),
    );

    let expected_source = execution::Node::Project(
        vec![
            execution::Named::Expression(
                execution::Expression::Variable("a".to_string()),
                Some("a".to_string()),
            ),
            execution::Named::Expression(
                execution::Expression::Variable("b".to_string()),
                Some("b".to_string()),
            ),
        ],
        Box::new(execution::Node::DataSource(DataSource::Stdin, "elb".to_string())),
    );

    let expected_filter =
        execution::Node::Filter(Box::new(expected_source), Box::new(expected_filtered_formula));

    let mut expected_variables = Variables::default();
    expected_variables.insert("const_000000000".to_string(), Value::Int(1));

    assert_eq!(expected_filter, *physical_formula);
    assert_eq!(expected_variables, variables);
}

#[test]
fn test_group_by_gen_physical() {
    let filtered_formula = Formula::Predicate(
        Relation::Equal,
        Box::new(Expression::Variable("a".to_string())),
        Box::new(Expression::Constant(Value::Int(1))),
    );

    let filter = Node::Filter(
        Box::new(filtered_formula),
        Box::new(Node::Project(
            vec![
                Named::Expression(Expression::Variable("a".to_string()), Some("a".to_string())),
                Named::Expression(Expression::Variable("b".to_string()), Some("b".to_string())),
            ],
            Box::new(Node::DataSource(DataSource::Stdin, "elb".to_string())),
        )),
    );

    let named_aggregates = vec![
        NamedAggregate::new(
            Aggregate::Avg(Named::Expression(
                Expression::Variable("a".to_string()),
                Some("a".to_string()),
            )),
            None,
        ),
        NamedAggregate::new(
            Aggregate::Count(Named::Expression(
                Expression::Variable("b".to_string()),
                Some("b".to_string()),
            )),
            None,
        ),
    ];

    let fields = vec!["b".to_string()];
    let group_by = Node::GroupBy(fields, named_aggregates, Box::new(filter));

    let mut physical_plan_creator = PhysicalPlanCreator::new(DataSource::Stdin);
    let (physical_formula, variables) = group_by.physical(&mut physical_plan_creator).unwrap();

    let expected_filtered_formula = execution::Formula::Predicate(
        execution::Relation::Equal,
        Box::new(execution::Expression::Variable("a".to_string())),
        Box::new(execution::Expression::Variable("const_000000000".to_string())),
    );

    let expected_source = execution::Node::Project(
        vec![
            execution::Named::Expression(
                execution::Expression::Variable("a".to_string()),
                Some("a".to_string()),
            ),
            execution::Named::Expression(
                execution::Expression::Variable("b".to_string()),
                Some("b".to_string()),
            ),
        ],
        Box::new(execution::Node::DataSource(DataSource::Stdin, "elb".to_string())),
    );

    let expected_filter =
        execution::Node::Filter(Box::new(expected_source), Box::new(expected_filtered_formula));
    let expected_group_by = execution::Node::GroupBy(
        vec!["b".to_string()],
        vec![
            execution::NamedAggregate::new(
                execution::Aggregate::Avg(
                    execution::AvgAggregate::new(),
                    execution::Named::Expression(
                        execution::Expression::Variable("a".to_string()),
                        Some("a".to_string()),
                    ),
                ),
                None,
            ),
            execution::NamedAggregate::new(
                execution::Aggregate::Count(
                    execution::CountAggregate::new(),
                    execution::Named::Expression(
                        execution::Expression::Variable("b".to_string()),
                        Some("b".to_string()),
                    ),
                ),
                None,
            ),
        ],
        Box::new(expected_filter),
    );

    let mut expected_variables = Variables::default();
    expected_variables.insert("const_000000000".to_string(), Value::Int(1));

    assert_eq!(expected_group_by, *physical_formula);
    assert_eq!(expected_variables, variables);
}

#[test]
fn lowering_same_plan_twice_is_identical() {
    let plan = Node::Filter(
        Box::new(Formula::Predicate(
            Relation::MoreThan,
            Box::new(Expression::Variable("port".to_string())),
            Box::new(Expression::Constant(Value::Int(8000))),
        )),
        Box::new(Node::DataSource(DataSource::Stdin, "elb".to_string())),
    );

    let mut first_creator = PhysicalPlanCreator::new(DataSource::Stdin);
    let first = plan.physical(&mut first_creator).unwrap();
    let mut second_creator = PhysicalPlanCreator::new(DataSource::Stdin);
    let second = plan.physical(&mut second_creator).unwrap();

    assert_eq!(first.0, second.0);
    assert_eq!(first.1, second.1);
    assert_eq!(first_creator, second_creator);
}

#[test]
fn constants_are_hoisted_in_depth_first_order() {
    let formula = Formula::Predicate(
        Relation::NotEqual,
        Box::new(Expression::Constant(Value::String("left".to_string()))),
        Box::new(Expression::Constant(Value::Int(2))),
    );
    let mut creator = PhysicalPlanCreator::new(DataSource::Stdin);
    let (physical_formula, variables) = formula.physical(&mut creator).unwrap();

    let expected_formula = execution::Formula::Predicate(
        execution::Relation::NotEqual,
        Box::new(execution::Expression::Variable("const_000000000".to_string())),
        Box::new(execution::Expression::Variable("const_000000001".to_string())),
    );
    assert_eq!(expected_formula, *physical_formula);
    assert_eq!(
        Some(&Value::String("left".to_string())),
        variables.get(&"const_000000000".to_string())
    );
    assert_eq!(Some(&Value::Int(2)), variables.get(&"const_000000001".to_string()));
    assert_eq!(2, variables.len());
}

#[test]
fn ordering_and_limit_lower_unchanged() {
    let plan = Node::Limit(
        3,
        Box::new(Node::OrderBy(
            vec!["port".to_string()],
            vec![logql::logical::Ordering::Desc],
            Box::new(Node::DataSource(DataSource::File("access.log".to_string()), "elb".to_string())),
        )),
    );
    let mut creator = PhysicalPlanCreator::new(DataSource::Stdin);
    let (physical_plan, variables) = plan.physical(&mut creator).unwrap();

    let expected = execution::Node::Limit(
        3,
        Box::new(execution::Node::OrderBy(
            vec!["port".to_string()],
            vec![execution::Ordering::Desc],
            Box::new(execution::Node::DataSource(
                DataSource::File("access.log".to_string()),
                "elb".to_string(),
            )),
        )),
    );
    assert_eq!(expected, *physical_plan);
    assert_eq!(Variables::default(), variables);
}

#[test]
fn constant_names_grow_past_the_padded_width() {
    let mut creator = PhysicalPlanCreator::new(DataSource::Stdin);
    creator.counter = 999_999_999;
    assert_eq!("const_999999999".to_string(), creator.new_constant_name());
    assert_eq!("const_1000000000".to_string(), creator.new_constant_name());
}

#[test]
fn each_constant_gets_a_fresh_name() {
    let mut creator = PhysicalPlanCreator::new(DataSource::Stdin);
    let first = creator.new_constant_name();
    let second = creator.new_constant_name();
    assert_eq!("const_000000000".to_string(), first);
    assert_eq!("const_000000001".to_string(), second);
    assert_ne!(first, second);
}
