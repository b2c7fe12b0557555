use dmntk_core::decision_table::{
    build_decision_table_evaluator, evaluate, resolve_hit_policy, Aggregator, DecisionTable,
    HitPolicy, InputClause, OutputClause, Rule, UnaryTest,
};
use dmntk_core::errors::TableError;
use dmntk_core::values::{Context, Expression, Outcome, Value};

fn text(s: &str) -> Value {
    Value::Text(s.to_string())
}

fn ctx_with(name: &str, v: Value) -> Context {
    let mut c = Context::new();
    c.set_entry(&name.to_string(), Outcome::Single(v));
    c
}

fn age_table(policy: HitPolicy) -> DecisionTable {
    DecisionTable {
        input_clauses: vec![InputClause { input_expression: Expression::Name("age".to_string()) }],
        output_clause: OutputClause { name: "category".to_string(), output_values: vec![] },
        rules: vec![
            Rule { input_entries: vec![UnaryTest::Less(18)], output_entry: Expression::Literal(text("minor")) },
            Rule { input_entries: vec![UnaryTest::GreaterOrEqual(18)], output_entry: Expression::Literal(text("adult")) },
        ],
        hit_policy: policy,
    }
}

fn single_text(r: &Result<Outcome, TableError>) -> Option<String> {
    match r {
        Ok(Outcome::Single(Value::Text(s))) => Some(s.clone()),
        _ => None,
    }
}

fn is_null(r: &Result<Outcome, TableError>) -> bool {
    matches!(r, Ok(Outcome::Single(Value::Null)))
}

fn numbers(r: &Result<Outcome, TableError>) -> Option<Vec<i64>> {
    match r {
        Ok(Outcome::Multiple(vs)) => {
            let mut out = Vec::new();
            for v in vs {
                match v {
                    Value::Number(n) => out.push(*n),
                    _ => return None,
                }
            }
            Some(out)
        }
        _ => None,
    }
}

fn number_table(policy: HitPolicy, outputs: Vec<Value>, priorities: Vec<Value>) -> DecisionTable {
    let rules = outputs
        .into_iter()
        .map(|v| Rule { input_entries: vec![UnaryTest::Any], output_entry: Expression::Literal(v) })
        .collect();
    DecisionTable {
        input_clauses: vec![InputClause { input_expression: Expression::Name("x".to_string()) }],
        output_clause: OutputClause { name: "out".to_string(), output_values: priorities },
        rules,
        hit_policy: policy,
    }
}

#[test]
fn unique_age_table_minor() {
    let r = evaluate(&age_table(HitPolicy::Unique), &ctx_with("age", Value::Number(17)));
    assert_eq!(single_text(&r), Some("minor".to_string()));
}

#[test]
fn unique_age_table_adult() {
    let r = evaluate(&age_table(HitPolicy::Unique), &ctx_with("age", Value::Number(30)));
    assert_eq!(single_text(&r), Some("adult".to_string()));
}

#[test]
fn unique_age_table_null_matches_nothing() {
    let r = evaluate(&age_table(HitPolicy::Unique), &ctx_with("age", Value::Null));
    assert!(is_null(&r));
}

#[test]
fn unique_age_table_missing_input_is_null() {
    let r = evaluate(&age_table(HitPolicy::Unique), &Context::new());
    assert!(is_null(&r));
}

#[test]
fn unique_with_two_matches_is_ambiguous() {
    let t = number_table(HitPolicy::Unique, vec![Value::Number(1), Value::Number(2)], vec![]);
    let r = evaluate(&t, &Context::new());
    assert!(matches!(r, Err(TableError::AmbiguousUniqueMatch)));
}

#[test]
fn evaluation_is_deterministic() {
    let t = age_table(HitPolicy::Unique);
    let c = ctx_with("age", Value::Number(17));
    let a = evaluate(&t, &c);
    let b = evaluate(&t, &c);
    assert_eq!(single_text(&a), single_text(&b));
    assert_eq!(single_text(&a), Some("minor".to_string()));
}

#[test]
fn any_with_equal_outputs() {
    let t = number_table(HitPolicy::Any, vec![text("x"), text("x")], vec![]);
    assert_eq!(single_text(&evaluate(&t, &Context::new())), Some("x".to_string()));
}

#[test]
fn any_with_different_outputs_fails() {
    let t = number_table(HitPolicy::Any, vec![text("x"), text("y")], vec![]);
    assert!(matches!(evaluate(&t, &Context::new()), Err(TableError::DivergentAnyMatch)));
}

#[test]
fn priority_picks_highest_declared_output() {
    let t = number_table(HitPolicy::Priority, vec![text("low"), text("high"), text("mid")], vec![text("high"), text("mid"), text("low")]);
    assert_eq!(single_text(&evaluate(&t, &Context::new())), Some("high".to_string()));
}

#[test]
fn first_picks_first_match() {
    let t = number_table(HitPolicy::First, vec![text("a"), text("b")], vec![]);
    assert_eq!(single_text(&evaluate(&t, &Context::new())), Some("a".to_string()));
}

#[test]
fn first_without_match_is_null() {
    let t = DecisionTable {
        input_clauses: vec![InputClause { input_expression: Expression::Name("x".to_string()) }],
        output_clause: OutputClause { name: "out".to_string(), output_values: vec![] },
        rules: vec![Rule { input_entries: vec![UnaryTest::Equal(Value::Number(1))], output_entry: Expression::Literal(text("a")) }],
        hit_policy: HitPolicy::First,
    };
    assert!(is_null(&evaluate(&t, &ctx_with("x", Value::Number(2)))));
}

#[test]
fn rule_order_lists_matches_in_table_order() {
    let t = number_table(HitPolicy::RuleOrder, vec![Value::Number(3), Value::Number(1), Value::Number(2)], vec![]);
    assert_eq!(numbers(&evaluate(&t, &Context::new())), Some(vec![3, 1, 2]));
}

#[test]
fn output_order_sorts_by_priority() {
    let t = number_table(
        HitPolicy::OutputOrder,
        vec![Value::Number(3), Value::Number(1), Value::Number(2), Value::Number(1)],
        vec![Value::Number(1), Value::Number(2), Value::Number(3)],
    );
    assert_eq!(numbers(&evaluate(&t, &Context::new())), Some(vec![1, 1, 2, 3]));
}

#[test]
fn collect_sum_adds_matches() {
    let t = number_table(HitPolicy::Collect(Aggregator::Sum), vec![Value::Number(10), Value::Number(-3), Value::Number(5)], vec![]);
    assert!(matches!(evaluate(&t, &Context::new()), Ok(Outcome::Single(Value::Number(12)))));
}

#[test]
fn collect_count_ignores_output_values() {
    let t = number_table(HitPolicy::Collect(Aggregator::Count), vec![text("a"), Value::Null, Value::Number(4)], vec![]);
    assert!(matches!(evaluate(&t, &Context::new()), Ok(Outcome::Single(Value::Number(3)))));
}

#[test]
fn collect_min_and_max() {
    let vs = || vec![Value::Number(7), Value::Number(-2), Value::Number(9)];
    let min = number_table(HitPolicy::Collect(Aggregator::Min), vs(), vec![]);
    let max = number_table(HitPolicy::Collect(Aggregator::Max), vs(), vec![]);
    assert!(matches!(evaluate(&min, &Context::new()), Ok(Outcome::Single(Value::Number(-2)))));
    assert!(matches!(evaluate(&max, &Context::new()), Ok(Outcome::Single(Value::Number(9)))));
}

#[test]
fn collect_list_keeps_outputs() {
    let t = number_table(HitPolicy::Collect(Aggregator::List), vec![Value::Number(2), Value::Number(1)], vec![]);
    assert_eq!(numbers(&evaluate(&t, &Context::new())), Some(vec![2, 1]));
}

#[test]
fn collect_sum_of_text_fails() {
    let t = number_table(HitPolicy::Collect(Aggregator::Sum), vec![Value::Number(1), text("a")], vec![]);
    assert!(matches!(evaluate(&t, &Context::new()), Err(TableError::NonNumericAggregate)));
}

#[test]
fn collect_sum_overflow_fails() {
    let t = number_table(HitPolicy::Collect(Aggregator::Sum), vec![Value::Number(i64::MAX), Value::Number(1)], vec![]);
    assert!(matches!(evaluate(&t, &Context::new()), Err(TableError::NumericOverflow)));
}

#[test]
fn collect_sum_without_match_is_null() {
    let t = number_table(HitPolicy::Collect(Aggregator::Sum), vec![], vec![]);
    assert!(is_null(&evaluate(&t, &Context::new())));
}

#[test]
fn one_of_test_matches_listed_values() {
    let t = DecisionTable {
        input_clauses: vec![InputClause { input_expression: Expression::Name("color".to_string()) }],
        output_clause: OutputClause { name: "warm".to_string(), output_values: vec![] },
        rules: vec![
            Rule { input_entries: vec![UnaryTest::OneOf(vec![text("red"), text("orange")])], output_entry: Expression::Literal(Value::Boolean(true)) },
            Rule { input_entries: vec![UnaryTest::Any], output_entry: Expression::Literal(Value::Boolean(false)) },
        ],
        hit_policy: HitPolicy::First,
    };
    assert!(matches!(evaluate(&t, &ctx_with("color", text("orange"))), Ok(Outcome::Single(Value::Boolean(true)))));
    assert!(matches!(evaluate(&t, &ctx_with("color", text("blue"))), Ok(Outcome::Single(Value::Boolean(false)))));
}

#[test]
fn output_entry_reads_context() {
    let t = DecisionTable {
        input_clauses: vec![],
        output_clause: OutputClause { name: "echo".to_string(), output_values: vec![] },
        rules: vec![Rule { input_entries: vec![], output_entry: Expression::Name("greeting".to_string()) }],
        hit_policy: HitPolicy::Unique,
    };
    assert_eq!(single_text(&evaluate(&t, &ctx_with("greeting", text("hi")))), Some("hi".to_string()));
}

#[test]
fn standalone_evaluator_is_reusable() {
    let e = build_decision_table_evaluator(age_table(HitPolicy::Unique));
    assert_eq!(single_text(&e.evaluate(&ctx_with("age", Value::Number(5)))), Some("minor".to_string()));
    assert_eq!(single_text(&e.evaluate(&ctx_with("age", Value::Number(50)))), Some("adult".to_string()));
}

#[test]
fn resolve_unique_on_outputs() {
    let r = resolve_hit_policy(vec![Value::Number(4)], &vec![], HitPolicy::Unique);
    assert!(matches!(r, Ok(Outcome::Single(Value::Number(4)))));
}

#[test]
fn priority_tie_between_unlisted_outputs_fails() {
    let t = number_table(HitPolicy::Priority, vec![text("x"), text("y")], vec![text("z")]);
    assert!(matches!(evaluate(&t, &Context::new()), Err(TableError::AmbiguousPriority)));
}

#[test]
fn priority_tie_between_equal_outputs_is_fine() {
    let t = number_table(HitPolicy::Priority, vec![text("b"), text("a"), text("a")], vec![text("a"), text("b")]);
    assert_eq!(single_text(&evaluate(&t, &Context::new())), Some("a".to_string()));
}
