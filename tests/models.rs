use dmntk_core::decision_table::{DecisionTable, HitPolicy, InputClause, OutputClause, Rule, UnaryTest};
use dmntk_core::errors::{DmnError, TableError};
use dmntk_core::model::{Body, Invocable, InvocableKind, ModelDefinitions, ModelEvaluator};
use dmntk_core::validator::{Definitions, ItemDefinition};
use dmntk_core::values::{Context, Expression, Outcome, Value};

const NS: &str = "https://example.org/model";

fn decision(name: &str, requirements: &[&str], body: Body) -> Invocable {
    Invocable {
        name: name.to_string(),
        kind: InvocableKind::Decision,
        type_ref: None,
        requirements: requirements.iter().map(|r| r.to_string()).collect(),
        body,
    }
}

fn literal(v: Value) -> Body {
    Body::Expression(Expression::Literal(v))
}

fn reference(name: &str) -> Body {
    Body::Expression(Expression::Name(name.to_string()))
}

fn model(input_data: &[&str], invocables: Vec<Invocable>) -> ModelDefinitions {
    ModelDefinitions {
        namespace: NS.to_string(),
        item_definitions: Definitions {
            item_definitions: vec![ItemDefinition { name: "Score".to_string(), type_ref: Some("number".to_string()), parent: None }],
        },
        input_data: input_data.iter().map(|r| r.to_string()).collect(),
        invocables,
    }
}

fn run(m: &ModelEvaluator, name: &str, input: &Context) -> Result<Outcome, DmnError> {
    m.evaluate_invocable(&NS.to_string(), &name.to_string(), input)
}

fn text_of(r: &Result<Outcome, DmnError>) -> Option<String> {
    match r {
        Ok(Outcome::Single(Value::Text(s))) => Some(s.clone()),
        _ => None,
    }
}

fn input(name: &str, v: Value) -> Context {
    let mut c = Context::new();
    c.set_entry(&name.to_string(), Outcome::Single(v));
    c
}

#[test]
fn literal_decision_ignores_input() {
    let m = ModelEvaluator::build(model(&[], vec![decision("Decision1", &[], literal(Value::Text("foo bar".to_string())))]));
    let m = m.ok().unwrap();
    assert_eq!(text_of(&run(&m, "Decision1", &Context::new())), Some("foo bar".to_string()));
    assert_eq!(text_of(&run(&m, "Decision1", &input("Decision1", Value::Number(3)))), Some("foo bar".to_string()));
}

#[test]
fn dependencies_are_evaluated_first() {
    let m = ModelEvaluator::build(model(
        &["Name"],
        vec![
            decision("Greeting", &["Echo"], reference("Echo")),
            decision("Echo", &["Name"], reference("Name")),
        ],
    ))
    .ok()
    .unwrap();
    let r = run(&m, "Greeting", &input("Name", Value::Text("Ada".to_string())));
    assert_eq!(text_of(&r), Some("Ada".to_string()));
}

#[test]
fn missing_input_binds_null() {
    let m = ModelEvaluator::build(model(&["Name"], vec![decision("Echo", &["Name"], reference("Name"))])).ok().unwrap();
    assert!(matches!(run(&m, "Echo", &Context::new()), Ok(Outcome::Single(Value::Null))));
}

#[test]
fn caller_cannot_override_a_dependency() {
    let m = ModelEvaluator::build(model(
        &[],
        vec![decision("Inner", &[], literal(Value::Number(1))), decision("Outer", &["Inner"], reference("Inner"))],
    ))
    .ok()
    .unwrap();
    let r = run(&m, "Outer", &input("Inner", Value::Number(99)));
    assert!(matches!(r, Ok(Outcome::Single(Value::Number(1)))));
}

#[test]
fn unknown_invocable_is_a_lookup_error() {
    let m = ModelEvaluator::build(model(&[], vec![decision("D", &[], literal(Value::Null))])).ok().unwrap();
    match run(&m, "Nope", &Context::new()) {
        Err(DmnError::NoSuchInvocable(n)) => assert_eq!(n, "Nope"),
        _ => panic!("expected a lookup error"),
    }
}

#[test]
fn unknown_namespace_is_a_lookup_error() {
    let m = ModelEvaluator::build(model(&[], vec![decision("D", &[], literal(Value::Null))])).ok().unwrap();
    let r = m.evaluate_invocable(&"other".to_string(), &"D".to_string(), &Context::new());
    assert!(matches!(r, Err(DmnError::NoSuchInvocable(_))));
}

#[test]
fn unresolved_reference_fails_the_build() {
    let r = ModelEvaluator::build(model(&[], vec![decision("D", &["Missing"], reference("Missing"))]));
    match r {
        Err(DmnError::UnresolvedReference(n)) => assert_eq!(n, "Missing"),
        _ => panic!("expected an unresolved reference"),
    }
}

#[test]
fn duplicate_names_fail_the_build() {
    let r = ModelEvaluator::build(model(&[], vec![decision("D", &[], literal(Value::Null)), decision("D", &[], literal(Value::Null))]));
    assert!(matches!(r, Err(DmnError::DuplicateInvocable(_))));
}

#[test]
fn dependency_cycle_fails_the_build() {
    let r = ModelEvaluator::build(model(
        &[],
        vec![decision("A", &["B"], reference("B")), decision("B", &["C"], reference("C")), decision("C", &["A"], reference("A"))],
    ));
    assert!(matches!(r, Err(DmnError::InvocableCycle)));
}

#[test]
fn self_dependency_fails_the_build() {
    let r = ModelEvaluator::build(model(&[], vec![decision("A", &["A"], reference("A"))]));
    assert!(matches!(r, Err(DmnError::InvocableCycle)));
}

#[test]
fn malformed_table_fails_the_build() {
    let table = DecisionTable {
        input_clauses: vec![InputClause { input_expression: Expression::Name("x".to_string()) }],
        output_clause: OutputClause { name: "o".to_string(), output_values: vec![] },
        rules: vec![Rule { input_entries: vec![], output_entry: Expression::Literal(Value::Null) }],
        hit_policy: HitPolicy::Unique,
    };
    let r = ModelEvaluator::build(model(&["x"], vec![decision("T", &["x"], Body::Table(table))]));
    assert!(matches!(r, Err(DmnError::MalformedDecisionTable(_))));
}

#[test]
fn table_failure_names_the_invocable() {
    let table = DecisionTable {
        input_clauses: vec![],
        output_clause: OutputClause { name: "o".to_string(), output_values: vec![] },
        rules: vec![
            Rule { input_entries: vec![], output_entry: Expression::Literal(Value::Number(1)) },
            Rule { input_entries: vec![], output_entry: Expression::Literal(Value::Number(2)) },
        ],
        hit_policy: HitPolicy::Unique,
    };
    let m = ModelEvaluator::build(model(
        &[],
        vec![decision("T", &[], Body::Table(table)), decision("Top", &["T"], reference("T"))],
    ))
    .ok()
    .unwrap();
    match run(&m, "Top", &Context::new()) {
        Err(DmnError::InvocableFailed(n, TableError::AmbiguousUniqueMatch)) => assert_eq!(n, "T"),
        _ => panic!("expected the table's failure"),
    }
}

#[test]
fn table_decision_reads_its_input() {
    let table = DecisionTable {
        input_clauses: vec![InputClause { input_expression: Expression::Name("age".to_string()) }],
        output_clause: OutputClause { name: "o".to_string(), output_values: vec![] },
        rules: vec![
            Rule { input_entries: vec![UnaryTest::Less(18)], output_entry: Expression::Literal(Value::Text("minor".to_string())) },
            Rule { input_entries: vec![UnaryTest::GreaterOrEqual(18)], output_entry: Expression::Literal(Value::Text("adult".to_string())) },
        ],
        hit_policy: HitPolicy::Unique,
    };
    let m = ModelEvaluator::build(model(&["age"], vec![decision("Category", &["age"], Body::Table(table))])).ok().unwrap();
    assert_eq!(text_of(&run(&m, "Category", &input("age", Value::Number(17)))), Some("minor".to_string()));
}

#[test]
fn service_exposes_only_its_outputs() {
    let mut service = decision("Service", &["Hidden"], Body::Service(vec!["Shown".to_string()]));
    service.kind = InvocableKind::DecisionService;
    let m = ModelEvaluator::build(model(
        &[],
        vec![
            decision("Hidden", &[], literal(Value::Number(7))),
            decision("Shown", &["Hidden"], reference("Hidden")),
            service,
        ],
    ))
    .ok()
    .unwrap();
    match run(&m, "Service", &input("Hidden", Value::Number(100))) {
        Ok(Outcome::Record(fields)) => {
            assert_eq!(fields.len(), 1);
            assert_eq!(fields[0].name, "Shown");
            assert!(matches!(fields[0].value, Value::Number(7)));
        }
        _ => panic!("expected a record"),
    }
}

#[test]
fn evaluation_order_lists_closure_once() {
    let m = ModelEvaluator::build(model(
        &[],
        vec![
            decision("Top", &["Left", "Right"], literal(Value::Null)),
            decision("Left", &["Base"], literal(Value::Null)),
            decision("Right", &["Base"], literal(Value::Null)),
            decision("Base", &[], literal(Value::Null)),
            decision("Unrelated", &[], literal(Value::Null)),
        ],
    ))
    .ok()
    .unwrap();
    let order = m.evaluation_order(0);
    assert_eq!(order.len(), 4);
    assert_eq!(order[0], 3);
    assert_eq!(order[3], 0);
    assert!(!order.contains(&4));
}

#[test]
fn declared_type_must_resolve() {
    let mut d = decision("D", &[], literal(Value::Number(1)));
    d.type_ref = Some("Planet".to_string());
    match ModelEvaluator::build(model(&[], vec![d])) {
        Err(DmnError::UnknownTypeReference(n)) => assert_eq!(n, "Planet"),
        _ => panic!("expected an unknown type reference"),
    }
}

#[test]
fn declared_types_that_resolve_are_accepted() {
    let mut a = decision("A", &[], literal(Value::Number(1)));
    a.type_ref = Some("Score".to_string());
    let mut b = decision("B", &[], literal(Value::Text("x".to_string())));
    b.type_ref = Some("string".to_string());
    assert!(ModelEvaluator::build(model(&[], vec![a, b])).is_ok());
}
