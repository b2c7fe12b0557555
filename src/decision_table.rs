//! Decision tables: rule matching and hit-policy resolution.
use crate::errors::TableError;
use crate::values::{
    eval_expression, eval_scalar, same_value, Binding, Context, Expression, Outcome, OutcomeModel,
    Value,
};
use vstd::prelude::*;

verus! {

/// Aggregation applied by the collect hit policy.
#[derive(PartialEq, Eq, Structural, Clone, Copy)]
pub enum Aggregator {
    List,
    Sum,
    Min,
    Max,
    Count,
}

/// How the outputs of the matching rules combine into the table's result.
#[derive(PartialEq, Eq, Structural, Clone, Copy)]
pub enum HitPolicy {
    Unique,
    Any,
    Priority,
    First,
    RuleOrder,
    OutputOrder,
    Collect(Aggregator),
}

/// An input entry: a test of the input clause's current value.
pub enum UnaryTest {
    /// The wildcard `-`: matches every value.
    Any,
    Equal(Value),
    Less(i64),
    LessOrEqual(i64),
    Greater(i64),
    GreaterOrEqual(i64),
    /// Matches a value equal to one of the listed values.
    OneOf(Vec<Value>),
}

/// An input clause: the expression whose value the rules test.
pub struct InputClause {
    pub input_expression: Expression,
}

/// The output clause: its name and its output values, highest priority first.
pub struct OutputClause {
    pub name: String,
    pub output_values: Vec<Value>,
}

/// A rule: one test per input clause, and the expression of its output.
pub struct Rule {
    pub input_entries: Vec<UnaryTest>,
    pub output_entry: Expression,
}

/// A decision table.
pub struct DecisionTable {
    pub input_clauses: Vec<InputClause>,
    pub output_clause: OutputClause,
    pub rules: Vec<Rule>,
    pub hit_policy: HitPolicy,
}

/// Largest number of rules a table may hold.
pub const MAX_RULES: usize = 0xffff_ffff;

impl DecisionTable {
    /// Each rule has one input entry per input clause, and the rule count is bounded.
    pub open spec fn wf(&self) -> bool {
        &&& self.rules@.len() <= MAX_RULES
        &&& forall|i: int|
            0 <= i < self.rules@.len() ==> (#[trigger] self.rules@[i]).input_entries@.len()
                == self.input_clauses@.len()
    }
}

/// Whether each rule has one input entry per input clause, and the rule count is bounded.
pub fn check_table_shape(t: &DecisionTable) -> (r: bool)
    ensures
        r == t.wf(),
{
    if t.rules.len() > MAX_RULES {
        return false;
    }
    let mut i: usize = 0;
    while i < t.rules.len()
        invariant
            i <= t.rules@.len() <= MAX_RULES,
            forall|j: int| 0 <= j < i ==> (#[trigger] t.rules@[j]).input_entries@.len() == t.input_clauses@.len(),
        decreases t.rules@.len() - i,
    {
        if t.rules[i].input_entries.len() != t.input_clauses.len() {
            return false;
        }
        i = i + 1;
    }
    true
}

/// The test holds of a single value.
pub open spec fn scalar_test_holds(t: UnaryTest, v: Value) -> bool {
    match t {
        UnaryTest::Any => true,
        UnaryTest::Equal(w) => same_value(v, w),
        UnaryTest::Less(n) => v is Number && v->Number_0 < n,
        UnaryTest::LessOrEqual(n) => v is Number && v->Number_0 <= n,
        UnaryTest::Greater(n) => v is Number && v->Number_0 > n,
        UnaryTest::GreaterOrEqual(n) => v is Number && v->Number_0 >= n,
        UnaryTest::OneOf(ws) => exists|k: int| 0 <= k < ws@.len() && same_value(v, #[trigger] ws@[k]),
    }
}

/// The test holds of an input: the wildcard of anything, the others of a single value only.
pub open spec fn test_holds(t: UnaryTest, v: OutcomeModel) -> bool {
    match t {
        UnaryTest::Any => true,
        _ => match v {
            OutcomeModel::Single(x) => scalar_test_holds(t, x),
            _ => false,
        },
    }
}

/// The values of the input clauses in a context.
pub open spec fn input_values(t: DecisionTable, ctx: Seq<Binding>) -> Seq<OutcomeModel> {
    Seq::new(t.input_clauses@.len(), |j: int| eval_expression(t.input_clauses@[j].input_expression, ctx))
}

/// Rule `i` matches: each of its input entries holds of its clause's value.
pub open spec fn rule_matches(t: DecisionTable, ctx: Seq<Binding>, i: int) -> bool {
    forall|j: int|
        0 <= j < t.input_clauses@.len() ==> test_holds(
            #[trigger] t.rules@[i].input_entries@[j],
            input_values(t, ctx)[j],
        )
}

/// The outputs of the matching rules among the first `k`, in table order.
pub open spec fn outputs_upto(t: DecisionTable, ctx: Seq<Binding>, k: int) -> Seq<Value>
    decreases k,
{
    if k <= 0 {
        Seq::empty()
    } else if rule_matches(t, ctx, k - 1) {
        outputs_upto(t, ctx, k - 1).push(eval_scalar(t.rules@[k - 1].output_entry, ctx))
    } else {
        outputs_upto(t, ctx, k - 1)
    }
}

/// The indices of the matching rules among the first `k`, in table order.
pub open spec fn matched_upto(t: DecisionTable, ctx: Seq<Binding>, k: int) -> Seq<int>
    decreases k,
{
    if k <= 0 {
        Seq::empty()
    } else if rule_matches(t, ctx, k - 1) {
        matched_upto(t, ctx, k - 1).push(k - 1)
    } else {
        matched_upto(t, ctx, k - 1)
    }
}

/// The indices of all matching rules, in table order.
pub open spec fn matched_rules(t: DecisionTable, ctx: Seq<Binding>) -> Seq<int> {
    matched_upto(t, ctx, t.rules@.len() as int)
}

/// The outputs of all matching rules, in table order.
pub open spec fn matched_outputs(t: DecisionTable, ctx: Seq<Binding>) -> Seq<Value> {
    outputs_upto(t, ctx, t.rules@.len() as int)
}

/// The priority of an output value: its position among the output values, or their count
/// when it is not listed. Lower is higher priority.
pub open spec fn priority_of(vals: Seq<Value>, v: Value) -> nat
    decreases vals.len(),
{
    if vals.len() == 0 {
        0
    } else if same_value(vals[0], v) {
        0
    } else {
        1 + priority_of(vals.drop_first(), v)
    }
}

/// Position of the first output, among the first `k`, of the highest priority.
pub open spec fn best_upto(outs: Seq<Value>, vals: Seq<Value>, k: int) -> int
    decreases k,
{
    if k <= 1 {
        0
    } else {
        let b = best_upto(outs, vals, k - 1);
        if priority_of(vals, outs[k - 1]) < priority_of(vals, outs[b]) {
            k - 1
        } else {
            b
        }
    }
}

/// An output of the highest priority differs from another of the same priority.
pub open spec fn priority_tie(outs: Seq<Value>, vals: Seq<Value>) -> bool {
    let b = best_upto(outs, vals, outs.len() as int);
    exists|k: int|
        0 <= k < outs.len() && priority_of(vals, #[trigger] outs[k]) == priority_of(vals, outs[b])
            && !same_value(outs[k], outs[b])
}

/// The outputs of priority `p`, in their order.
pub open spec fn at_priority(outs: Seq<Value>, vals: Seq<Value>, p: nat) -> Seq<Value>
    decreases outs.len(),
{
    if outs.len() == 0 {
        Seq::empty()
    } else if priority_of(vals, outs.last()) == p {
        at_priority(outs.drop_last(), vals, p).push(outs.last())
    } else {
        at_priority(outs.drop_last(), vals, p)
    }
}

/// The outputs of the priorities below `p`, highest priority first; order among equals kept.
pub open spec fn by_priority(outs: Seq<Value>, vals: Seq<Value>, p: nat) -> Seq<Value>
    decreases p,
{
    if p == 0 {
        Seq::empty()
    } else {
        by_priority(outs, vals, (p - 1) as nat) + at_priority(outs, vals, (p - 1) as nat)
    }
}

/// Every output is a number.
pub open spec fn all_numeric(outs: Seq<Value>) -> bool {
    forall|k: int| 0 <= k < outs.len() ==> (#[trigger] outs[k]) is Number
}

/// The arithmetic sum of the numeric outputs.
pub open spec fn sum_of(outs: Seq<Value>) -> int
    decreases outs.len(),
{
    if outs.len() == 0 {
        0
    } else {
        sum_of(outs.drop_last()) + match outs.last() {
            Value::Number(n) => n as int,
            _ => 0,
        }
    }
}

/// The smallest (or, with `largest`, the largest) of numeric outputs; the first when empty.
pub open spec fn extreme_of(outs: Seq<Value>, largest: bool) -> int
    decreases outs.len(),
{
    if outs.len() <= 1 {
        match outs[0] {
            Value::Number(n) => n as int,
            _ => 0,
        }
    } else {
        let rest = extreme_of(outs.drop_last(), largest);
        let x = match outs.last() {
            Value::Number(n) => n as int,
            _ => 0,
        };
        if (largest && x > rest) || (!largest && x < rest) {
            x
        } else {
            rest
        }
    }
}

/// The result that the collect hit policy with an aggregator gives on the outputs.
pub open spec fn aggregate(outs: Seq<Value>, a: Aggregator) -> Result<OutcomeModel, TableError> {
    match a {
        Aggregator::List => Ok(OutcomeModel::Multiple(outs)),
        Aggregator::Count => Ok(OutcomeModel::Single(Value::Number(outs.len() as i64))),
        _ => if !all_numeric(outs) {
            Err(TableError::NonNumericAggregate)
        } else if outs.len() == 0 {
            Ok(OutcomeModel::Single(Value::Null))
        } else {
            let r = match a {
                Aggregator::Sum => sum_of(outs),
                Aggregator::Max => extreme_of(outs, true),
                _ => extreme_of(outs, false),
            };
            if i64::MIN <= r <= i64::MAX {
                Ok(OutcomeModel::Single(Value::Number(r as i64)))
            } else {
                Err(TableError::NumericOverflow)
            }
        },
    }
}

/// The result that a hit policy gives on the outputs of the matching rules, in table order,
/// with the output values `vals` listed highest priority first.
pub open spec fn resolve(outs: Seq<Value>, vals: Seq<Value>, policy: HitPolicy) -> Result<OutcomeModel, TableError> {
    let none = OutcomeModel::Single(Value::Null);
    match policy {
        HitPolicy::Unique => if outs.len() == 0 {
            Ok(none)
        } else if outs.len() == 1 {
            Ok(OutcomeModel::Single(outs[0]))
        } else {
            Err(TableError::AmbiguousUniqueMatch)
        },
        HitPolicy::Any => if outs.len() == 0 {
            Ok(none)
        } else if forall|k: int| 0 <= k < outs.len() ==> same_value(#[trigger] outs[k], outs[0]) {
            Ok(OutcomeModel::Single(outs[0]))
        } else {
            Err(TableError::DivergentAnyMatch)
        },
        HitPolicy::Priority => if outs.len() == 0 {
            Ok(none)
        } else if priority_tie(outs, vals) {
            Err(TableError::AmbiguousPriority)
        } else {
            Ok(OutcomeModel::Single(outs[best_upto(outs, vals, outs.len() as int)]))
        },
        HitPolicy::First => if outs.len() == 0 {
            Ok(none)
        } else {
            Ok(OutcomeModel::Single(outs[0]))
        },
        HitPolicy::RuleOrder => Ok(OutcomeModel::Multiple(outs)),
        HitPolicy::OutputOrder => Ok(
            OutcomeModel::Multiple(by_priority(outs, vals, (vals.len() + 1) as nat)),
        ),
        HitPolicy::Collect(a) => aggregate(outs, a),
    }
}

/// The result of evaluating a decision table in a context.
pub open spec fn table_result(t: DecisionTable, ctx: Seq<Binding>) -> Result<OutcomeModel, TableError> {
    resolve(matched_outputs(t, ctx), t.output_clause.output_values@, t.hit_policy)
}

/// The view of an evaluation result.
pub open spec fn result_view(r: Result<Outcome, TableError>) -> Result<OutcomeModel, TableError> {
    match r {
        Ok(o) => Ok(o@),
        Err(e) => Err(e),
    }
}

/// Whether `x` equals one of `ws`.
fn contains_value(ws: &Vec<Value>, x: &Value) -> (r: bool)
    ensures
        r == exists|k: int| 0 <= k < ws@.len() && same_value(*x, #[trigger] ws@[k]),
{
    let mut k: usize = 0;
    while k < ws.len()
        invariant
            k <= ws@.len(),
            forall|j: int| 0 <= j < k ==> !same_value(*x, #[trigger] ws@[j]),
        decreases ws@.len() - k,
    {
        if x.same(&ws[k]) {
            assert(same_value(*x, ws@[k as int]));
            return true;
        }
        k = k + 1;
    }
    false
}

impl UnaryTest {
    /// Whether the test holds of the input `v`.
    pub fn holds(&self, v: &Outcome) -> (r: bool)
        ensures
            r == test_holds(*self, v@),
    {
        match self {
            UnaryTest::Any => true,
            _ => match v {
                Outcome::Multiple(_) => false,
                Outcome::Record(_) => false,
                Outcome::Single(x) => match self {
                    UnaryTest::Any => true,
                    UnaryTest::Equal(w) => x.same(w),
                    UnaryTest::Less(n) => match x {
                        Value::Number(m) => *m < *n,
                        _ => false,
                    },
                    UnaryTest::LessOrEqual(n) => match x {
                        Value::Number(m) => *m <= *n,
                        _ => false,
                    },
                    UnaryTest::Greater(n) => match x {
                        Value::Number(m) => *m > *n,
                        _ => false,
                    },
                    UnaryTest::GreaterOrEqual(n) => match x {
                        Value::Number(m) => *m >= *n,
                        _ => false,
                    },
                    UnaryTest::OneOf(ws) => contains_value(ws, x),
                },
            },
        }
    }
}

/// Evaluates the input clauses in `ctx`.
fn evaluate_inputs(table: &DecisionTable, ctx: &Context) -> (r: Vec<Outcome>)
    ensures
        r@.len() == table.input_clauses@.len(),
        forall|j: int| 0 <= j < r@.len() ==> (#[trigger] r@[j])@ == input_values(*table, ctx@)[j],
{
    let mut r: Vec<Outcome> = Vec::new();
    let mut j: usize = 0;
    while j < table.input_clauses.len()
        invariant
            j <= table.input_clauses@.len(),
            r@.len() == j,
            forall|k: int| 0 <= k < j ==> (#[trigger] r@[k])@ == input_values(*table, ctx@)[k],
        decreases table.input_clauses@.len() - j,
    {
        r.push(table.input_clauses[j].input_expression.evaluate(ctx));
        j = j + 1;
    }
    r
}

/// Whether rule `i` matches, given the values of the input clauses.
fn rule_matches_inputs(table: &DecisionTable, inputs: &Vec<Outcome>, i: usize, Ghost(ctx): Ghost<Seq<Binding>>) -> (r: bool)
    requires
        table.wf(),
        i < table.rules@.len(),
        inputs@.len() == table.input_clauses@.len(),
        forall|j: int| 0 <= j < inputs@.len() ==> (#[trigger] inputs@[j])@ == input_values(*table, ctx)[j],
    ensures
        r == rule_matches(*table, ctx, i as int),
{
    let rule = &table.rules[i];
    let mut j: usize = 0;
    while j < inputs.len()
        invariant
            table.wf(),
            i < table.rules@.len(),
            *rule == table.rules@[i as int],
            inputs@.len() == table.input_clauses@.len(),
            rule.input_entries@.len() == inputs@.len(),
            forall|k: int| 0 <= k < inputs@.len() ==> (#[trigger] inputs@[k])@ == input_values(*table, ctx)[k],
            j <= inputs@.len(),
            forall|k: int| 0 <= k < j ==> test_holds(#[trigger] rule.input_entries@[k], input_values(*table, ctx)[k]),
        decreases inputs@.len() - j,
    {
        if !rule.input_entries[j].holds(&inputs[j]) {
            return false;
        }
        j = j + 1;
    }
    true
}

/// The outputs of the matching rules, in table order; only those rules' outputs are evaluated.
fn evaluate_matched_outputs(table: &DecisionTable, ctx: &Context) -> (r: Vec<Value>)
    requires
        table.wf(),
    ensures
        r@ == matched_outputs(*table, ctx@),
{
    let inputs = evaluate_inputs(table, ctx);
    let mut outs: Vec<Value> = Vec::new();
    let mut i: usize = 0;
    while i < table.rules.len()
        invariant
            table.wf(),
            inputs@.len() == table.input_clauses@.len(),
            forall|j: int| 0 <= j < inputs@.len() ==> (#[trigger] inputs@[j])@ == input_values(*table, ctx@)[j],
            i <= table.rules@.len(),
            outs@ == outputs_upto(*table, ctx@, i as int),
        decreases table.rules@.len() - i,
    {
        if rule_matches_inputs(table, &inputs, i, Ghost(ctx@)) {
            outs.push(table.rules[i].output_entry.evaluate_scalar(ctx));
        }
        i = i + 1;
    }
    outs
}

/// The priority of `v` among the output values.
fn priority(vals: &Vec<Value>, v: &Value) -> (r: usize)
    ensures
        r as nat == priority_of(vals@, *v),
        r <= vals@.len(),
{
    let mut k: usize = 0;
    assert(vals@.subrange(0, vals@.len() as int) =~= vals@);
    while k < vals.len()
        invariant
            k <= vals@.len(),
            priority_of(vals@, *v) == k + priority_of(vals@.subrange(k as int, vals@.len() as int), *v),
        decreases vals@.len() - k,
    {
        proof {
            assert(vals@.subrange(k + 1, vals@.len() as int) =~= vals@.subrange(k as int, vals@.len() as int).drop_first());
        }
        if vals[k].same(v) {
            return k;
        }
        k = k + 1;
    }
    k
}

proof fn lemma_outputs_of_matched(t: DecisionTable, ctx: Seq<Binding>, k: int)
    ensures
        outputs_upto(t, ctx, k).len() == matched_upto(t, ctx, k).len(),
        forall|m: int|
            0 <= m < matched_upto(t, ctx, k).len() ==> outputs_upto(t, ctx, k)[m] == eval_scalar(
                t.rules@[#[trigger] matched_upto(t, ctx, k)[m]].output_entry,
                ctx,
            ),
    decreases k,
{
    if k > 0 {
        lemma_outputs_of_matched(t, ctx, k - 1);
    }
}

/// Evaluating a table twice in one context gives one result: the result depends on the table
/// and the context alone.
pub proof fn lemma_evaluation_deterministic(
    t: DecisionTable,
    ctx: Seq<Binding>,
    r1: Result<Outcome, TableError>,
    r2: Result<Outcome, TableError>,
)
    requires
        result_view(r1) == table_result(t, ctx),
        result_view(r2) == table_result(t, ctx),
    ensures
        result_view(r1) == result_view(r2),
{
}

/// Under the unique hit policy: more than one matching rule is an error, exactly one gives
/// that rule's output, and none gives null.
pub proof fn lemma_unique_hit_policy(t: DecisionTable, ctx: Seq<Binding>)
    requires
        t.hit_policy == HitPolicy::Unique,
    ensures
        matched_rules(t, ctx).len() > 1 ==> table_result(t, ctx) == Err::<OutcomeModel, TableError>(
            TableError::AmbiguousUniqueMatch,
        ),
        matched_rules(t, ctx).len() == 1 ==> table_result(t, ctx) == Ok::<OutcomeModel, TableError>(
            OutcomeModel::Single(eval_scalar(t.rules@[matched_rules(t, ctx)[0]].output_entry, ctx)),
        ),
        matched_rules(t, ctx).len() == 0 ==> table_result(t, ctx) == Ok::<OutcomeModel, TableError>(
            OutcomeModel::Single(Value::Null),
        ),
{
    lemma_outputs_of_matched(t, ctx, t.rules@.len() as int);
}

/// Under collect with sum, the result is the arithmetic sum of the matching rules' numeric
/// outputs (null when none matched); under collect with count, the number of matching rules.
pub proof fn lemma_collect_sum_and_count(t: DecisionTable, ctx: Seq<Binding>)
    requires
        t.wf(),
    ensures
        t.hit_policy == HitPolicy::Collect(Aggregator::Sum) && all_numeric(matched_outputs(t, ctx))
            && matched_rules(t, ctx).len() > 0 && i64::MIN <= sum_of(matched_outputs(t, ctx))
            <= i64::MAX ==> table_result(t, ctx) == Ok::<OutcomeModel, TableError>(
            OutcomeModel::Single(Value::Number(sum_of(matched_outputs(t, ctx)) as i64)),
        ),
        t.hit_policy == HitPolicy::Collect(Aggregator::Count) ==> table_result(t, ctx) == Ok::<
            OutcomeModel,
            TableError,
        >(OutcomeModel::Single(Value::Number(matched_rules(t, ctx).len() as i64))),
{
    lemma_outputs_of_matched(t, ctx, t.rules@.len() as int);
}

/// Whether all outputs equal the first.
fn all_same(outs: &Vec<Value>) -> (r: bool)
    requires
        outs@.len() > 0,
    ensures
        r == forall|k: int| 0 <= k < outs@.len() ==> same_value(#[trigger] outs@[k], outs@[0]),
{
    let mut k: usize = 0;
    while k < outs.len()
        invariant
            outs@.len() > 0,
            k <= outs@.len(),
            forall|j: int| 0 <= j < k ==> same_value(#[trigger] outs@[j], outs@[0]),
        decreases outs@.len() - k,
    {
        if !outs[k].same(&outs[0]) {
            return false;
        }
        k = k + 1;
    }
    true
}

/// The priorities of the outputs.
fn priorities(outs: &Vec<Value>, vals: &Vec<Value>) -> (r: Vec<usize>)
    ensures
        r@.len() == outs@.len(),
        forall|k: int| 0 <= k < r@.len() ==> (#[trigger] r@[k]) as nat == priority_of(vals@, outs@[k]),
{
    let mut r: Vec<usize> = Vec::new();
    let mut k: usize = 0;
    while k < outs.len()
        invariant
            k <= outs@.len(),
            r@.len() == k,
            forall|j: int| 0 <= j < k ==> (#[trigger] r@[j]) as nat == priority_of(vals@, outs@[j]),
        decreases outs@.len() - k,
    {
        r.push(priority(vals, &outs[k]));
        k = k + 1;
    }
    r
}

/// Position of the first output of the highest priority.
fn best_output(outs: &Vec<Value>, vals: &Vec<Value>) -> (r: usize)
    requires
        outs@.len() > 0,
    ensures
        r as int == best_upto(outs@, vals@, outs@.len() as int),
        r < outs@.len(),
{
    let ps = priorities(outs, vals);
    let mut b: usize = 0;
    let mut k: usize = 1;
    while k < outs.len()
        invariant
            1 <= k <= outs@.len(),
            ps@.len() == outs@.len(),
            forall|j: int| 0 <= j < ps@.len() ==> (#[trigger] ps@[j]) as nat == priority_of(vals@, outs@[j]),
            b < k,
            b as int == best_upto(outs@, vals@, k as int),
        decreases outs@.len() - k,
    {
        if ps[k] < ps[b] {
            b = k;
        }
        k = k + 1;
    }
    b
}

/// Whether an output of the priority of `outs[b]` differs from it.
fn has_priority_tie(outs: &Vec<Value>, vals: &Vec<Value>, b: usize) -> (r: bool)
    requires
        b < outs@.len(),
    ensures
        r == exists|k: int|
            0 <= k < outs@.len() && priority_of(vals@, #[trigger] outs@[k]) == priority_of(vals@, outs@[b as int])
                && !same_value(outs@[k], outs@[b as int]),
{
    let pb = priority(vals, &outs[b]);
    let mut k: usize = 0;
    while k < outs.len()
        invariant
            b < outs@.len(),
            pb as nat == priority_of(vals@, outs@[b as int]),
            k <= outs@.len(),
            forall|j: int|
                0 <= j < k ==> !(priority_of(vals@, #[trigger] outs@[j]) == priority_of(vals@, outs@[b as int])
                    && !same_value(outs@[j], outs@[b as int])),
        decreases outs@.len() - k,
    {
        if priority(vals, &outs[k]) == pb && !outs[k].same(&outs[b]) {
            assert(priority_of(vals@, outs@[k as int]) == priority_of(vals@, outs@[b as int]));
            return true;
        }
        k = k + 1;
    }
    false
}

/// The outputs ordered by priority, highest first, keeping table order among equals.
fn order_by_priority(outs: &Vec<Value>, vals: &Vec<Value>) -> (r: Vec<Value>)
    ensures
        r@ == by_priority(outs@, vals@, (vals@.len() + 1) as nat),
{
    let ps = priorities(outs, vals);
    let mut r: Vec<Value> = Vec::new();
    let mut p: usize = 0;
    loop
        invariant_except_break
            r@ == by_priority(outs@, vals@, p as nat),
        invariant
            p <= vals@.len(),
            ps@.len() == outs@.len(),
            forall|j: int| 0 <= j < ps@.len() ==> (#[trigger] ps@[j]) as nat == priority_of(vals@, outs@[j]),
        ensures
            r@ == by_priority(outs@, vals@, (vals@.len() + 1) as nat),
        decreases vals@.len() - p,
    {
        let ghost before = r@;
        let mut k: usize = 0;
        while k < outs.len()
            invariant
                p <= vals@.len(),
                k <= outs@.len(),
                ps@.len() == outs@.len(),
                forall|j: int| 0 <= j < ps@.len() ==> (#[trigger] ps@[j]) as nat == priority_of(vals@, outs@[j]),
                r@ == before + at_priority(outs@.subrange(0, k as int), vals@, p as nat),
            decreases outs@.len() - k,
        {
            proof {
                assert(outs@.subrange(0, k + 1).drop_last() =~= outs@.subrange(0, k as int));
            }
            if ps[k] == p {
                r.push(outs[k].duplicate());
            }
            k = k + 1;
        }
        proof {
            assert(outs@.subrange(0, outs@.len() as int) =~= outs@);
        }
        if p == vals.len() {
            break;
        }
        p = p + 1;
    }
    r
}

proof fn lemma_sum_bounded(outs: Seq<Value>)
    ensures
        -(outs.len() as int) * 0x8000_0000_0000_0000 <= sum_of(outs) <= (outs.len() as int)
            * 0x8000_0000_0000_0000,
    decreases outs.len(),
{
    if outs.len() > 0 {
        lemma_sum_bounded(outs.drop_last());
    }
}

/// Whether every output is a number.
fn numeric_outputs(outs: &Vec<Value>) -> (r: bool)
    ensures
        r == all_numeric(outs@),
{
    let mut k: usize = 0;
    while k < outs.len()
        invariant
            k <= outs@.len(),
            forall|j: int| 0 <= j < k ==> (#[trigger] outs@[j]) is Number,
        decreases outs@.len() - k,
    {
        match &outs[k] {
            Value::Number(_) => {},
            _ => {
                return false;
            },
        }
        k = k + 1;
    }
    true
}

/// The sum of numeric outputs.
fn sum_outputs(outs: &Vec<Value>) -> (r: i128)
    requires
        outs@.len() <= MAX_RULES,
    ensures
        r as int == sum_of(outs@),
{
    let mut total: i128 = 0;
    let mut k: usize = 0;
    while k < outs.len()
        invariant
            k <= outs@.len() <= MAX_RULES,
            total as int == sum_of(outs@.subrange(0, k as int)),
        decreases outs@.len() - k,
    {
        proof {
            assert(outs@.subrange(0, k + 1).drop_last() =~= outs@.subrange(0, k as int));
            lemma_sum_bounded(outs@.subrange(0, k + 1));
        }
        match &outs[k] {
            Value::Number(n) => {
                total = total + *n as i128;
            },
            _ => {},
        }
        k = k + 1;
    }
    assert(outs@.subrange(0, outs@.len() as int) =~= outs@);
    total
}

/// The smallest, or with `largest` the largest, of numeric outputs.
fn extreme_output(outs: &Vec<Value>, largest: bool) -> (r: i64)
    requires
        outs@.len() > 0,
    ensures
        r as int == extreme_of(outs@, largest),
{
    let mut best: i64 = match &outs[0] {
        Value::Number(n) => *n,
        _ => 0,
    };
    let mut k: usize = 1;
    assert(outs@.subrange(0, 1).len() == 1 && outs@.subrange(0, 1)[0] == outs@[0]);
    while k < outs.len()
        invariant
            1 <= k <= outs@.len(),
            best as int == extreme_of(outs@.subrange(0, k as int), largest),
        decreases outs@.len() - k,
    {
        proof {
            assert(outs@.subrange(0, k + 1).drop_last() =~= outs@.subrange(0, k as int));
        }
        let x: i64 = match &outs[k] {
            Value::Number(n) => *n,
            _ => 0,
        };
        if (largest && x > best) || (!largest && x < best) {
            best = x;
        }
        k = k + 1;
    }
    assert(outs@.subrange(0, outs@.len() as int) =~= outs@);
    best
}

/// Applies the collect hit policy's aggregator to the outputs.
fn aggregate_outputs(outs: Vec<Value>, a: Aggregator) -> (r: Result<Outcome, TableError>)
    requires
        outs@.len() <= MAX_RULES,
    ensures
        result_view(r) == aggregate(outs@, a),
{
    match a {
        Aggregator::List => Ok(Outcome::Multiple(outs)),
        Aggregator::Count => Ok(Outcome::Single(Value::Number(outs.len() as i64))),
        _ => {
            if !numeric_outputs(&outs) {
                Err(TableError::NonNumericAggregate)
            } else if outs.len() == 0 {
                Ok(Outcome::Single(Value::Null))
            } else {
                let r: i128 = match a {
                    Aggregator::Sum => sum_outputs(&outs),
                    Aggregator::Max => extreme_output(&outs, true) as i128,
                    _ => extreme_output(&outs, false) as i128,
                };
                if i64::MIN as i128 <= r && r <= i64::MAX as i128 {
                    Ok(Outcome::Single(Value::Number(r as i64)))
                } else {
                    Err(TableError::NumericOverflow)
                }
            }
        },
    }
}

/// Resolves the hit policy over the outputs of the matching rules, given in table order, with
/// the output values `vals` listed highest priority first.
pub fn resolve_hit_policy(outs: Vec<Value>, vals: &Vec<Value>, policy: HitPolicy) -> (r: Result<Outcome, TableError>)
    requires
        outs@.len() <= MAX_RULES,
    ensures
        result_view(r) == resolve(outs@, vals@, policy),
{
    let none = Outcome::Single(Value::Null);
    match policy {
        HitPolicy::Unique => if outs.len() == 0 {
            Ok(none)
        } else if outs.len() == 1 {
            Ok(Outcome::Single(outs[0].duplicate()))
        } else {
            Err(TableError::AmbiguousUniqueMatch)
        },
        HitPolicy::Any => if outs.len() == 0 {
            Ok(none)
        } else if all_same(&outs) {
            Ok(Outcome::Single(outs[0].duplicate()))
        } else {
            Err(TableError::DivergentAnyMatch)
        },
        HitPolicy::Priority => if outs.len() == 0 {
            Ok(none)
        } else {
            let b = best_output(&outs, vals);
            if has_priority_tie(&outs, vals, b) {
                Err(TableError::AmbiguousPriority)
            } else {
                Ok(Outcome::Single(outs[b].duplicate()))
            }
        },
        HitPolicy::First => if outs.len() == 0 {
            Ok(none)
        } else {
            Ok(Outcome::Single(outs[0].duplicate()))
        },
        HitPolicy::RuleOrder => Ok(Outcome::Multiple(outs)),
        HitPolicy::OutputOrder => Ok(Outcome::Multiple(order_by_priority(&outs, vals))),
        HitPolicy::Collect(a) => aggregate_outputs(outs, a),
    }
}

proof fn lemma_outputs_bounded(t: DecisionTable, ctx: Seq<Binding>, k: int)
    ensures
        outputs_upto(t, ctx, k).len() <= if k < 0 { 0 } else { k },
    decreases k,
{
    if k > 0 {
        lemma_outputs_bounded(t, ctx, k - 1);
    }
}

/// Evaluates the decision table in `ctx`: matches its rules, then resolves its hit policy.
pub fn evaluate(table: &DecisionTable, ctx: &Context) -> (r: Result<Outcome, TableError>)
    requires
        table.wf(),
    ensures
        result_view(r) == table_result(*table, ctx@),
{
    let outs = evaluate_matched_outputs(table, ctx);
    proof {
        lemma_outputs_bounded(*table, ctx@, table.rules@.len() as int);
    }
    resolve_hit_policy(outs, &table.output_clause.output_values, table.hit_policy)
}

/// A reusable evaluator of one decision table.
pub struct DecisionTableEvaluator {
    table: DecisionTable,
}

impl DecisionTableEvaluator {
    /// The table that this evaluator evaluates.
    pub closed spec fn table(&self) -> DecisionTable {
        self.table
    }

    /// The evaluator's table is well formed.
    pub closed spec fn wf(&self) -> bool {
        self.table.wf()
    }

    /// Evaluates the table in `ctx`.
    pub fn evaluate(&self, ctx: &Context) -> (r: Result<Outcome, TableError>)
        requires
            self.wf(),
        ensures
            result_view(r) == table_result(self.table(), ctx@),
    {
        evaluate(&self.table, ctx)
    }
}

/// Builds an evaluator of the decision table, independent of any model.
pub fn build_decision_table_evaluator(table: DecisionTable) -> (r: DecisionTableEvaluator)
    requires
        table.wf(),
    ensures
        r.table() == table,
        r.wf(),
{
    DecisionTableEvaluator { table }
}

} // verus!
