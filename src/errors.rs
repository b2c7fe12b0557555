//! Errors reported while validating, building and evaluating decision models.
use vstd::prelude::*;
use vstd::string::StringExecFns;

verus! {

/// A failure of a decision table's hit policy or aggregation.
#[derive(PartialEq, Eq, Structural, Clone, Copy)]
pub enum TableError {
    /// More than one rule matched under the unique hit policy.
    AmbiguousUniqueMatch,
    /// Rules that matched under the any hit policy gave different outputs.
    DivergentAnyMatch,
    /// Under the priority hit policy, different outputs share the highest priority.
    AmbiguousPriority,
    /// An aggregation met an output that is not a number.
    NonNumericAggregate,
    /// An aggregated value does not fit a 64-bit integer.
    NumericOverflow,
}

impl TableError {
    /// A readable description of the error.
    pub fn to_string(&self) -> String {
        match self {
            TableError::AmbiguousUniqueMatch => "ambiguous decision table: more than one rule matched under the unique hit policy".to_string(),
            TableError::DivergentAnyMatch => "rules matched under the any hit policy gave different outputs".to_string(),
            TableError::AmbiguousPriority => "different outputs share the highest priority under the priority hit policy".to_string(),
            TableError::NonNumericAggregate => "aggregation over a value that is not a number".to_string(),
            TableError::NumericOverflow => "aggregated value out of range".to_string(),
        }
    }
}

/// Every failure that validating, building or evaluating a model reports.
pub enum DmnError {
    /// The item definitions, through type and component references, form a cycle.
    ItemDefinitionsCycle,
    /// A type reference names neither a primitive type nor a top-level item definition.
    UnknownTypeReference(String),
    /// An invocable refers to an artifact that the model does not define.
    UnresolvedReference(String),
    /// Two invocables share one name.
    DuplicateInvocable(String),
    /// The dependencies between invocables form a cycle.
    InvocableCycle,
    /// No invocable of the requested name exists.
    NoSuchInvocable(String),
    /// The named invocable's decision table has rules whose entries do not fit its clauses.
    MalformedDecisionTable(String),
    /// The decision table of the named invocable failed.
    InvocableFailed(String, TableError),
}

fn named(prefix: &str, name: &String) -> String {
    let mut s = prefix.to_string();
    s.append(name.as_str());
    s
}

impl DmnError {
    /// A readable description of the error.
    pub fn to_string(&self) -> String {
        match self {
            DmnError::ItemDefinitionsCycle => "item definitions form a cycle".to_string(),
            DmnError::UnknownTypeReference(n) => named("unknown type reference: ", n),
            DmnError::UnresolvedReference(n) => named("unresolved reference: ", n),
            DmnError::DuplicateInvocable(n) => named("duplicate invocable: ", n),
            DmnError::InvocableCycle => "invocable dependencies form a cycle".to_string(),
            DmnError::NoSuchInvocable(n) => named("no such invocable: ", n),
            DmnError::MalformedDecisionTable(n) => named("malformed decision table in invocable: ", n),
            DmnError::InvocableFailed(n, e) => {
                let mut s = named("evaluation failed in invocable ", n);
                s.append(": ");
                let cause = e.to_string();
                s.append(cause.as_str());
                s
            },
        }
    }
}

impl DmnError {
    /// A copy of the error.
    pub fn duplicate(&self) -> (r: DmnError)
        ensures
            r == *self,
    {
        match self {
            DmnError::ItemDefinitionsCycle => DmnError::ItemDefinitionsCycle,
            DmnError::UnknownTypeReference(n) => DmnError::UnknownTypeReference(n.clone()),
            DmnError::UnresolvedReference(n) => DmnError::UnresolvedReference(n.clone()),
            DmnError::DuplicateInvocable(n) => DmnError::DuplicateInvocable(n.clone()),
            DmnError::InvocableCycle => DmnError::InvocableCycle,
            DmnError::NoSuchInvocable(n) => DmnError::NoSuchInvocable(n.clone()),
            DmnError::MalformedDecisionTable(n) => DmnError::MalformedDecisionTable(n.clone()),
            DmnError::InvocableFailed(n, e) => DmnError::InvocableFailed(n.clone(), *e),
        }
    }
}

} // verus!
