//! Evaluation core for decision models: validation of item definitions, decision tables with
//! their hit policies, and the compiled dependency graph of invocables that is evaluated per
//! request, every dependency once and before its dependents.

pub mod decision_table;
pub mod errors;
pub mod graph;
pub mod model;
pub mod tck;
pub mod types;
pub mod validator;
pub mod values;
