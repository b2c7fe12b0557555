//! Compiled decision models: the dependency graph of invocables, built once and then evaluated
//! per request.
use crate::decision_table::{check_table_shape, evaluate as evaluate_table, table_result, DecisionTable};
use crate::errors::DmnError;
use crate::types::{resolve_type, resolve_type_ref};
use crate::validator::Definitions;
use crate::graph::{
    add_edge, add_node, graph_edges, graph_node_count, has_cycle, is_cycle,
    new_graph, topological_order, GRAPH_CAPACITY,
};
use crate::values::{
    eval_expression, lookup, scalar_of, Binding, Context, Expression, Field, Outcome,
    OutcomeModel, Value,
};
use vstd::prelude::*;

verus! {

/// The kinds of invocable artifacts.
#[derive(PartialEq, Eq, Structural, Clone, Copy)]
pub enum InvocableKind {
    Decision,
    BusinessKnowledgeModel,
    DecisionService,
}

/// How an invocable computes its value.
pub enum Body {
    /// A boxed expression.
    Expression(Expression),
    /// A decision table.
    Table(DecisionTable),
    /// A decision service, exposing the values of the named output decisions only.
    Service(Vec<String>),
}

/// A decision, business knowledge model or decision service, as defined in a model.
pub struct Invocable {
    pub name: String,
    pub kind: InvocableKind,
    /// The declared type of its value, if any.
    pub type_ref: Option<String>,
    /// Names of the invocables and input data that it requires.
    pub requirements: Vec<String>,
    pub body: Body,
}

/// The definitions of a model.
pub struct ModelDefinitions {
    pub namespace: String,
    /// The item definitions that declared types refer to.
    pub item_definitions: Definitions,
    /// Names of the model's input data.
    pub input_data: Vec<String>,
    pub invocables: Vec<Invocable>,
}

/// Largest number of invocables that a model may hold.
pub const MAX_INVOCABLES: usize = 0xffff;

/// Largest number of requirements and service outputs of one invocable.
pub const MAX_REQUIREMENTS: usize = 0xffff;

/// The names that invocable `x` refers to: its requirements, then a service's outputs.
pub open spec fn references_of(inv: Invocable) -> Seq<Seq<char>> {
    let reqs = Seq::new(inv.requirements@.len(), |k: int| inv.requirements@[k]@);
    match inv.body {
        Body::Service(outs) => reqs + Seq::new(outs@.len(), |k: int| outs@[k]@),
        _ => reqs,
    }
}

/// The invocable `x` refers by name to the invocable `y`: `x` depends on `y`.
pub open spec fn depends_on(invs: Seq<Invocable>, x: int, y: int) -> bool {
    &&& 0 <= x < invs.len()
    &&& 0 <= y < invs.len()
    &&& references_of(invs[x]).contains(invs[y].name@)
}

/// `p` is a closed walk of dependencies: each invocable depends on the one before it.
pub open spec fn is_dependency_cycle(invs: Seq<Invocable>, p: Seq<nat>) -> bool {
    &&& p.len() >= 2
    &&& p[0] == p[p.len() - 1]
    &&& forall|k: int| 0 <= k < p.len() - 1 ==> depends_on(invs, #[trigger] p[k + 1] as int, p[k] as int)
}

/// The dependencies between the invocables form a cycle.
pub open spec fn has_dependency_cycle(invs: Seq<Invocable>) -> bool {
    exists|p: Seq<nat>| is_dependency_cycle(invs, p)
}

/// Two invocables share a name.
pub open spec fn has_duplicate_name(invs: Seq<Invocable>, name: Seq<char>) -> bool {
    exists|x: int, y: int|
        0 <= x < y < invs.len() && #[trigger] invs[x].name@ == name && #[trigger] invs[y].name@ == name
}

/// `name` is the name of an invocable or of an input data.
pub open spec fn resolvable(invs: Seq<Invocable>, input_data: Seq<String>, name: Seq<char>) -> bool {
    ||| exists|y: int| 0 <= y < invs.len() && (#[trigger] invs[y]).name@ == name
    ||| exists|k: int| 0 <= k < input_data.len() && (#[trigger] input_data[k])@ == name
}

/// An invocable refers to `name`, which is neither an invocable nor an input data.
pub open spec fn is_unresolved(d: ModelDefinitions, name: Seq<char>) -> bool {
    &&& exists|x: int| 0 <= x < d.invocables@.len() && references_of(#[trigger] d.invocables@[x]).contains(name)
    &&& forall|y: int| 0 <= y < d.invocables@.len() ==> (#[trigger] d.invocables@[y]).name@ != name
    &&& forall|k: int| 0 <= k < d.input_data@.len() ==> (#[trigger] d.input_data@[k])@ != name
}

/// The invocable's decision table, if it has one, is well formed.
pub open spec fn table_ok(inv: Invocable) -> bool {
    match inv.body {
        Body::Table(t) => t.wf(),
        _ => true,
    }
}

/// Some invocable declares the type `name`, which does not resolve.
pub open spec fn is_unknown_type(d: ModelDefinitions, name: Seq<char>) -> bool {
    &&& exists|x: int|
        0 <= x < d.invocables@.len() && (#[trigger] d.invocables@[x]).type_ref is Some
            && d.invocables@[x].type_ref->Some_0@ == name
    &&& resolve_type(d.item_definitions.item_definitions@, name, d.item_definitions.item_definitions@.len()) is None
}

/// The declared type of every invocable resolves.
pub open spec fn types_resolve(d: ModelDefinitions) -> bool {
    forall|x: int|
        0 <= x < d.invocables@.len() && (#[trigger] d.invocables@[x]).type_ref is Some ==> resolve_type(
            d.item_definitions.item_definitions@,
            d.invocables@[x].type_ref->Some_0@,
            d.item_definitions.item_definitions@.len(),
        ) is Some
}

/// The declared type of the first invocable whose type does not resolve, if any.
fn find_unknown_type(d: &ModelDefinitions) -> (r: Option<String>)
    ensures
        match r {
            Some(n) => is_unknown_type(*d, n@),
            None => types_resolve(*d),
        },
{
    let mut x: usize = 0;
    while x < d.invocables.len()
        invariant
            x <= d.invocables@.len(),
            forall|a: int|
                0 <= a < x && (#[trigger] d.invocables@[a]).type_ref is Some ==> resolve_type(
                    d.item_definitions.item_definitions@,
                    d.invocables@[a].type_ref->Some_0@,
                    d.item_definitions.item_definitions@.len(),
                ) is Some,
        decreases d.invocables@.len() - x,
    {
        if let Some(t) = &d.invocables[x].type_ref {
            if resolve_type_ref(&d.item_definitions, t).is_err() {
                return Some(t.clone());
            }
        }
        x = x + 1;
    }
    None
}

/// The named invocable's decision table is not well formed.
pub open spec fn is_malformed(invs: Seq<Invocable>, name: Seq<char>) -> bool {
    exists|x: int|
        0 <= x < invs.len() && (#[trigger] invs[x]).name@ == name && !table_ok(invs[x])
}

/// A compiled model: its invocables with their resolved dependencies, and an order of
/// evaluation in which every dependency comes first. Immutable once built.
pub struct ModelEvaluator {
    namespace: String,
    invocables: Vec<Invocable>,
    dependencies: Vec<Vec<usize>>,
    order: Vec<usize>,
    position: Vec<usize>,
}

impl ModelEvaluator {
    /// The namespace of the model.
    pub closed spec fn namespace(&self) -> Seq<char> {
        self.namespace@
    }

    /// The invocables of the model.
    pub closed spec fn invocables(&self) -> Seq<Invocable> {
        self.invocables@
    }

    /// The invocables that invocable `x` depends on, by index, in the order of its references.
    pub closed spec fn dependencies(&self, x: int) -> Seq<usize> {
        self.dependencies@[x]@
    }

    /// The place of invocable `x` in the order of evaluation.
    pub closed spec fn position(&self, x: int) -> nat {
        self.position@[x] as nat
    }

    /// Each table of the evaluator has one entry per invocable.
    pub closed spec fn shape_ok(&self) -> bool {
        &&& self.dependencies@.len() == self.invocables@.len()
        &&& self.position@.len() == self.invocables@.len()
        &&& self.order@.len() == self.invocables@.len()
    }

    /// The invocable in place `i` of the order of evaluation.
    pub closed spec fn order(&self) -> Seq<usize> {
        self.order@
    }

    /// Names are distinct; dependencies are exactly the invocables referred to; places in the
    /// order of evaluation are a permutation, dependencies first; tables are well formed.
    pub open spec fn wf(&self) -> bool {
        let invs = self.invocables();
        let n = invs.len();
        &&& n <= MAX_INVOCABLES
        &&& self.shape_ok()
        &&& forall|x: int, y: int|
            0 <= x < n && 0 <= y < n && x != y ==> (#[trigger] invs[x]).name@ != (#[trigger] invs[y]).name@
        &&& self.order().len() == n
        &&& forall|i: int| 0 <= i < n ==> (#[trigger] self.order()[i]) < n && self.position(self.order()[i] as int) == i
        &&& forall|x: int| 0 <= x < n ==> #[trigger] self.position(x) < n && self.order()[self.position(x) as int] == x
        &&& forall|x: int, k: int|
            0 <= x < n && 0 <= k < self.dependencies(x).len() ==> {
                &&& (#[trigger] self.dependencies(x)[k]) < n
                &&& self.position(self.dependencies(x)[k] as int) < self.position(x)
                &&& depends_on(invs, x, self.dependencies(x)[k] as int)
            }
        &&& forall|x: int, y: int|
            #[trigger] depends_on(invs, x, y) ==> self.dependencies(x).contains(y as usize)
        &&& forall|x: int|
            0 <= x < n ==> table_ok(#[trigger] invs[x])
    }
}

impl ModelEvaluator {
    /// The order in which a request for invocable `t` evaluates: the dependency closure of `t`,
    /// each invocable once, every dependency before its dependents, `t` last.
    #[verifier::spinoff_prover]
    pub fn evaluation_order(&self, t: usize) -> (r: Vec<usize>)
        requires
            self.wf(),
            t < self.invocables().len(),
        ensures
            is_evaluation_order(*self, t as int, r@),
    {
        let n = self.invocables.len();
        let pt = self.position[t];
        assert(pt == self.position(t as int));
        let mut needed: Vec<bool> = Vec::new();
        let mut i: usize = 0;
        while i < n
            invariant
                i <= n,
                needed@.len() == i,
                forall|y: int| 0 <= y < i ==> !needed@[y],
            decreases n - i,
        {
            needed.push(false);
            i = i + 1;
        }
        needed.set(t, true);
        let mut k: usize = pt + 1;
        while k > 0
            invariant
                self.wf(),
                n == self.invocables().len(),
                t < n,
                pt == self.position(t as int),
                k <= pt + 1,
                needed@.len() == n,
                needed@[t as int],
                forall|y: int| 0 <= y < n && #[trigger] needed@[y] ==> self.position(y) <= pt,
                forall|y: int, j: int|
                    0 <= y < n && needed@[y] && self.position(y) >= k && 0 <= j < self.dependencies(y).len()
                        ==> needed@[#[trigger] self.dependencies(y)[j] as int],
            decreases k,
        {
            k = k - 1;
            let x = self.order[k];
            if needed[x] {
                let ds = &self.dependencies[x];
                let mut j: usize = 0;
                while j < ds.len()
                    invariant
                        self.wf(),
                        n == self.invocables().len(),
                        t < n,
                        pt == self.position(t as int),
                        k <= pt,
                        x < n,
                        self.position(x as int) == k,
                        *ds == self.dependencies@[x as int],
                        j <= ds@.len(),
                        needed@.len() == n,
                        needed@[t as int],
                        needed@[x as int],
                        forall|y: int| 0 <= y < n && #[trigger] needed@[y] ==> self.position(y) <= pt,
                        forall|y: int, i: int|
                            0 <= y < n && needed@[y] && self.position(y) >= k + 1 && 0 <= i < self.dependencies(y).len()
                                ==> needed@[#[trigger] self.dependencies(y)[i] as int],
                        forall|i: int| 0 <= i < j ==> needed@[#[trigger] ds@[i] as int],
                    decreases ds@.len() - j,
                {
                    assert(self.dependencies(x as int)[j as int] == ds@[j as int]);
                    needed.set(ds[j], true);
                    j = j + 1;
                }
                proof {
                    assert forall|y: int, i: int|
                        0 <= y < n && needed@[y] && self.position(y) >= k && 0 <= i < self.dependencies(y).len()
                            implies needed@[#[trigger] self.dependencies(y)[i] as int] by {
                        if self.position(y) == k {
                            assert(self.order()[self.position(y) as int] == y);
                            assert(y == x);
                            assert(ds@[i] == self.dependencies(y)[i]);
                        }
                    }
                }
            } else {
                proof {
                    assert forall|y: int, i: int|
                        0 <= y < n && needed@[y] && self.position(y) >= k && 0 <= i < self.dependencies(y).len()
                            implies needed@[#[trigger] self.dependencies(y)[i] as int] by {
                        if self.position(y) == k {
                            assert(self.order()[self.position(y) as int] == y);
                        }
                    }
                }
            }
        }
        let mut r: Vec<usize> = Vec::new();
        let mut i: usize = 0;
        while i <= pt
            invariant
                self.wf(),
                n == self.invocables().len(),
                t < n,
                pt == self.position(t as int),
                i <= pt + 1,
                needed@.len() == n,
                needed@[t as int],
                forall|y: int| 0 <= y < n && #[trigger] needed@[y] ==> self.position(y) <= pt,
                forall|y: int, j: int|
                    0 <= y < n && needed@[y] && 0 <= j < self.dependencies(y).len()
                        ==> needed@[#[trigger] self.dependencies(y)[j] as int],
                forall|a: int| 0 <= a < r@.len() ==> (#[trigger] r@[a]) < n && needed@[r@[a] as int]
                    && self.position(r@[a] as int) < i,
                forall|a: int, b: int|
                    #![trigger r@[a], r@[b]]
                    0 <= a < b < r@.len() ==> self.position(r@[a] as int) < self.position(r@[b] as int),
                forall|y: int| 0 <= y < n && needed@[y] && self.position(y) < i ==> #[trigger] r@.contains(y as usize),
                r@.len() > 0 ==> r@.last() == self.order()[i - 1] || self.position(r@.last() as int) < i,
            decreases pt + 1 - i,
        {
            let x = self.order[i];
            if needed[x] {
                let ghost before = r@;
                r.push(x);
                proof {
                    assert forall|y: int| 0 <= y < n && needed@[y] && self.position(y) < i + 1 implies #[trigger] r@.contains(y as usize) by {
                        if self.position(y) == i {
                            assert(self.order()[self.position(y) as int] == y);
                            assert(r@[r@.len() - 1] == x);
                        } else {
                            assert(before.contains(y as usize));
                            let w = choose|w: int| 0 <= w < before.len() && before[w] == y as usize;
                            assert(r@[w] == y as usize);
                        }
                    }
                }
            } else {
                proof {
                    assert forall|y: int| 0 <= y < n && needed@[y] && self.position(y) < i + 1 implies #[trigger] r@.contains(y as usize) by {
                        if self.position(y) == i {
                            assert(self.order()[self.position(y) as int] == y);
                        }
                    }
                }
            }
            i = i + 1;
        }
        proof {
            assert(r@.contains(t as usize));
            let w = choose|w: int| 0 <= w < r@.len() && r@[w] == t;
            if w < r@.len() - 1 {
                assert(self.position(r@[w] as int) < self.position(r@[r@.len() - 1] as int));
                assert(self.position(r@[r@.len() - 1] as int) <= pt);
            }
            assert forall|a: int, k: int|
                0 <= a < r@.len() && 0 <= k < self.dependencies(r@[a] as int).len() implies r@.subrange(
                    0,
                    a,
                ).contains(#[trigger] self.dependencies(r@[a] as int)[k]) by {
                let d = self.dependencies(r@[a] as int)[k];
                assert(needed@[d as int]);
                assert(self.position(d as int) < self.position(r@[a] as int));
                assert(d < n);
                assert(self.position(d as int) <= pt);
                assert(r@.contains((d as int) as usize));
                assert(r@.contains(d));
                let j = choose|j: int| 0 <= j < r@.len() && r@[j] == d;
                if j >= a {
                    if j > a {
                        assert(self.position(r@[a] as int) < self.position(r@[j] as int));
                    }
                }
                assert(j < a);
                assert(r@.subrange(0, a)[j] == d);
            }
        }
        r
    }

    /// Evaluates invocable `x`, given the results of all of its dependencies.
    #[verifier::spinoff_prover]
    fn evaluate_node(
        &self,
        x: usize,
        results: &Vec<Option<Result<Outcome, DmnError>>>,
        input: &Context,
    ) -> (r: Result<Outcome, DmnError>)
        requires
            self.wf(),
            x < self.invocables().len(),
            results@.len() == self.invocables().len(),
            forall|k: int|
                0 <= k < self.dependencies(x as int).len() ==> {
                    let d = #[trigger] self.dependencies(x as int)[k];
                    &&& results@[d as int] is Some
                    &&& model_view(results@[d as int]->Some_0) == value_of(*self, d as int, input@)
                },
        ensures
            model_view(r) == value_of(*self, x as int, input@),
    {
        let ds = &self.dependencies[x];
        let ghost rs = dependency_results(*self, x as int, input@);
        assert(*ds == self.dependencies@[x as int]);
        assert forall|k: int| 0 <= k < ds@.len() implies #[trigger] rs[k] == model_view(results@[ds@[k] as int]->Some_0) by {
            assert(self.dependencies(x as int)[k] == ds@[k]);
        }
        let mut k: usize = 0;
        while k < ds.len()
            invariant
                self.wf(),
                x < self.invocables().len(),
                rs == dependency_results(*self, x as int, input@),
                *ds == self.dependencies@[x as int],
                rs.len() == ds@.len(),
                results@.len() == self.invocables().len(),
                forall|j: int| 0 <= j < ds@.len() ==> (#[trigger] ds@[j]) < self.invocables().len(),
                forall|j: int| 0 <= j < ds@.len() ==> results@[(#[trigger] ds@[j]) as int] is Some,
                forall|j: int| 0 <= j < ds@.len() ==> #[trigger] rs[j] == model_view(results@[ds@[j] as int]->Some_0),
                k <= ds@.len(),
                forall|j: int| 0 <= j < k ==> (#[trigger] rs[j]) is Ok,
            decreases ds@.len() - k,
        {
            if let Some(Err(e)) = &results[ds[k]] {
                proof {
                    assert(rs[k as int] == model_view(results@[ds@[k as int] as int]->Some_0));
                    assert(rs[k as int] == Err::<OutcomeModel, DmnError>(*e));
                    lemma_first_error_at(rs, k as int);
                    assert(rs == dependency_results(*self, x as int, input@));
                    assert(value_of(*self, x as int, input@) == Err::<OutcomeModel, DmnError>(*e));
                }
                return Err(e.duplicate());
            }
            assert(rs[k as int] is Ok);
            k = k + 1;
        }
        proof {
            lemma_no_error(rs);
        }
        let ghost bindings = Seq::new(ds@.len(), |k: int| (self.invocables()[ds@[k] as int].name@, rs[k]->Ok_0));
        assert(invocable_context(*self, x as int, input@, rs) == input@ + bindings);
        let mut ctx = input.duplicate();
        let mut k: usize = 0;
        while k < ds.len()
            invariant
                self.wf(),
                x < self.invocables().len(),
                rs == dependency_results(*self, x as int, input@),
                *ds == self.dependencies@[x as int],
                rs.len() == ds@.len(),
                results@.len() == self.invocables().len(),
                forall|j: int| 0 <= j < ds@.len() ==> (#[trigger] ds@[j]) < self.invocables().len(),
                forall|j: int| 0 <= j < ds@.len() ==> results@[(#[trigger] ds@[j]) as int] is Some,
                forall|j: int| 0 <= j < ds@.len() ==> #[trigger] rs[j] == model_view(results@[ds@[j] as int]->Some_0),
                forall|j: int| 0 <= j < ds@.len() ==> (#[trigger] rs[j]) is Ok,
                bindings == Seq::new(ds@.len(), |k: int| (self.invocables()[ds@[k] as int].name@, rs[k]->Ok_0)),
                k <= ds@.len(),
                ctx@ == input@ + bindings.subrange(0, k as int),
            decreases ds@.len() - k,
        {
            let d = ds[k];
            if let Some(Ok(o)) = &results[d] {
                ctx.set_entry(&self.invocables[d].name, o.duplicate());
                assert(ctx@ =~= input@ + bindings.subrange(0, k + 1));
            } else {
                assert(rs[k as int] is Ok);
            }
            k = k + 1;
        }
        assert(bindings.subrange(0, ds@.len() as int) =~= bindings);
        let inv = &self.invocables[x];
        match &inv.body {
            Body::Expression(e) => Ok(e.evaluate(&ctx)),
            Body::Table(t) => {
                assert(table_ok(self.invocables()[x as int]));
                match evaluate_table(t, &ctx) {
                    Ok(o) => Ok(o),
                    Err(e) => Err(DmnError::InvocableFailed(inv.name.clone(), e)),
                }
            },
            Body::Service(outs) => Ok(Outcome::Record(service_record(outs, &ctx))),
        }
    }

    /// Evaluates the invocable `name` of the model in `namespace` on the caller's input. Each
    /// invocable of its dependency closure is evaluated once, dependencies first.
    #[verifier::spinoff_prover]
    #[verifier::rlimit(50)]
    pub fn evaluate_invocable(&self, namespace: &String, name: &String, input: &Context) -> (r: Result<Outcome, DmnError>)
        requires
            self.wf(),
        ensures
            namespace@ != self.namespace() || (forall|x: int|
                0 <= x < self.invocables().len() ==> (#[trigger] self.invocables()[x]).name@ != name@)
                ==> (r matches Err(DmnError::NoSuchInvocable(n)) && n@ == name@),
            forall|x: int|
                0 <= x < self.invocables().len() && (#[trigger] self.invocables()[x]).name@ == name@
                    && namespace@ == self.namespace() ==> model_view(r) == value_of(*self, x, input@),
    {
        if self.namespace != *namespace {
            return Err(DmnError::NoSuchInvocable(name.clone()));
        }
        let t = match find_invocable(&self.invocables, name) {
            Some(t) => t,
            None => {
                return Err(DmnError::NoSuchInvocable(name.clone()));
            },
        };
        let n = self.invocables.len();
        let order = self.evaluation_order(t);
        proof {
            lemma_evaluation_order_distinct(*self, t as int, order@);
        }
        let mut results: Vec<Option<Result<Outcome, DmnError>>> = Vec::new();
        let mut i: usize = 0;
        while i < n
            invariant
                i <= n,
                results@.len() == i,
            decreases n - i,
        {
            results.push(None);
            i = i + 1;
        }
        let mut i: usize = 0;
        while i < order.len()
            invariant
                self.wf(),
                n == self.invocables().len(),
                t < n,
                is_evaluation_order(*self, t as int, order@),
                order@.no_duplicates(),
                self.invocables()[t as int].name@ == name@,
                namespace@ == self.namespace(),
                results@.len() == n,
                i < order@.len(),
                forall|j: int|
                    0 <= j < i ==> {
                        let y = #[trigger] order@[j];
                        &&& results@[y as int] is Some
                        &&& model_view(results@[y as int]->Some_0) == value_of(*self, y as int, input@)
                    },
            decreases order@.len() - i,
        {
            let x = order[i];
            proof {
                assert forall|k: int| 0 <= k < self.dependencies(x as int).len() implies {
                    let d = #[trigger] self.dependencies(x as int)[k];
                    &&& results@[d as int] is Some
                    &&& model_view(results@[d as int]->Some_0) == value_of(*self, d as int, input@)
                } by {
                    let d = self.dependencies(x as int)[k];
                    assert(order@.subrange(0, i as int).contains(d));
                    let j = choose|j: int| 0 <= j < i && order@.subrange(0, i as int)[j] == d;
                    assert(order@[j] == d);
                }
            }
            let r = self.evaluate_node(x, &results, input);
            if i + 1 == order.len() {
                assert(x == t);
                assert(self.invocables()[t as int].name@ == name@);
                return r;
            }
            results.set(x, Some(r));
            proof {
                assert forall|j: int| 0 <= j < i + 1 implies {
                    let y = #[trigger] order@[j];
                    &&& results@[y as int] is Some
                    &&& model_view(results@[y as int]->Some_0) == value_of(*self, y as int, input@)
                } by {
                    if j < i {
                        assert(order@[j] != order@[i as int]);
                    }
                }
            }
            i = i + 1;
        }
        Err(DmnError::NoSuchInvocable(name.clone()))
    }

    /// Compiles validated definitions into an evaluator. Fails on two invocables of one name, on
    /// a reference that names neither an invocable nor an input data, on a decision table whose
    /// rules do not fit its clauses, on a declared type that does not resolve, and on a cycle of
    /// dependencies.
    #[verifier::spinoff_prover]
    #[verifier::rlimit(100)]
    pub fn build(definitions: ModelDefinitions) -> (r: Result<ModelEvaluator, DmnError>)
        requires
            definitions.invocables@.len() <= MAX_INVOCABLES,
            forall|x: int|
                0 <= x < definitions.invocables@.len() ==> references_of(#[trigger] definitions.invocables@[x]).len()
                    <= MAX_REQUIREMENTS,
        ensures
            match r {
                Ok(m) => {
                    &&& m.wf()
                    &&& m.namespace() == definitions.namespace@
                    &&& m.invocables() == definitions.invocables@
                    &&& !has_dependency_cycle(definitions.invocables@)
                    &&& forall|n: Seq<char>| !#[trigger] is_unresolved(definitions, n)
                    &&& types_resolve(definitions)
                },
                Err(DmnError::UnknownTypeReference(n)) => is_unknown_type(definitions, n@),
                Err(DmnError::DuplicateInvocable(n)) => has_duplicate_name(definitions.invocables@, n@),
                Err(DmnError::UnresolvedReference(n)) => is_unresolved(definitions, n@),
                Err(DmnError::MalformedDecisionTable(n)) => is_malformed(definitions.invocables@, n@),
                Err(DmnError::InvocableCycle) => has_dependency_cycle(definitions.invocables@),
                Err(_) => false,
            },
    {
        let ghost invs = definitions.invocables@;
        if let Some(n) = find_duplicate(&definitions.invocables) {
            return Err(DmnError::DuplicateInvocable(n));
        }
        let deps = match resolve_dependencies(&definitions) {
            Ok(deps) => deps,
            Err(n) => {
                return Err(DmnError::UnresolvedReference(n));
            },
        };
        if let Some(n) = find_malformed(&definitions.invocables) {
            return Err(DmnError::MalformedDecisionTable(n));
        }
        if let Some(n) = find_unknown_type(&definitions) {
            return Err(DmnError::UnknownTypeReference(n));
        }
        let g = dependency_graph(&deps, Ghost(invs));
        proof {
            let edges = graph_edges(g);
            if has_cycle(edges) {
                let p = choose|p: Seq<nat>| is_cycle(edges, p);
                assert forall|k: int| 0 <= k < p.len() - 1 implies depends_on(invs, #[trigger] p[k + 1] as int, p[k] as int) by {
                    assert(edges.contains((p[k], p[k + 1])));
                }
                assert(is_dependency_cycle(invs, p));
            }
            if has_dependency_cycle(invs) {
                let p = choose|p: Seq<nat>| is_dependency_cycle(invs, p);
                assert forall|k: int| 0 <= k < p.len() - 1 implies edges.contains((#[trigger] p[k], p[k + 1])) by {
                    assert(depends_on(invs, p[k + 1] as int, p[k] as int));
                }
                assert(is_cycle(edges, p));
            }
        }
        let order = match topological_order(&g) {
            Some(order) => order,
            None => {
                return Err(DmnError::InvocableCycle);
            },
        };
        let n = definitions.invocables.len();
        let position = positions_of(&order);
        proof {
            lemma_permutation_covers(order@, n as nat);
        }
        let m = ModelEvaluator {
            namespace: definitions.namespace,
            invocables: definitions.invocables,
            dependencies: deps,
            order,
            position,
        };
        proof {
            let edges = graph_edges(g);
            assert forall|x: int| 0 <= x < n implies #[trigger] m.position(x) < n && m.order()[m.position(x) as int] == x by {
                assert(order@.contains(x as usize));
                let i = choose|i: int| 0 <= i < order@.len() && order@[i] == x as usize;
                assert(position@[order@[i] as int] == i);
            }
            assert forall|x: int, k: int|
                0 <= x < n && 0 <= k < m.dependencies(x).len() implies {
                    &&& (#[trigger] m.dependencies(x)[k]) < n
                    &&& m.position(m.dependencies(x)[k] as int) < m.position(x)
                    &&& depends_on(invs, x, m.dependencies(x)[k] as int)
                } by {
                let d = deps@[x]@[k];
                assert(depends_on(invs, x, d as int));
                assert(edges.contains((d as nat, x as nat)));
                let a = position@[d as int] as int;
                let b = position@[x] as int;
                assert(order@.contains(d));
                let ia = choose|i: int| 0 <= i < order@.len() && order@[i] == d;
                assert(position@[order@[ia] as int] == ia);
                assert(order@.contains(x as usize));
                let ib = choose|i: int| 0 <= i < order@.len() && order@[i] == x as usize;
                assert(position@[order@[ib] as int] == ib);
                assert(edges.contains((order@[ia] as nat, order@[ib] as nat)));
            }
        }
        Ok(m)
    }
}

/// The first error among the results, if any.
pub open spec fn first_error(rs: Seq<Result<OutcomeModel, DmnError>>) -> Option<DmnError>
    decreases rs.len(),
{
    if rs.len() == 0 {
        None
    } else if rs[0] is Err {
        Some(rs[0]->Err_0)
    } else {
        first_error(rs.drop_first())
    }
}

/// What an invocable's body yields in the context `ctx`. A table's failure names the invocable.
pub open spec fn body_value(inv: Invocable, ctx: Seq<Binding>) -> Result<OutcomeModel, DmnError> {
    match inv.body {
        Body::Expression(e) => Ok(eval_expression(e, ctx)),
        Body::Table(t) => match table_result(t, ctx) {
            Ok(o) => Ok(o),
            Err(e) => Err(DmnError::InvocableFailed(inv.name, e)),
        },
        Body::Service(outs) => Ok(
            OutcomeModel::Record(
                Seq::new(outs@.len(), |k: int| (outs@[k]@, scalar_of(lookup(ctx, outs@[k]@)))),
            ),
        ),
    }
}

/// The results of the dependencies of invocable `x`, in the order of its references.
pub open spec fn dependency_results(m: ModelEvaluator, x: int, input: Seq<Binding>) -> Seq<Result<OutcomeModel, DmnError>>
    decreases m.position(x), 0nat,
{
    let ds = m.dependencies(x);
    Seq::new(
        ds.len(),
        |k: int|
            if m.position(ds[k] as int) < m.position(x) {
                value_of(m, ds[k] as int, input)
            } else {
                Ok(OutcomeModel::Single(Value::Null))
            },
    )
}

/// The context in which invocable `x` is evaluated: the caller's input, then each dependency's
/// name bound to its outcome. A dependency thus hides any input of the same name.
pub open spec fn invocable_context(m: ModelEvaluator, x: int, input: Seq<Binding>, rs: Seq<Result<OutcomeModel, DmnError>>) -> Seq<Binding> {
    let ds = m.dependencies(x);
    input + Seq::new(ds.len(), |k: int| (m.invocables()[ds[k] as int].name@, rs[k]->Ok_0))
}

/// The result of evaluating invocable `x` on the caller's input: the first failure among its
/// dependencies, or else its body's value in its context.
pub open spec fn value_of(m: ModelEvaluator, x: int, input: Seq<Binding>) -> Result<OutcomeModel, DmnError>
    decreases m.position(x), 1nat,
{
    let rs = dependency_results(m, x, input);
    match first_error(rs) {
        Some(e) => Err(e),
        None => body_value(m.invocables()[x], invocable_context(m, x, input, rs)),
    }
}

/// The view of an evaluation result.
pub open spec fn model_view(r: Result<Outcome, DmnError>) -> Result<OutcomeModel, DmnError> {
    match r {
        Ok(o) => Ok(o@),
        Err(e) => Err(e),
    }
}

/// `order` evaluates `t` last, each invocable at most once and after all of its dependencies,
/// which it holds too.
pub open spec fn is_evaluation_order(m: ModelEvaluator, t: int, order: Seq<usize>) -> bool {
    &&& order.len() >= 1
    &&& order.last() == t
    &&& forall|i: int| 0 <= i < order.len() ==> (#[trigger] order[i]) < m.invocables().len()
    &&& forall|i: int, j: int|
        #![trigger order[i], order[j]]
        0 <= i < j < order.len() ==> m.position(order[i] as int) < m.position(order[j] as int)
    &&& forall|i: int, k: int|
        0 <= i < order.len() && 0 <= k < m.dependencies(order[i] as int).len() ==> order.subrange(
            0,
            i,
        ).contains(#[trigger] m.dependencies(order[i] as int)[k])
}

/// Each invocable of an evaluation order appears in it once.
pub proof fn lemma_evaluation_order_distinct(m: ModelEvaluator, t: int, order: Seq<usize>)
    requires
        m.wf(),
        is_evaluation_order(m, t, order),
    ensures
        order.no_duplicates(),
{
    assert forall|i: int, j: int| 0 <= i < order.len() && 0 <= j < order.len() && i != j implies order[i]
        != order[j] by {
        if i < j {
            assert(m.position(order[i] as int) < m.position(order[j] as int));
        } else {
            assert(m.position(order[j] as int) < m.position(order[i] as int));
        }
    }
}

proof fn lemma_first_error_at(rs: Seq<Result<OutcomeModel, DmnError>>, k: int)
    requires
        0 <= k < rs.len(),
        forall|j: int| 0 <= j < k ==> (#[trigger] rs[j]) is Ok,
        rs[k] is Err,
    ensures
        first_error(rs) == Some(rs[k]->Err_0),
    decreases k,
{
    if k > 0 {
        lemma_first_error_at(rs.drop_first(), k - 1);
    }
}

proof fn lemma_no_error(rs: Seq<Result<OutcomeModel, DmnError>>)
    requires
        forall|j: int| 0 <= j < rs.len() ==> (#[trigger] rs[j]) is Ok,
    ensures
        first_error(rs) is None,
    decreases rs.len(),
{
    if rs.len() > 0 {
        lemma_no_error(rs.drop_first());
    }
}

/// The record of a decision service: each output name with the single value bound to it.
fn service_record(outs: &Vec<String>, ctx: &Context) -> (r: Vec<Field>)
    ensures
        crate::values::fields_view(r@) == Seq::new(outs@.len(), |k: int| (outs@[k]@, scalar_of(lookup(ctx@, outs@[k]@)))),
{
    let mut r: Vec<Field> = Vec::new();
    let mut k: usize = 0;
    while k < outs.len()
        invariant
            k <= outs@.len(),
            r@.len() == k,
            forall|j: int| 0 <= j < k ==> (#[trigger] r@[j]).name@ == outs@[j]@ && r@[j].value == scalar_of(lookup(ctx@, outs@[j]@)),
        decreases outs@.len() - k,
    {
        let value = match ctx.get_entry(&outs[k]) {
            Outcome::Single(v) => v,
            _ => Value::Null,
        };
        r.push(Field { name: outs[k].clone(), value });
        k = k + 1;
    }
    assert(crate::values::fields_view(r@) =~= Seq::new(outs@.len(), |k: int| (outs@[k]@, scalar_of(lookup(ctx@, outs@[k]@)))));
    r
}

proof fn lemma_all_ok(rs: Seq<Result<OutcomeModel, DmnError>>)
    requires
        first_error(rs) is None,
    ensures
        forall|j: int| 0 <= j < rs.len() ==> (#[trigger] rs[j]) is Ok,
    decreases rs.len(),
{
    if rs.len() > 0 {
        lemma_all_ok(rs.drop_first());
        assert forall|j: int| 0 <= j < rs.len() implies (#[trigger] rs[j]) is Ok by {
            if j > 0 {
                assert(rs[j] == rs.drop_first()[j - 1]);
            }
        }
    }
}

proof fn lemma_lookup_in_suffix(a: Seq<Binding>, b: Seq<Binding>, name: Seq<char>, v: OutcomeModel)
    requires
        exists|k: int| 0 <= k < b.len() && (#[trigger] b[k]).0 == name,
        forall|k: int| 0 <= k < b.len() && (#[trigger] b[k]).0 == name ==> b[k].1 == v,
    ensures
        lookup(a + b, name) == v,
    decreases b.len(),
{
    let ab = a + b;
    assert(ab.last() == b.last());
    if b.last().0 != name {
        let k = choose|k: int| 0 <= k < b.len() && (#[trigger] b[k]).0 == name;
        let b2 = b.drop_last();
        assert(b2[k] == b[k]);
        assert forall|j: int| 0 <= j < b2.len() && (#[trigger] b2[j]).0 == name implies b2[j].1 == v by {
            assert(b2[j] == b[j]);
        }
        lemma_lookup_in_suffix(a, b2, name, v);
        assert(ab.drop_last() =~= a + b2);
    }
}

/// A decision service returns a record of exactly its output decisions, in their order; the
/// value of each output that names an invocable is that invocable's own evaluated value, never
/// a binding of the caller's input.
pub proof fn lemma_service_encapsulation(m: ModelEvaluator, s: int, input: Seq<Binding>)
    requires
        m.wf(),
        0 <= s < m.invocables().len(),
        m.invocables()[s].body is Service,
        value_of(m, s, input) is Ok,
    ensures
        ({
            let outs = m.invocables()[s].body->Service_0@;
            &&& value_of(m, s, input)->Ok_0 is Record
            &&& value_of(m, s, input)->Ok_0->Record_0.len() == outs.len()
            &&& forall|k: int|
                0 <= k < outs.len() ==> (#[trigger] value_of(m, s, input)->Ok_0->Record_0[k]).0
                    == outs[k]@
            &&& forall|k: int, d: int|
                0 <= k < outs.len() && 0 <= d < m.invocables().len() && (#[trigger] m.invocables()[d]).name@
                    == (#[trigger] outs[k])@ ==> value_of(m, d, input) is Ok
                    && value_of(m, s, input)->Ok_0->Record_0[k].1 == scalar_of(value_of(m, d, input)->Ok_0)
        }),
{
    let outs = m.invocables()[s].body->Service_0@;
    let rs = dependency_results(m, s, input);
    let ds = m.dependencies(s);
    lemma_all_ok(rs);
    let ctx = invocable_context(m, s, input, rs);
    let bindings = Seq::new(ds.len(), |k: int| (m.invocables()[ds[k] as int].name@, rs[k]->Ok_0));
    assert(ctx == input + bindings);
    assert forall|k: int, d: int|
        0 <= k < outs.len() && 0 <= d < m.invocables().len() && (#[trigger] m.invocables()[d]).name@
            == (#[trigger] outs[k])@ implies value_of(m, d, input) is Ok
            && value_of(m, s, input)->Ok_0->Record_0[k].1 == scalar_of(value_of(m, d, input)->Ok_0) by {
        let refs = references_of(m.invocables()[s]);
        let nreq = m.invocables()[s].requirements@.len();
        assert(refs[nreq + k] == outs[k]@);
        assert(depends_on(m.invocables(), s, d));
        assert(ds.contains(d as usize));
        let q = choose|q: int| 0 <= q < ds.len() && ds[q] == d as usize;
        assert(rs[q] is Ok);
        assert(m.position(d) < m.position(s));
        assert(rs[q] == value_of(m, d, input));
        assert(bindings[q].0 == outs[k]@);
        assert forall|j: int| 0 <= j < bindings.len() && (#[trigger] bindings[j]).0 == outs[k]@ implies bindings[j].1
            == rs[q]->Ok_0 by {
            let e = ds[j] as int;
            assert(m.invocables()[e].name@ == m.invocables()[d].name@);
            assert(e == d);
        }
        lemma_lookup_in_suffix(input, bindings, outs[k]@, rs[q]->Ok_0);
    }
}

/// The index of the invocable named `name` among `invs`, if any.
fn find_invocable(invs: &Vec<Invocable>, name: &String) -> (r: Option<usize>)
    ensures
        match r {
            Some(k) => k < invs@.len() && invs@[k as int].name@ == name@,
            None => forall|j: int| 0 <= j < invs@.len() ==> (#[trigger] invs@[j]).name@ != name@,
        },
{
    let mut k: usize = 0;
    while k < invs.len()
        invariant
            k <= invs@.len(),
            forall|j: int| 0 <= j < k ==> (#[trigger] invs@[j]).name@ != name@,
        decreases invs@.len() - k,
    {
        if invs[k].name == *name {
            return Some(k);
        }
        k = k + 1;
    }
    None
}

/// Whether `name` is among `names`.
fn contains_name(names: &Vec<String>, name: &String) -> (r: bool)
    ensures
        r == exists|k: int| 0 <= k < names@.len() && (#[trigger] names@[k])@ == name@,
{
    let mut k: usize = 0;
    while k < names.len()
        invariant
            k <= names@.len(),
            forall|j: int| 0 <= j < k ==> (#[trigger] names@[j])@ != name@,
        decreases names@.len() - k,
    {
        if names[k] == *name {
            assert(names@[k as int]@ == name@);
            return true;
        }
        k = k + 1;
    }
    false
}

/// The name of a pair of invocables that share one, if any.
fn find_duplicate(invs: &Vec<Invocable>) -> (r: Option<String>)
    ensures
        match r {
            Some(n) => has_duplicate_name(invs@, n@),
            None => forall|x: int, y: int|
                0 <= x < invs@.len() && 0 <= y < invs@.len() && x != y ==> (#[trigger] invs@[x]).name@
                    != (#[trigger] invs@[y]).name@,
        },
{
    let mut y: usize = 0;
    while y < invs.len()
        invariant
            y <= invs@.len(),
            forall|a: int, b: int|
                0 <= a < y && 0 <= b < y && a != b ==> (#[trigger] invs@[a]).name@ != (#[trigger] invs@[b]).name@,
        decreases invs@.len() - y,
    {
        let mut x: usize = 0;
        while x < y
            invariant
                y < invs@.len(),
                x <= y,
                forall|a: int, b: int|
                    0 <= a < y && 0 <= b < y && a != b ==> (#[trigger] invs@[a]).name@ != (#[trigger] invs@[b]).name@,
                forall|a: int| 0 <= a < x ==> (#[trigger] invs@[a]).name@ != invs@[y as int].name@,
            decreases y - x,
        {
            if invs[x].name == invs[y].name {
                assert(invs@[x as int].name@ == invs@[y as int].name@);
                return Some(invs[y].name.clone());
            }
            x = x + 1;
        }
        y = y + 1;
    }
    None
}

#[verifier::spinoff_prover]
/// Appends to `deps` the invocables that `names` refer to, skipping input data. Fails with the
/// first name that is neither.
fn resolve_names(
    invs: &Vec<Invocable>,
    input_data: &Vec<String>,
    names: &Vec<String>,
    deps: &mut Vec<usize>,
) -> (r: Result<(), String>)
    requires
        forall|x: int, y: int|
            0 <= x < invs@.len() && 0 <= y < invs@.len() && x != y ==> (#[trigger] invs@[x]).name@
                != (#[trigger] invs@[y]).name@,
    ensures
        match r {
            Ok(()) => {
                &&& final(deps)@.len() >= old(deps)@.len()
                &&& forall|k: int| 0 <= k < old(deps)@.len() ==> final(deps)@[k] == old(deps)@[k]
                &&& forall|k: int|
                    old(deps)@.len() <= k < final(deps)@.len() ==> (#[trigger] final(deps)@[k]) < invs@.len()
                        && exists|j: int| 0 <= j < names@.len() && (#[trigger] names@[j])@ == invs@[final(deps)@[k] as int].name@
                &&& forall|j: int, y: int|
                    0 <= j < names@.len() && 0 <= y < invs@.len() && (#[trigger] names@[j])@
                        == (#[trigger] invs@[y]).name@ ==> final(deps)@.contains(y as usize)
                &&& final(deps)@.len() <= old(deps)@.len() + names@.len()
                &&& forall|j: int| 0 <= j < names@.len() ==> resolvable(invs@, input_data@, (#[trigger] names@[j])@)
            },
            Err(n) => {
                &&& exists|j: int| 0 <= j < names@.len() && (#[trigger] names@[j])@ == n@
                &&& forall|y: int| 0 <= y < invs@.len() ==> (#[trigger] invs@[y]).name@ != n@
                &&& forall|k: int| 0 <= k < input_data@.len() ==> (#[trigger] input_data@[k])@ != n@
            },
        },
{
    let ghost start = deps@;
    let mut j: usize = 0;
    while j < names.len()
        invariant
            forall|x: int, y: int|
                0 <= x < invs@.len() && 0 <= y < invs@.len() && x != y ==> (#[trigger] invs@[x]).name@
                    != (#[trigger] invs@[y]).name@,
            j <= names@.len(),
            deps@.len() >= start.len(),
            deps@.len() <= start.len() + j,
            forall|k: int| 0 <= k < start.len() ==> deps@[k] == start[k],
            forall|k: int|
                start.len() <= k < deps@.len() ==> (#[trigger] deps@[k]) < invs@.len()
                    && exists|i: int| 0 <= i < names@.len() && (#[trigger] names@[i])@ == invs@[deps@[k] as int].name@,
            forall|i: int, y: int|
                0 <= i < j && 0 <= y < invs@.len() && (#[trigger] names@[i])@ == (#[trigger] invs@[y]).name@
                    ==> deps@.contains(y as usize),
            forall|i: int| 0 <= i < j ==> resolvable(invs@, input_data@, (#[trigger] names@[i])@),
        decreases names@.len() - j,
    {
        match find_invocable(invs, &names[j]) {
            Some(d) => {
                let ghost before = deps@;
                deps.push(d);
                proof {
                    assert(deps@[deps@.len() - 1] == d);
                    assert(names@[j as int]@ == invs@[d as int].name@);
                    assert forall|i: int, y: int|
                        0 <= i < j + 1 && 0 <= y < invs@.len() && (#[trigger] names@[i])@
                            == (#[trigger] invs@[y]).name@ implies deps@.contains(y as usize) by {
                        if i < j {
                            assert(before.contains(y as usize));
                            let w = choose|w: int| 0 <= w < before.len() && before[w] == y as usize;
                            assert(deps@[w] == y as usize);
                        } else {
                            assert(y == d);
                        }
                    }
                    assert forall|k: int|
                        start.len() <= k < deps@.len() implies (#[trigger] deps@[k]) < invs@.len()
                            && exists|i: int| 0 <= i < names@.len() && (#[trigger] names@[i])@ == invs@[deps@[k] as int].name@ by {
                        if k < deps@.len() - 1 {
                            assert(deps@[k] == before[k]);
                        } else {
                            assert(names@[j as int]@ == invs@[deps@[k] as int].name@);
                        }
                    }
                }
            },
            None => {
                if !contains_name(input_data, &names[j]) {
                    return Err(names[j].clone());
                }

            },
        }
        j = j + 1;
    }
    Ok(())
}

/// The resolved dependencies of every invocable, or the first name that resolves to nothing.
fn resolve_dependencies(definitions: &ModelDefinitions) -> (r: Result<Vec<Vec<usize>>, String>)
    requires
        forall|x: int, y: int|
            0 <= x < definitions.invocables@.len() && 0 <= y < definitions.invocables@.len() && x != y
                ==> (#[trigger] definitions.invocables@[x]).name@ != (#[trigger] definitions.invocables@[y]).name@,
        forall|x: int|
            0 <= x < definitions.invocables@.len() ==> references_of(#[trigger] definitions.invocables@[x]).len()
                <= MAX_REQUIREMENTS,
    ensures
        match r {
            Ok(deps) => {
                let invs = definitions.invocables@;
                &&& deps@.len() == invs.len()
                &&& forall|x: int, k: int|
                    0 <= x < invs.len() && 0 <= k < deps@[x]@.len() ==> (#[trigger] deps@[x]@[k]) < invs.len()
                        && depends_on(invs, x, deps@[x]@[k] as int)
                &&& forall|x: int, y: int| #[trigger] depends_on(invs, x, y) ==> deps@[x]@.contains(y as usize)
                &&& forall|x: int| 0 <= x < invs.len() ==> (#[trigger] deps@[x]@).len() <= MAX_REQUIREMENTS
                &&& forall|n: Seq<char>| !#[trigger] is_unresolved(*definitions, n)
            },
            Err(n) => is_unresolved(*definitions, n@),
        },
{
    let invs = &definitions.invocables;
    let mut all: Vec<Vec<usize>> = Vec::new();
    let mut x: usize = 0;
    while x < invs.len()
        invariant
            invs == &definitions.invocables,
            forall|a: int, b: int|
                0 <= a < invs@.len() && 0 <= b < invs@.len() && a != b ==> (#[trigger] invs@[a]).name@
                    != (#[trigger] invs@[b]).name@,
            forall|a: int| 0 <= a < invs@.len() ==> references_of(#[trigger] invs@[a]).len() <= MAX_REQUIREMENTS,
            x <= invs@.len(),
            all@.len() == x,
            forall|a: int, k: int|
                0 <= a < x && 0 <= k < all@[a]@.len() ==> (#[trigger] all@[a]@[k]) < invs@.len()
                    && depends_on(invs@, a, all@[a]@[k] as int),
            forall|a: int, y: int| 0 <= a < x && #[trigger] depends_on(invs@, a, y) ==> all@[a]@.contains(y as usize),
            forall|a: int| 0 <= a < x ==> (#[trigger] all@[a]@).len() <= MAX_REQUIREMENTS,
            forall|a: int, j: int|
                0 <= a < x && 0 <= j < references_of(invs@[a]).len() ==> resolvable(
                    invs@,
                    definitions.input_data@,
                    #[trigger] references_of(invs@[a])[j],
                ),
        decreases invs@.len() - x,
    {
        let inv = &invs[x];
        let ghost refs = references_of(*inv);
        let ghost reqs = Seq::new(inv.requirements@.len(), |k: int| inv.requirements@[k]@);
        let mut deps: Vec<usize> = Vec::new();
        match resolve_names(invs, &definitions.input_data, &inv.requirements, &mut deps) {
            Ok(()) => {},
            Err(n) => {
                proof {
                    let j = choose|j: int| 0 <= j < inv.requirements@.len() && (#[trigger] inv.requirements@[j])@ == n@;
                    assert(refs[j] == n@);
                    assert(references_of(invs@[x as int]).contains(n@));
                }
                return Err(n);
            },
        }
        let ghost after_reqs = deps@;
        if let Body::Service(outs) = &inv.body {
            match resolve_names(invs, &definitions.input_data, outs, &mut deps) {
                Ok(()) => {},
                Err(n) => {
                    proof {
                        let j = choose|j: int| 0 <= j < outs@.len() && (#[trigger] outs@[j])@ == n@;
                        assert(refs[reqs.len() + j] == n@);
                        assert(references_of(invs@[x as int]).contains(n@));
                    }
                    return Err(n);
                },
            }
        }
        proof {
            assert forall|k: int| 0 <= k < deps@.len() implies (#[trigger] deps@[k]) < invs@.len()
                && depends_on(invs@, x as int, deps@[k] as int) by {
                let d = deps@[k] as int;
                if k < after_reqs.len() {
                    let j = choose|j: int| 0 <= j < inv.requirements@.len() && (#[trigger] inv.requirements@[j])@ == invs@[after_reqs[k] as int].name@;
                    assert(refs[j] == invs@[d].name@);
                } else {
                    if let Body::Service(outs) = inv.body {
                        let j = choose|j: int| 0 <= j < outs@.len() && (#[trigger] outs@[j])@ == invs@[d].name@;
                        assert(refs[reqs.len() + j] == invs@[d].name@);
                    }
                }
            }
            assert forall|j: int| 0 <= j < refs.len() implies resolvable(
                invs@,
                definitions.input_data@,
                #[trigger] refs[j],
            ) by {
                if j < reqs.len() {
                    assert(refs[j] == inv.requirements@[j]@);
                } else {
                    if let Body::Service(outs) = inv.body {
                        assert(refs[j] == outs@[j - reqs.len()]@);
                    }
                }
            }
            assert forall|y: int| #[trigger] depends_on(invs@, x as int, y) implies deps@.contains(y as usize) by {
                let j = choose|j: int| 0 <= j < refs.len() && refs[j] == invs@[y].name@;
                if j < reqs.len() {
                    assert(inv.requirements@[j]@ == invs@[y].name@);
                    assert(after_reqs.contains(y as usize));
                    let w = choose|w: int| 0 <= w < after_reqs.len() && after_reqs[w] == y as usize;
                    assert(deps@[w] == y as usize);
                } else {
                    if let Body::Service(outs) = inv.body {
                        assert(outs@[j - reqs.len()]@ == invs@[y].name@);
                    }
                }
            }
        }
        all.push(deps);
        proof {
            assert forall|a: int, y: int| 0 <= a < x + 1 && #[trigger] depends_on(invs@, a, y) implies all@[a]@.contains(y as usize) by {}
        }
        x = x + 1;
    }
    proof {
        assert forall|n: Seq<char>| !#[trigger] is_unresolved(*definitions, n) by {
            if is_unresolved(*definitions, n) {
                let a = choose|a: int| 0 <= a < invs@.len() && references_of(#[trigger] invs@[a]).contains(n);
                let j = choose|j: int| 0 <= j < references_of(invs@[a]).len() && references_of(invs@[a])[j] == n;
                assert(resolvable(invs@, definitions.input_data@, references_of(invs@[a])[j]));
            }
        }
    }
    Ok(all)
}

/// The name of the first invocable whose decision table is not well formed, if any.
fn find_malformed(invs: &Vec<Invocable>) -> (r: Option<String>)
    ensures
        match r {
            Some(n) => is_malformed(invs@, n@),
            None => forall|x: int| 0 <= x < invs@.len() ==> table_ok(#[trigger] invs@[x]),
        },
{
    let mut x: usize = 0;
    while x < invs.len()
        invariant
            x <= invs@.len(),
            forall|a: int| 0 <= a < x ==> table_ok(#[trigger] invs@[a]),
        decreases invs@.len() - x,
    {
        if let Body::Table(t) = &invs[x].body {
            if !check_table_shape(t) {
                assert(!table_ok(invs@[x as int]));
                return Some(invs[x].name.clone());
            }
        }
        x = x + 1;
    }
    None
}

/// The dependency graph: one node per invocable, an edge from each dependency to its dependent.
fn dependency_graph(deps: &Vec<Vec<usize>>, Ghost(invs): Ghost<Seq<Invocable>>) -> (g: petgraph::graph::DiGraph<(), ()>)
    requires
        deps@.len() == invs.len() <= MAX_INVOCABLES,
        forall|x: int, k: int|
            0 <= x < invs.len() && 0 <= k < deps@[x]@.len() ==> (#[trigger] deps@[x]@[k]) < invs.len()
                && depends_on(invs, x, deps@[x]@[k] as int),
        forall|x: int, y: int| #[trigger] depends_on(invs, x, y) ==> deps@[x]@.contains(y as usize),
        forall|x: int| 0 <= x < invs.len() ==> (#[trigger] deps@[x]@).len() <= MAX_REQUIREMENTS,
    ensures
        graph_node_count(g) == invs.len(),
        forall|a: nat, b: nat| graph_edges(g).contains((a, b)) <==> depends_on(invs, b as int, a as int),
{
    let mut g = new_graph();
    let n = deps.len();
    let mut i: usize = 0;
    while i < n
        invariant
            n == deps@.len() <= MAX_INVOCABLES,
            i <= n,
            graph_node_count(g) == i,
            graph_edges(g).len() == 0,
        decreases n - i,
    {
        add_node(&mut g);
        i = i + 1;
    }
    let mut x: usize = 0;
    while x < n
        invariant
            n == deps@.len() == invs.len() <= MAX_INVOCABLES,
            x <= n,
            graph_node_count(g) == n,
            graph_edges(g).len() <= x * MAX_REQUIREMENTS,
            forall|x: int, k: int|
                0 <= x < invs.len() && 0 <= k < deps@[x]@.len() ==> (#[trigger] deps@[x]@[k]) < invs.len()
                    && depends_on(invs, x, deps@[x]@[k] as int),
            forall|x: int| 0 <= x < invs.len() ==> (#[trigger] deps@[x]@).len() <= MAX_REQUIREMENTS,
            forall|e: int| 0 <= e < graph_edges(g).len() ==> depends_on(invs, (#[trigger] graph_edges(g)[e]).1 as int, graph_edges(g)[e].0 as int),
            forall|a: int, k: int| 0 <= a < x && 0 <= k < deps@[a]@.len() ==> graph_edges(g).contains(((#[trigger] deps@[a]@[k]) as nat, a as nat)),
        decreases n - x,
    {
        let ds = &deps[x];
        let mut k: usize = 0;
        while k < ds.len()
            invariant
                n == deps@.len() == invs.len() <= MAX_INVOCABLES,
                x < n,
                *ds == deps@[x as int],
                k <= ds@.len() <= MAX_REQUIREMENTS,
                graph_node_count(g) == n,
                graph_edges(g).len() <= x * MAX_REQUIREMENTS + k,
                forall|x: int, k: int|
                    0 <= x < invs.len() && 0 <= k < deps@[x]@.len() ==> (#[trigger] deps@[x]@[k]) < invs.len()
                        && depends_on(invs, x, deps@[x]@[k] as int),
                forall|e: int| 0 <= e < graph_edges(g).len() ==> depends_on(invs, (#[trigger] graph_edges(g)[e]).1 as int, graph_edges(g)[e].0 as int),
                forall|a: int, j: int| 0 <= a < x && 0 <= j < deps@[a]@.len() ==> graph_edges(g).contains(((#[trigger] deps@[a]@[j]) as nat, a as nat)),
                forall|j: int| 0 <= j < k ==> graph_edges(g).contains(((#[trigger] ds@[j]) as nat, x as nat)),
            decreases ds@.len() - k,
        {
            proof {
                assert(x * MAX_REQUIREMENTS + k < GRAPH_CAPACITY) by (nonlinear_arith)
                    requires x < MAX_INVOCABLES, k < MAX_REQUIREMENTS;
                assert(deps@[x as int]@[k as int] < invs.len());
            }
            let ghost before = graph_edges(g);
            add_edge(&mut g, ds[k], x);
            proof {
                let edges = graph_edges(g);
                assert(edges[edges.len() - 1] == (ds@[k as int] as nat, x as nat));
                assert forall|e: (nat, nat)| before.contains(e) implies edges.contains(e) by {
                    let w = choose|w: int| 0 <= w < before.len() && before[w] == e;
                    assert(edges[w] == e);
                }
                assert forall|e: int| 0 <= e < edges.len() implies depends_on(invs, (#[trigger] edges[e]).1 as int, edges[e].0 as int) by {
                    if e < edges.len() - 1 {
                        assert(edges[e] == before[e]);
                    }
                }
            }
            k = k + 1;
        }
        proof {
            assert(graph_edges(g).len() <= (x + 1) * MAX_REQUIREMENTS) by (nonlinear_arith)
                requires graph_edges(g).len() <= x * MAX_REQUIREMENTS + ds@.len(), ds@.len() <= MAX_REQUIREMENTS;
        }
        x = x + 1;
    }
    proof {
        let edges = graph_edges(g);
        assert forall|a: nat, b: nat| edges.contains((a, b)) <==> depends_on(invs, b as int, a as int) by {
            if edges.contains((a, b)) {
                let w = choose|w: int| 0 <= w < edges.len() && edges[w] == (a, b);
                assert(depends_on(invs, edges[w].1 as int, edges[w].0 as int));
            }
            if depends_on(invs, b as int, a as int) {
                assert(deps@[b as int]@.contains(a as usize));
                let j = choose|j: int| 0 <= j < deps@[b as int]@.len() && deps@[b as int]@[j] == a as usize;
                assert(edges.contains(((deps@[b as int]@[j]) as nat, b as nat)));
            }
        }
    }
    g
}

/// The place of each index in `order`.
fn positions_of(order: &Vec<usize>) -> (position: Vec<usize>)
    requires
        order@.no_duplicates(),
        forall|k: int| 0 <= k < order@.len() ==> (#[trigger] order@[k] as nat) < order@.len(),
    ensures
        position@.len() == order@.len(),
        forall|k: int| 0 <= k < order@.len() ==> position@[#[trigger] order@[k] as int] == k,
{
    let n = order.len();
    let mut position: Vec<usize> = Vec::new();
    let mut i: usize = 0;
    while i < n
        invariant
            i <= n,
            position@.len() == i,
        decreases n - i,
    {
        position.push(0);
        i = i + 1;
    }
    let mut i: usize = 0;
    while i < n
        invariant
            n == order@.len(),
            order@.no_duplicates(),
            forall|k: int| 0 <= k < order@.len() ==> (#[trigger] order@[k] as nat) < n,
            i <= n,
            position@.len() == n,
            forall|k: int| 0 <= k < i ==> position@[#[trigger] order@[k] as int] == k,
        decreases n - i,
    {
        position.set(order[i], i);
        proof {
            assert forall|k: int| 0 <= k < i implies position@[#[trigger] order@[k] as int] == k by {
                assert(order@[k] != order@[i as int]);
            }
        }
        i = i + 1;
    }
    position
}

/// A sequence of distinct indices below `n`, of length `n`, holds every index below `n`.
proof fn lemma_permutation_covers(order: Seq<usize>, n: nat)
    requires
        order.len() == n,
        order.no_duplicates(),
        forall|k: int| 0 <= k < order.len() ==> (#[trigger] order[k] as nat) < n,
    ensures
        forall|x: usize| (x as nat) < n ==> #[trigger] order.contains(x),
{
    let s = order.map_values(|v: usize| v as int);
    assert forall|i: int, j: int| 0 <= i < s.len() && 0 <= j < s.len() && i != j implies s[i] != s[j] by {
        assert(order[i] != order[j]);
    }
    assert(s.no_duplicates());
    s.unique_seq_to_set();
    vstd::set_lib::lemma_int_range(0, n as int);
    let r = vstd::set_lib::set_int_range(0, n as int);
    assert(s.to_set().subset_of(r)) by {
        assert forall|v: int| s.to_set().contains(v) implies r.contains(v) by {
            let i = choose|i: int| 0 <= i < s.len() && s[i] == v;
            assert((order[i] as nat) < n);
        }
    }
    vstd::set_lib::lemma_subset_equality(s.to_set(), r);
    assert forall|x: usize| (x as nat) < n implies #[trigger] order.contains(x) by {
        assert(r.contains(x as int));
        assert(s.to_set().contains(x as int));
        let i = choose|i: int| 0 <= i < s.len() && s[i] == x as int;
        assert(order[i] == x);
    }
}

} // verus!
