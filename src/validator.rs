//! Validation of item definitions: their type and component references must not form a cycle.
use crate::errors::DmnError;
use crate::graph::{
    add_edge, add_node, graph_edges, graph_node_count, has_cycle, is_cycle, is_cyclic, new_graph,
};
use petgraph::graph::DiGraph;
use vstd::prelude::*;
use vstd::string::StringExecFns;

verus! {

/// One item definition. A top-level definition has no parent; a component names the
/// definition it belongs to by its index, which comes earlier in the list.
pub struct ItemDefinition {
    pub name: String,
    pub type_ref: Option<String>,
    pub parent: Option<usize>,
}

/// The item definitions of a model, parents before their components.
pub struct Definitions {
    pub item_definitions: Vec<ItemDefinition>,
}

/// Largest number of item definitions that a model may hold.
pub const MAX_ITEM_DEFINITIONS: usize = 0x3fff_ffff;

impl Definitions {
    /// Every component names an earlier definition as its parent, and the list fits the
    /// reference graph.
    pub open spec fn wf(&self) -> bool {
        &&& self.item_definitions.len() <= MAX_ITEM_DEFINITIONS
        &&& forall|i: int|
            0 <= i < self.item_definitions.len() ==> match (#[trigger] self.item_definitions[i]).parent {
                Some(p) => p < i,
                None => true,
            }
    }
}

/// The name of definition `i`: a component's name is qualified by its parent's, with a dot.
pub open spec fn qualified_name(defs: Seq<ItemDefinition>, i: int) -> Seq<char>
    decreases i,
{
    if 0 <= i < defs.len() {
        match defs[i].parent {
            Some(p) => if 0 <= p < i {
                qualified_name(defs, p as int) + seq!['.'] + defs[i].name@
            } else {
                defs[i].name@
            },
            None => defs[i].name@,
        }
    } else {
        Seq::empty()
    }
}

/// Definition `i` refers from name `a` to name `b`: by its type reference, or as a component
/// of its parent.
pub open spec fn is_reference_of(defs: Seq<ItemDefinition>, i: int, a: Seq<char>, b: Seq<char>) -> bool {
    &&& 0 <= i < defs.len()
    &&& {
        ||| (qualified_name(defs, i) == a && defs[i].type_ref is Some
            && defs[i].type_ref->Some_0@ == b)
        ||| (defs[i].parent is Some && qualified_name(defs, defs[i].parent->Some_0 as int) == a
            && qualified_name(defs, i) == b)
    }
}

/// The reference graph of the definitions has an edge from name `a` to name `b`.
pub open spec fn references(defs: Seq<ItemDefinition>, a: Seq<char>, b: Seq<char>) -> bool {
    exists|i: int| #[trigger] is_reference_of(defs, i, a, b)
}

/// `p` is a closed walk of at least one edge in the reference graph.
pub open spec fn is_reference_cycle(defs: Seq<ItemDefinition>, p: Seq<Seq<char>>) -> bool {
    &&& p.len() >= 2
    &&& p[0] == p[p.len() - 1]
    &&& forall|k: int| 0 <= k < p.len() - 1 ==> references(defs, #[trigger] p[k], p[k + 1])
}

/// The reference graph of the definitions contains a cycle.
pub open spec fn has_reference_cycle(defs: Seq<ItemDefinition>) -> bool {
    exists|p: Seq<Seq<char>>| is_reference_cycle(defs, p)
}

/// Some edge of the index graph joins a node named `a` to a node named `b`.
pub open spec fn covered(names: Seq<String>, edges: Seq<(nat, nat)>, a: Seq<char>, b: Seq<char>) -> bool {
    exists|x: int, y: int|
        0 <= x < names.len() && 0 <= y < names.len() && #[trigger] names[x]@ == a
            && #[trigger] names[y]@ == b && edges.contains((x as nat, y as nat))
}

proof fn lemma_covered_grows(
    names0: Seq<String>,
    edges0: Seq<(nat, nat)>,
    names1: Seq<String>,
    edges1: Seq<(nat, nat)>,
    a: Seq<char>,
    b: Seq<char>,
)
    requires
        covered(names0, edges0, a, b),
        names0.len() <= names1.len(),
        forall|x: int| 0 <= x < names0.len() ==> names1[x] == names0[x],
        forall|e: (nat, nat)| edges0.contains(e) ==> edges1.contains(e),
    ensures
        covered(names1, edges1, a, b),
{
    let (x, y) = choose|x: int, y: int|
        0 <= x < names0.len() && 0 <= y < names0.len() && #[trigger] names0[x]@ == a
            && #[trigger] names0[y]@ == b && edges0.contains((x as nat, y as nat));
    assert(names1[x]@ == a && names1[y]@ == b);
}

/// The index of the node named `s`.
spec fn node_named(names: Seq<String>, s: Seq<char>) -> int {
    choose|j: int| 0 <= j < names.len() && names[j]@ == s
}

/// An index cycle and a reference cycle are the same thing once every index edge is a
/// reference and every reference has an index edge.
proof fn lemma_cycles_agree(defs: Seq<ItemDefinition>, names: Seq<String>, edges: Seq<(nat, nat)>)
    requires
        forall|a: int, b: int|
            0 <= a < names.len() && 0 <= b < names.len() && a != b ==> (#[trigger] names[a])@
                != (#[trigger] names[b])@,
        forall|e: int|
            0 <= e < edges.len() ==> {
                &&& (#[trigger] edges[e]).0 < names.len()
                &&& edges[e].1 < names.len()
                &&& references(defs, names[edges[e].0 as int]@, names[edges[e].1 as int]@)
            },
        forall|i: int, a: Seq<char>, b: Seq<char>|
            #[trigger] is_reference_of(defs, i, a, b) ==> covered(names, edges, a, b),
    ensures
        has_cycle(edges) <==> has_reference_cycle(defs),
{
    if has_cycle(edges) {
        let p = choose|p: Seq<nat>| is_cycle(edges, p);
        let np = Seq::new(p.len(), |k: int| names[p[k] as int]@);
        assert forall|k: int| 0 <= k < np.len() - 1 implies references(defs, #[trigger] np[k], np[k + 1]) by {
            assert(edges.contains((p[k], p[k + 1])));
            let e = choose|e: int| 0 <= e < edges.len() && edges[e] == (p[k], p[k + 1]);
            assert(edges[e].0 == p[k]);
        }
        assert(is_reference_cycle(defs, np));
    }
    if has_reference_cycle(defs) {
        let np = choose|np: Seq<Seq<char>>| is_reference_cycle(defs, np);
        assert forall|k: int| 0 <= k < np.len() - 1 implies covered(names, edges, #[trigger] np[k], np[k + 1]) by {
            assert(references(defs, np[k], np[k + 1]));
            let i = choose|i: int| #[trigger] is_reference_of(defs, i, np[k], np[k + 1]);
            assert(is_reference_of(defs, i, np[k], np[k + 1]));
        }
        assert forall|k: int| 0 <= k < np.len() implies {
            let j = #[trigger] node_named(names, np[k]);
            0 <= j < names.len() && names[j]@ == np[k]
        } by {
            let k1 = if k < np.len() - 1 { k } else { 0 };
            assert(covered(names, edges, np[k1], np[k1 + 1]));
            assert(np[k] == np[k1]);
        }
        let p = Seq::new(np.len(), |k: int| node_named(names, np[k]) as nat);
        assert forall|k: int| 0 <= k < p.len() - 1 implies edges.contains((#[trigger] p[k], p[k + 1])) by {
            assert(covered(names, edges, np[k], np[k + 1]));
            let (x, y) = choose|x: int, y: int|
                0 <= x < names.len() && 0 <= y < names.len() && #[trigger] names[x]@ == np[k]
                    && #[trigger] names[y]@ == np[k + 1] && edges.contains((x as nat, y as nat));
            let j0 = node_named(names, np[k]);
            let j1 = node_named(names, np[k + 1]);
            assert(names[j0]@ == np[k] && names[j1]@ == np[k + 1]);
            assert(x == j0);
            assert(y == j1);
        }
        assert(is_cycle(edges, p));
    }
}

/// Position of `name` among `names`, if it is there.
fn find_name(names: &Vec<String>, name: &String) -> (r: Option<usize>)
    ensures
        match r {
            Some(k) => k < names@.len() && names@[k as int]@ == name@,
            None => forall|j: int| 0 <= j < names@.len() ==> (#[trigger] names@[j])@ != name@,
        },
{
    let n = names.len();
    let mut k: usize = 0;
    while k < n
        invariant
            n == names@.len(),
            forall|j: int| 0 <= j < k ==> (#[trigger] names@[j])@ != name@,
        decreases n - k,
    {
        if names[k] == *name {
            return Some(k);
        }
        k = k + 1;
    }
    None
}

/// Decision model validator: builds the reference graph, one node per distinct name.
pub struct ModelValidator {
    /// Directed graph of type and component references.
    item_definition_graph: DiGraph<(), ()>,
    /// The name of each node, by node index.
    item_definition_index: Vec<String>,
}

/// Validates the decision model: it is returned unchanged when its item definitions hold no
/// reference cycle.
pub fn validate(definitions: Definitions) -> (r: Result<Definitions, DmnError>)
    requires
        definitions.wf(),
    ensures
        match r {
            Ok(d) => d == definitions && !has_reference_cycle(definitions.item_definitions@),
            Err(e) => e == DmnError::ItemDefinitionsCycle && has_reference_cycle(
                definitions.item_definitions@,
            ),
        },
{
    let mut model_validator = ModelValidator::new();
    model_validator.validate(definitions)
}

impl ModelValidator {
    /// The graph's nodes are the distinct names of the index, and each edge joins two names
    /// that the definitions reference.
    pub closed spec fn sound(&self, defs: Seq<ItemDefinition>) -> bool {
        let names = self.item_definition_index@;
        let edges = graph_edges(self.item_definition_graph);
        &&& graph_node_count(self.item_definition_graph) == names.len()
        &&& forall|a: int, b: int|
            0 <= a < names.len() && 0 <= b < names.len() && a != b ==> (#[trigger] names[a])@
                != (#[trigger] names[b])@
        &&& forall|e: int|
            0 <= e < edges.len() ==> {
                &&& (#[trigger] edges[e]).0 < names.len()
                &&& edges[e].1 < names.len()
                &&& references(defs, names[edges[e].0 as int]@, names[edges[e].1 as int]@)
            }
    }

    /// Creates a validator with an empty graph.
    fn new() -> (r: Self)
        ensures
            r.item_definition_index@.len() == 0,
            graph_node_count(r.item_definition_graph) == 0,
            graph_edges(r.item_definition_graph).len() == 0,
    {
        Self { item_definition_graph: new_graph(), item_definition_index: Vec::new() }
    }

    /// Validates the decision model.
    fn validate(&mut self, definitions: Definitions) -> (r: Result<Definitions, DmnError>)
        requires
            definitions.wf(),
            old(self).item_definition_index@.len() == 0,
            graph_node_count(old(self).item_definition_graph) == 0,
            graph_edges(old(self).item_definition_graph).len() == 0,
        ensures
            match r {
                Ok(d) => d == definitions && !has_reference_cycle(definitions.item_definitions@),
                Err(e) => e == DmnError::ItemDefinitionsCycle && has_reference_cycle(
                    definitions.item_definitions@,
                ),
            },
    {
        match self.check_recursive_item_definitions(&definitions) {
            Ok(()) => Ok(definitions),
            Err(e) => Err(e),
        }
    }

    /// Checks that the reference graph of the item definitions holds no cycle.
    /// Recursive item definitions are not allowed in DMN.
    fn check_recursive_item_definitions(&mut self, definitions: &Definitions) -> (r: Result<(), DmnError>)
        requires
            definitions.wf(),
            old(self).item_definition_index@.len() == 0,
            graph_node_count(old(self).item_definition_graph) == 0,
            graph_edges(old(self).item_definition_graph).len() == 0,
        ensures
            match r {
                Ok(()) => !has_reference_cycle(definitions.item_definitions@),
                Err(e) => e == DmnError::ItemDefinitionsCycle && has_reference_cycle(
                    definitions.item_definitions@,
                ),
            },
    {
        let ghost defs = definitions.item_definitions@;
        let mut qualified: Vec<String> = Vec::new();
        let mut nodes: Vec<usize> = Vec::new();
        let n = definitions.item_definitions.len();
        let mut i: usize = 0;
        assert(self.sound(defs));
        while i < n
            invariant
                defs == definitions.item_definitions@,
                definitions.wf(),
                n == defs.len(),
                i <= n,
                self.sound(defs),
                qualified@.len() == i,
                nodes@.len() == i,
                self.item_definition_index@.len() <= 2 * i,
                graph_edges(self.item_definition_graph).len() <= 2 * i,
                forall|j: int|
                    0 <= j < i ==> {
                        &&& (#[trigger] qualified@[j])@ == qualified_name(defs, j)
                        &&& nodes@[j] < self.item_definition_index@.len()
                        &&& self.item_definition_index@[nodes@[j] as int]@ == qualified_name(defs, j)
                    },
                forall|j: int, a: Seq<char>, b: Seq<char>|
                    0 <= j < i && #[trigger] is_reference_of(defs, j, a, b) ==> covered(
                        self.item_definition_index@,
                        graph_edges(self.item_definition_graph),
                        a,
                        b,
                    ),
            decreases n - i,
        {
            let ghost names0 = self.item_definition_index@;
            let ghost edges0 = graph_edges(self.item_definition_graph);
            let (name, node) = self.check_recursive_item_definition(
                &definitions.item_definitions[i],
                i,
                &qualified,
                &nodes,
                Ghost(defs),
            );
            proof {
                let names1 = self.item_definition_index@;
                let edges1 = graph_edges(self.item_definition_graph);
                assert forall|j: int, a: Seq<char>, b: Seq<char>|
                    0 <= j < i + 1 && #[trigger] is_reference_of(defs, j, a, b) implies covered(
                    names1,
                    edges1,
                    a,
                    b,
                ) by {
                    if j < i {
                        lemma_covered_grows(names0, edges0, names1, edges1, a, b);
                    }
                }
            }
            qualified.push(name);
            nodes.push(node);
            i = i + 1;
        }
        proof {
            lemma_cycles_agree(defs, self.item_definition_index@, graph_edges(self.item_definition_graph));
        }
        if is_cyclic(&self.item_definition_graph) {
            Err(DmnError::ItemDefinitionsCycle)
        } else {
            Ok(())
        }
    }

    /// Registers the references of definition `i`: to its type, and from its parent.
    /// Returns its qualified name and node.
    fn check_recursive_item_definition(
        &mut self,
        item_definition: &ItemDefinition,
        i: usize,
        qualified: &Vec<String>,
        nodes: &Vec<usize>,
        Ghost(defs): Ghost<Seq<ItemDefinition>>,
    ) -> (r: (String, usize))
        requires
            i < defs.len(),
            defs[i as int] == *item_definition,
            item_definition.parent matches Some(p) ==> p < i,
            qualified@.len() == i,
            nodes@.len() == i,
            old(self).sound(defs),
            old(self).item_definition_index@.len() + 2 < crate::graph::GRAPH_CAPACITY,
            graph_edges(old(self).item_definition_graph).len() + 2 < crate::graph::GRAPH_CAPACITY,
            forall|j: int|
                0 <= j < i ==> {
                    &&& (#[trigger] qualified@[j])@ == qualified_name(defs, j)
                    &&& nodes@[j] < old(self).item_definition_index@.len()
                    &&& old(self).item_definition_index@[nodes@[j] as int]@ == qualified_name(defs, j)
                },
        ensures
            final(self).sound(defs),
            r.0@ == qualified_name(defs, i as int),
            r.1 < final(self).item_definition_index@.len(),
            final(self).item_definition_index@[r.1 as int]@ == qualified_name(defs, i as int),
            old(self).item_definition_index@.len() <= final(self).item_definition_index@.len()
                <= old(self).item_definition_index@.len() + 2,
            graph_edges(final(self).item_definition_graph).len() <= graph_edges(
                old(self).item_definition_graph,
            ).len() + 2,
            forall|x: int|
                0 <= x < old(self).item_definition_index@.len() ==> final(self).item_definition_index@[x]
                    == old(self).item_definition_index@[x],
            forall|e: (nat, nat)|
                graph_edges(old(self).item_definition_graph).contains(e) ==> graph_edges(
                    final(self).item_definition_graph,
                ).contains(e),
            forall|a: Seq<char>, b: Seq<char>|
                #[trigger] is_reference_of(defs, i as int, a, b) ==> covered(
                    final(self).item_definition_index@,
                    graph_edges(final(self).item_definition_graph),
                    a,
                    b,
                ),
    {
        let ghost names0 = self.item_definition_index@;
        let ghost edges0 = graph_edges(self.item_definition_graph);
        let name = match item_definition.parent {
            Some(p) => {
                let mut s = qualified[p].clone();
                s.append(".");
                s.append(item_definition.name.as_str());
                proof {
                    reveal_strlit(".");
                }
                s
            },
            None => item_definition.name.clone(),
        };
        assert(name@ == qualified_name(defs, i as int));
        let node = self.node_of(&name, Ghost(defs));
        let ghost mut type_edge: int = -1;
        if let Some(t) = &item_definition.type_ref {
            let target = self.node_of(t, Ghost(defs));
            proof {
                type_edge = graph_edges(self.item_definition_graph).len() as int;
            }
            proof {
                assert(is_reference_of(defs, i as int, name@, t@));
            }
            add_edge(&mut self.item_definition_graph, node, target);
            proof {
                let names = self.item_definition_index@;
                let edges = graph_edges(self.item_definition_graph);
                assert(edges[edges.len() - 1] == (node as nat, target as nat));
                assert(names[node as int]@ == name@);
                assert(names[target as int]@ == t@);
                assert(edges.contains((node as nat, target as nat)));
                assert(edges[type_edge] == (node as nat, target as nat));
                assert(covered(names, edges, name@, t@));
                assert forall|e: int| 0 <= e < edges.len() implies {
                    &&& (#[trigger] edges[e]).0 < names.len()
                    &&& edges[e].1 < names.len()
                    &&& references(defs, names[edges[e].0 as int]@, names[edges[e].1 as int]@)
                } by {
                    if e < edges.len() - 1 {
                        assert(edges[e] == graph_edges(old(self).item_definition_graph).push(
                            (node as nat, target as nat),
                        )[e]);
                    }
                }
            }
        }
        if let Some(p) = item_definition.parent {
            let parent = nodes[p];
            proof {
                assert(is_reference_of(defs, i as int, qualified_name(defs, p as int), name@));
            }
            add_edge(&mut self.item_definition_graph, parent, node);
            proof {
                let names = self.item_definition_index@;
                let edges = graph_edges(self.item_definition_graph);
                assert(edges[edges.len() - 1] == (parent as nat, node as nat));
                assert(names[parent as int]@ == qualified_name(defs, p as int));
                assert(names[node as int]@ == name@);
                assert(edges.contains((parent as nat, node as nat)));
                assert(covered(names, edges, qualified_name(defs, p as int), name@));
            }
        }
        proof {
            let names = self.item_definition_index@;
            let edges = graph_edges(self.item_definition_graph);
            assert forall|e: (nat, nat)| edges0.contains(e) implies edges.contains(e) by {
                let k = choose|k: int| 0 <= k < edges0.len() && edges0[k] == e;
                assert(edges[k] == e);
            }
            assert forall|a: Seq<char>, b: Seq<char>|
                #[trigger] is_reference_of(defs, i as int, a, b) implies covered(names, edges, a, b) by {
                if qualified_name(defs, i as int) == a && defs[i as int].type_ref is Some
                    && defs[i as int].type_ref->Some_0@ == b {
                    let (x, y) = edges[type_edge];
                    assert(edges.contains((x, y)));
                    assert(names[x as int]@ == a && names[y as int]@ == b);
                } else {
                }
            }
        }
        (name, node)
    }

    /// Returns the node of `name`, adding one when the name has none yet.
    fn node_of(&mut self, name: &String, Ghost(defs): Ghost<Seq<ItemDefinition>>) -> (r: usize)
        requires
            old(self).sound(defs),
            old(self).item_definition_index@.len() < crate::graph::GRAPH_CAPACITY,
        ensures
            final(self).sound(defs),
            r < final(self).item_definition_index@.len(),
            final(self).item_definition_index@[r as int]@ == name@,
            graph_edges(final(self).item_definition_graph) == graph_edges(old(self).item_definition_graph),
            old(self).item_definition_index@.len() <= final(self).item_definition_index@.len()
                <= old(self).item_definition_index@.len() + 1,
            graph_node_count(final(self).item_definition_graph) == final(self).item_definition_index@.len(),
            forall|k: int|
                0 <= k < old(self).item_definition_index@.len() ==> final(self).item_definition_index@[k]
                    == old(self).item_definition_index@[k],
    {
        if let Some(k) = find_name(&self.item_definition_index, name) {
            return k;
        }
        let idx = add_node(&mut self.item_definition_graph);
        self.item_definition_index.push(name.clone());
        proof {
            let names = self.item_definition_index@;
            let edges = graph_edges(self.item_definition_graph);
            assert forall|e: int| 0 <= e < edges.len() implies {
                &&& (#[trigger] edges[e]).0 < names.len()
                &&& edges[e].1 < names.len()
                &&& references(defs, names[edges[e].0 as int]@, names[edges[e].1 as int]@)
            } by {
                assert(old(self).sound(defs));
            }
        }
        idx
    }
}

} // verus!
