use crate::index::{parameter_entries, parameters_entries, parameters_view};
use crate::protocol::{
    BoolPredicate, Choice, Definition, DefinitionBody, Direction, Label, Predicate, Role, Route,
    SideEffect, Type,
};
use heck::{CamelCase, SnakeCase};
use petgraph::visit::EdgeRef;
use indexmap::IndexMap;
use crate::local::{lemma_unseen_mark, unseen};
use crate::protocol::{formattable, Protocol};
use crate::tree::{
    edges_readable, error_msg, first_repeat, graph_edges_checked, graph_names, graph_sizes_fit, graphs_from, lemma_fit_wf,
    node_names, DotGraph, StrError, Tree,
};
use vstd::prelude::*;

verus! {

/// A state of a role's graph: its name, and the role it talks to and
/// whether it sends or receives, once an edge leaves it.
#[derive(Debug)]
pub struct GraphNode {
    pub name: String,
    pub role: Option<usize>,
    pub direction: Option<Direction>,
}

impl GraphNode {
    /// A state named `name` that no edge leaves yet.
    pub fn new(name: String) -> (node: Self)
        ensures
            node.name == name,
            node.role is None,
            node.direction is None,
    {
        Self { name, role: None, direction: None }
    }
}

/// An edge of a role's graph: the index of its label, its predicate and
/// its side effect.
#[derive(Debug)]
pub struct GraphEdge {
    pub label: usize,
    pub predicate: BoolPredicate,
    pub side_effect: SideEffect,
}

impl GraphEdge {
    pub fn new(label: usize, predicate: BoolPredicate, side_effect: SideEffect) -> (edge: Self)
        ensures
            edge.label == label,
            edge.predicate == predicate,
            edge.side_effect == side_effect,
    {
        Self { label, predicate, side_effect }
    }
}

/// petgraph's `Graph`, whose contents Verus does not see: `graph_nodes`
/// and `graph_edges` name them.
#[verifier::external_type_specification]
#[verifier::external_body]
#[verifier::reject_recursive_types(N)]
#[verifier::reject_recursive_types(E)]
#[verifier::reject_recursive_types(Ty)]
#[verifier::reject_recursive_types(Ix)]
pub struct ExPetgraph<N, E, Ty, Ix>(petgraph::graph::Graph<N, E, Ty, Ix>);

/// petgraph's `Directed`, the kind of edge of a role's graph.
#[verifier::external_type_specification]
#[verifier::external_body]
pub struct ExDirected(petgraph::Directed);

/// The graph of a role: its states, and its edges from a source to a
/// target, each with its weight.
pub type RoleGraph = petgraph::graph::Graph<GraphNode, GraphEdge>;

/// The states of a graph, in the order of their indices, which is the
/// order in which they were added.
pub uninterp spec fn graph_nodes(graph: RoleGraph) -> Seq<GraphNode>;

/// The edges of a graph as source, target and edge, in the order of their
/// indices, which is the order in which they were added.
pub uninterp spec fn graph_edges(graph: RoleGraph) -> Seq<(usize, usize, GraphEdge)>;

/// petgraph's `Graph::new`: a graph with no state and no edge.
#[verifier::external_body]
pub(crate) fn graph_new() -> (graph: RoleGraph)
    ensures
        graph_nodes(graph) == Seq::<GraphNode>::empty(),
        graph_edges(graph) == Seq::<(usize, usize, GraphEdge)>::empty(),
{
    petgraph::graph::Graph::new()
}

/// petgraph's `Graph::add_node`: the state goes last, and its index is the
/// number of states before it. It panics when the states fill the index
/// type, `u32`, which `requires` leaves out.
#[verifier::external_body]
pub(crate) fn graph_add_node(graph: &mut RoleGraph, node: GraphNode) -> (index: usize)
    requires
        graph_nodes(*old(graph)).len() < u32::MAX,
    ensures
        index == graph_nodes(*old(graph)).len(),
        graph_nodes(*final(graph)) == graph_nodes(*old(graph)).push(node),
        graph_edges(*final(graph)) == graph_edges(*old(graph)),
{
    graph.add_node(node).index()
}

/// petgraph's `Graph::add_edge`: the edge goes last. It panics when a
/// state does not exist or the edges fill the index type, `u32`, which
/// `requires` leaves out.
#[verifier::external_body]
pub(crate) fn graph_add_edge(graph: &mut RoleGraph, source: usize, target: usize, edge: GraphEdge)
    requires
        source < graph_nodes(*old(graph)).len(),
        target < graph_nodes(*old(graph)).len(),
        graph_edges(*old(graph)).len() < u32::MAX,
    ensures
        graph_nodes(*final(graph)) == graph_nodes(*old(graph)),
        graph_edges(*final(graph)) == graph_edges(*old(graph)).push((source, target, edge)),
{
    graph.add_edge(petgraph::graph::NodeIndex::new(source), petgraph::graph::NodeIndex::new(target), edge);
}

/// petgraph's indexing of a graph by a state, for writing: the state at
/// `index` becomes `node`. It panics where there is no such state.
#[verifier::external_body]
pub(crate) fn graph_set_node(graph: &mut RoleGraph, index: usize, node: GraphNode)
    requires
        index < graph_nodes(*old(graph)).len(),
    ensures
        graph_nodes(*final(graph)) == graph_nodes(*old(graph)).update(index as int, node),
        graph_edges(*final(graph)) == graph_edges(*old(graph)),
{
    graph[petgraph::graph::NodeIndex::new(index)] = node;
}

/// petgraph's indexing of a graph by a state: the state at `index`. It
/// panics where there is no such state.
#[verifier::external_body]
pub(crate) fn graph_node(graph: &RoleGraph, index: usize) -> (node: &GraphNode)
    requires
        index < graph_nodes(*graph).len(),
    ensures
        *node == graph_nodes(*graph)[index as int],
{
    &graph[petgraph::graph::NodeIndex::new(index)]
}

/// petgraph's `Graph::raw_edges`, at `index`: the source, target and
/// weight of that edge.
#[verifier::external_body]
pub(crate) fn graph_edge(graph: &RoleGraph, index: usize) -> (edge: (usize, usize, &GraphEdge))
    requires
        index < graph_edges(*graph).len(),
    ensures
        (edge.0, edge.1, *edge.2) == graph_edges(*graph)[index as int],
{
    let edge = &graph.raw_edges()[index];
    (edge.source().index(), edge.target().index(), &edge.weight)
}

/// petgraph's `Graph::node_count`: the number of states.
#[verifier::external_body]
pub(crate) fn graph_node_count(graph: &RoleGraph) -> (count: usize)
    ensures
        count == graph_nodes(*graph).len(),
{
    graph.node_count()
}

/// petgraph's `Graph::edges` of a state of a directed graph: the indices of
/// the edges that leave it, the edge added last first, as petgraph keeps
/// them in a list that each new edge joins at its head.
#[verifier::external_body]
pub(crate) fn graph_edges_from(graph: &RoleGraph, node: usize) -> (edges: Vec<usize>)
    requires
        node < graph_nodes(*graph).len(),
    ensures
        edges@.len() == out_edges(graph_edges(*graph), node as nat).len(),
        forall|k: int|
            0 <= k < edges@.len() ==> #[trigger] edges@[k] == out_edges(graph_edges(*graph), node as nat)[k],
{
    graph.edges(petgraph::graph::NodeIndex::new(node)).map(|e| e.id().index()).collect()
}

/// The positions of the edges that leave `node`, the edge added last
/// first.
pub open spec fn out_edges(edges: Seq<(usize, usize, GraphEdge)>, node: nat) -> Seq<int>
    decreases edges.len(),
{
    if edges.len() == 0 {
        Seq::empty()
    } else {
        let rest = out_edges(edges.drop_last(), node);
        if edges.last().0 == node {
            seq![edges.len() - 1] + rest
        } else {
            rest
        }
    }
}

proof fn lemma_out_edges(edges: Seq<(usize, usize, GraphEdge)>, node: nat)
    ensures
        forall|k: int|
            0 <= k < out_edges(edges, node).len() ==> 0 <= #[trigger] out_edges(edges, node)[k]
                < edges.len() && edges[out_edges(edges, node)[k]].0 == node,
    decreases edges.len(),
{
    if edges.len() > 0 {
        lemma_out_edges(edges.drop_last(), node);
        let rest = out_edges(edges.drop_last(), node);
        assert forall|k: int| 0 <= k < rest.len() implies edges[#[trigger] rest[k]]
            == edges.drop_last()[rest[k]] by {}
    }
}

/// Every edge joins two states; a state that edges leave talks to a role
/// in a direction, and one that no edge leaves has no direction; and there
/// is a first state.
pub open spec fn graph_wf(g: RoleGraph) -> bool {
    &&& graph_nodes(g).len() > 0
    &&& forall|i: int|
        0 <= i < graph_edges(g).len() ==> (#[trigger] graph_edges(g)[i]).0 < graph_nodes(g).len() && graph_edges(g)[i].1
            < graph_nodes(g).len()
    &&& forall|n: int|
        0 <= n < graph_nodes(g).len() ==> (out_edges(graph_edges(g), n as nat).len() > 0 <==> (
        #[trigger] graph_nodes(g)[n]).direction is Some) && (out_edges(graph_edges(g), n as nat).len() > 0
            ==> graph_nodes(g)[n].role is Some)
}

/// Items handed out one at a time, the first two of which can be looked
/// at before they are taken.
pub struct DoublePeekable<T: Copy> {
    first: Option<T>,
    second: Option<T>,
    remainder: Vec<T>,
    position: usize,
}

pub open spec fn option_seq<T>(item: Option<T>) -> Seq<T> {
    match item {
        Some(x) => seq![x],
        None => Seq::empty(),
    }
}

impl<T: Copy> View for DoublePeekable<T> {
    type V = Seq<T>;

    /// The items left, in order.
    closed spec fn view(&self) -> Seq<T> {
        option_seq(self.first) + option_seq(self.second) + self.remainder@.subrange(
            self.position as int,
            self.remainder@.len() as int,
        )
    }
}

impl<T: Copy> DoublePeekable<T> {
    #[verifier::type_invariant]
    spec fn peeks_first(&self) -> bool {
        &&& self.position <= self.remainder@.len()
        &&& self.first is None ==> self.second is None && self.position == self.remainder@.len()
        &&& self.second is None ==> self.position == self.remainder@.len()
    }

    /// Hands out `items` in order.
    pub fn new(items: Vec<T>) -> (peekable: Self)
        ensures
            peekable@ == items@,
    {
        let n = items.len();
        let first = if n > 0 {
            Some(items[0])
        } else {
            None
        };
        let second = if n > 1 {
            Some(items[1])
        } else {
            None
        };
        let position = if n > 2 {
            2
        } else {
            n
        };
        let peekable = Self { first, second, remainder: items, position };
        proof {
            assert(peekable@ =~= items@);
        }
        peekable
    }

    /// Whether no item is left.
    pub fn is_empty(&self) -> (empty: bool)
        ensures
            empty == (self@.len() == 0),
    {
        proof {
            use_type_invariant(self);
        }
        self.first.is_none()
    }

    /// The only item left, taken, if exactly one is left.
    pub fn singleton(&mut self) -> (item: Option<T>)
        ensures
            old(self)@.len() == 1 ==> item == Some(old(self)@[0]) && final(self)@.len() == 0,
            old(self)@.len() != 1 ==> item is None && final(self)@ == old(self)@,
    {
        proof {
            use_type_invariant(&*self);
        }
        if self.second.is_none() {
            let item = self.first;
            let mut taken = Self { first: None, second: None, remainder: Vec::new(), position: 0 };
            core::mem::swap(&mut taken, self);
            proof {
                assert(self@ =~= Seq::<T>::empty());
            }
            return item;
        }
        None
    }

    /// The next item, taken.
    pub fn next(&mut self) -> (item: Option<T>)
        ensures
            old(self)@.len() == 0 ==> item is None && final(self)@ == old(self)@,
            old(self)@.len() > 0 ==> item == Some(old(self)@[0]) && final(self)@ == old(self)@.drop_first(),
    {
        proof {
            use_type_invariant(&*self);
        }
        let mut whole = Self { first: None, second: None, remainder: Vec::new(), position: 0 };
        core::mem::swap(&mut whole, self);
        let DoublePeekable { first, second, remainder, position } = whole;
        let ghost rest = remainder@.subrange(position as int, remainder@.len() as int);
        let next = if position < remainder.len() {
            Some(remainder[position])
        } else {
            None
        };
        let (item, taken) = match first {
            None => (None, Self { first: None, second: None, remainder, position }),
            Some(x) => match next {
                Some(y) => (Some(x), Self { first: second, second: Some(y), remainder, position: position + 1 }),
                None => (Some(x), Self { first: second, second: None, remainder, position }),
            },
        };
        *self = taken;
        proof {
            if first is Some {
                assert(self@ =~= old(self)@.drop_first());
            } else {
                assert(self@ =~= old(self)@);
            }
        }
        item
    }
}

/// What a definition body is, as a value.
pub enum BodyModel {
    Type { safe: bool, ty: Type },
    Choice(Seq<Choice>),
}

/// What a definition is, as a value.
pub struct DefinitionModel {
    pub node: nat,
    pub body: BodyModel,
}

pub open spec fn definition_model(d: Definition) -> DefinitionModel {
    DefinitionModel {
        node: d.node as nat,
        body: match d.body {
            DefinitionBody::Type { safe, ty } => BodyModel::Type { safe, ty },
            DefinitionBody::Choice(choices) => BodyModel::Choice(choices@),
        },
    }
}

pub open spec fn definitions_model(ds: Seq<Definition>) -> Seq<DefinitionModel> {
    ds.map_values(|d: Definition| definition_model(d))
}

/// Where a walk of a graph is: the states it has entered, the states that
/// a jump goes back to, and the definitions made so far.
pub struct VisitState {
    pub visited: Seq<bool>,
    pub looped: Seq<bool>,
    pub definitions: Seq<DefinitionModel>,
}

/// The walk with `node` marked as entered.
pub open spec fn enter(st: VisitState, node: nat) -> VisitState {
    VisitState { visited: st.visited.update(node as int, true), looped: st.looped, definitions: st.definitions }
}

/// The walk with `node` marked as jumped back to.
pub open spec fn loop_back(st: VisitState, node: nat) -> VisitState {
    VisitState { visited: st.visited, looped: st.looped.update(node as int, true), definitions: st.definitions }
}

/// The walk with `definition` made.
pub open spec fn define(st: VisitState, definition: DefinitionModel) -> VisitState {
    VisitState { visited: st.visited, looped: st.looped, definitions: st.definitions.push(definition) }
}

/// The choice that generated code offers at `node`: its direction and
/// role, with no predicate or side effect of its own.
pub open spec fn choice_type(g: RoleGraph, node: nat) -> Type {
    Type::Choice {
        direction: graph_nodes(g)[node as int].direction->Some_0,
        role: graph_nodes(g)[node as int].role->Some_0,
        node: node as usize,
        predicate: BoolPredicate::Normal(Predicate::Tautology(None)),
        side_effect: SideEffect::NoEffect,
    }
}

/// The type of `node` in a walk of `g` from `st`, whether it is safe to
/// name directly, and the walk after it. A state that no edge leaves ends.
/// A state with one edge is a message followed by the type of its target;
/// met again on the way, it is a jump back, and a state jumped back to is
/// defined and named. A state with more edges is a choice, defined by the
/// types of its targets, each met in turn.
pub open spec fn visit(g: RoleGraph, node: nat, st: VisitState) -> (Type, bool, VisitState)
    decreases unseen(st.visited), 0nat, 0nat,
{
    if node >= st.visited.len() || node >= graph_nodes(g).len() {
        (Type::End, true, st)
    } else {
        let out = out_edges(graph_edges(g), node);
        let weight = graph_nodes(g)[node as int];
        if out.len() == 0 {
            (Type::End, true, st)
        } else if out.len() == 1 {
            if st.visited[node as int] {
                (Type::Node(node as usize), false, loop_back(st, node))
            } else {
                proof {
                    lemma_unseen_mark(st.visited, node as int);
                }
                let e = graph_edges(g)[out[0]];
                let (next, safe, after) = visit(g, e.1 as nat, enter(st, node));
                let ty = Type::Message {
                    direction: weight.direction->Some_0,
                    role: weight.role->Some_0,
                    label: e.2.label,
                    predicate: e.2.predicate,
                    side_effect: e.2.side_effect,
                    next: Box::new(next),
                };
                if after.looped[node as int] {
                    (
                        Type::Node(node as usize),
                        true,
                        define(after, DefinitionModel { node, body: BodyModel::Type { safe, ty } }),
                    )
                } else {
                    (ty, safe, after)
                }
            }
        } else if st.visited[node as int] {
            (choice_type(g, node), true, loop_back(st, node))
        } else {
            proof {
                lemma_unseen_mark(st.visited, node as int);
            }
            let (choices, after) = visit_choices(g, out, 0, enter(st, node));
            (
                choice_type(g, node),
                true,
                define(after, DefinitionModel { node, body: BodyModel::Choice(choices) }),
            )
        }
    }
}

/// The branches for the edges at `out[k..]`, each the type of its target
/// met in turn, and the walk after them.
pub open spec fn visit_choices(g: RoleGraph, out: Seq<int>, k: int, st: VisitState) -> (
    Seq<Choice>,
    VisitState,
)
    decreases unseen(st.visited), 1nat, out.len() - k,
{
    if k < 0 || k >= out.len() {
        (Seq::empty(), st)
    } else {
        let e = graph_edges(g)[out[k]];
        let (ty, safe, after) = visit(g, e.1 as nat, st);
        let choice = Choice { label: e.2.label, ty, predicate: e.2.predicate };
        if unseen(after.visited) <= unseen(st.visited) {
            let (rest, last) = visit_choices(g, out, k + 1, after);
            (seq![choice] + rest, last)
        } else {
            (seq![choice], after)
        }
    }
}

/// The definitions of the types of a role whose graph is `g`: a walk from
/// the first state, which is named from the start; if its type is a
/// choice, that type is defined last.
pub open spec fn definitions_of(g: RoleGraph) -> Seq<DefinitionModel> {
    let n = graph_nodes(g).len();
    let start = VisitState {
        visited: Seq::new(n, |i: int| false),
        looped: Seq::new(n, |i: int| i == 0),
        definitions: Seq::empty(),
    };
    let (ty, safe, after) = visit(g, 0, start);
    if ty is Choice {
        after.definitions.push(DefinitionModel { node: 0, body: BodyModel::Type { safe: true, ty } })
    } else {
        after.definitions
    }
}

proof fn lemma_unseen_more(a: Seq<bool>, b: Seq<bool>)
    requires
        a.len() == b.len(),
        forall|i: int| 0 <= i < a.len() && a[i] ==> b[i],
    ensures
        unseen(b) <= unseen(a),
    decreases a.len(),
{
    if a.len() > 0 {
        lemma_unseen_more(a.drop_last(), b.drop_last());
    }
}

/// A walk only enters states, and keeps the sizes of its marks.
proof fn lemma_visit_grows(g: RoleGraph, node: nat, st: VisitState)
    requires
        st.visited.len() == st.looped.len(),
    ensures
        visit(g, node, st).2.visited.len() == st.visited.len(),
        visit(g, node, st).2.looped.len() == st.looped.len(),
        forall|i: int| 0 <= i < st.visited.len() && st.visited[i] ==> visit(g, node, st).2.visited[i],
        unseen(visit(g, node, st).2.visited) <= unseen(st.visited),
    decreases unseen(st.visited), 0nat, 0nat,
{
    let after = visit(g, node, st).2;
    if node < st.visited.len() && node < graph_nodes(g).len() {
        let out = out_edges(graph_edges(g), node);
        if out.len() > 0 && !st.visited[node as int] {
            lemma_unseen_mark(st.visited, node as int);
            let entered = enter(st, node);
            assert forall|i: int| 0 <= i < st.visited.len() && st.visited[i] implies entered.visited[i] by {}
            if out.len() == 1 {
                lemma_out_edges(graph_edges(g), node);
                let e = graph_edges(g)[out[0]];
                lemma_visit_grows(g, e.1 as nat, entered);
                let inner = visit(g, e.1 as nat, entered).2;
                assert(after.visited == inner.visited);
            } else {
                lemma_visit_choices_grows(g, out, 0, entered);
                let inner = visit_choices(g, out, 0, entered).1;
                assert(after.visited == inner.visited);
            }
        } else {
            assert(after.visited == st.visited);
        }
    } else {
        assert(after.visited == st.visited);
    }
    lemma_unseen_more(st.visited, after.visited);
}

proof fn lemma_visit_choices_grows(g: RoleGraph, out: Seq<int>, k: int, st: VisitState)
    requires
        st.visited.len() == st.looped.len(),
    ensures
        visit_choices(g, out, k, st).1.visited.len() == st.visited.len(),
        visit_choices(g, out, k, st).1.looped.len() == st.looped.len(),
        forall|i: int|
            0 <= i < st.visited.len() && st.visited[i] ==> visit_choices(g, out, k, st).1.visited[i],
        unseen(visit_choices(g, out, k, st).1.visited) <= unseen(st.visited),
        (0 <= k < out.len()) ==> visit_choices(g, out, k, st).0.len() == out.len() - k,
        !(0 <= k < out.len()) ==> visit_choices(g, out, k, st).0.len() == 0,
    decreases unseen(st.visited), 1nat, out.len() - k,
{
    if 0 <= k < out.len() {
        let e = graph_edges(g)[out[k]];
        lemma_visit_grows(g, e.1 as nat, st);
        let (ty, safe, after) = visit(g, e.1 as nat, st);
        lemma_visit_choices_grows(g, out, k + 1, after);
    }
    lemma_unseen_more(st.visited, visit_choices(g, out, k, st).1.visited);
}

/// Every index that `ty` holds is in range: states below `nn`, roles
/// below `nr` and labels below `nl`.
pub open spec fn type_fits(ty: Type, nn: nat, nr: nat, nl: nat) -> bool
    decreases ty,
{
    match ty {
        Type::End => true,
        Type::Node(n) => n < nn,
        Type::Message { role, label, next, .. } => role < nr && label < nl && type_fits(*next, nn, nr, nl),
        Type::Choice { role, node, .. } => role < nr && node < nn,
    }
}

/// Every index that a definition holds is in range.
pub open spec fn definition_fits(d: DefinitionModel, nn: nat, nr: nat, nl: nat) -> bool {
    &&& d.node < nn
    &&& match d.body {
        BodyModel::Type { ty, .. } => type_fits(ty, nn, nr, nl),
        BodyModel::Choice(choices) => forall|k: int|
            0 <= k < choices.len() ==> (#[trigger] choices[k]).label < nl && type_fits(choices[k].ty, nn, nr, nl),
    }
}

/// The roles that the states of `g` talk to are below `nr`, and the
/// labels of its edges below `nl`.
pub open spec fn graph_fits(g: RoleGraph, nr: nat, nl: nat) -> bool {
    &&& forall|n: int| 0 <= n < graph_nodes(g).len() && (#[trigger] graph_nodes(g)[n]).role is Some ==> graph_nodes(g)[n].role->Some_0 < nr
    &&& forall|i: int| 0 <= i < graph_edges(g).len() ==> (#[trigger] graph_edges(g)[i]).2.label < nl
}

proof fn lemma_visit_fits(g: RoleGraph, node: nat, st: VisitState, nr: nat, nl: nat)
    requires
        graph_wf(g),
        graph_fits(g, nr, nl),
        forall|k: int| 0 <= k < st.definitions.len() ==> definition_fits(#[trigger] st.definitions[k], graph_nodes(g).len(), nr, nl),
    ensures
        type_fits(visit(g, node, st).0, graph_nodes(g).len(), nr, nl),
        forall|k: int|
            0 <= k < visit(g, node, st).2.definitions.len() ==> definition_fits(
                #[trigger] visit(g, node, st).2.definitions[k],
                graph_nodes(g).len(),
                nr,
                nl,
            ),
    decreases unseen(st.visited), 0nat, 0nat,
{
    let nn = graph_nodes(g).len();
    if node < st.visited.len() && node < nn {
        let out = out_edges(graph_edges(g), node);
        if out.len() > 0 {
            lemma_out_edges(graph_edges(g), node);
            assert(graph_nodes(g)[node as int].role is Some);
        }
        if out.len() == 1 && !st.visited[node as int] {
            lemma_unseen_mark(st.visited, node as int);
            let e = graph_edges(g)[out[0]];
            let entered = enter(st, node);
            lemma_visit_fits(g, e.1 as nat, entered, nr, nl);
            let (next, safe, after) = visit(g, e.1 as nat, entered);
            let weight = graph_nodes(g)[node as int];
            let ty = Type::Message {
                direction: weight.direction->Some_0,
                role: weight.role->Some_0,
                label: e.2.label,
                predicate: e.2.predicate,
                side_effect: e.2.side_effect,
                next: Box::new(next),
            };
            assert(type_fits(ty, nn, nr, nl));
            if after.looped[node as int] {
                let d = DefinitionModel { node, body: BodyModel::Type { safe, ty } };
                assert(definition_fits(d, nn, nr, nl));
                let defs = define(after, d).definitions;
                assert forall|k: int| 0 <= k < defs.len() implies definition_fits(#[trigger] defs[k], nn, nr, nl) by {
                    if k < after.definitions.len() {
                        assert(defs[k] == after.definitions[k]);
                    }
                }
            }
        } else if out.len() > 1 && !st.visited[node as int] {
            lemma_unseen_mark(st.visited, node as int);
            let entered = enter(st, node);
            lemma_visit_choices_fits(g, out, 0, entered, nr, nl);
            let (choices, after) = visit_choices(g, out, 0, entered);
            let d = DefinitionModel { node, body: BodyModel::Choice(choices) };
            assert(definition_fits(d, nn, nr, nl));
            let defs = define(after, d).definitions;
            assert forall|k: int| 0 <= k < defs.len() implies definition_fits(#[trigger] defs[k], nn, nr, nl) by {
                if k < after.definitions.len() {
                    assert(defs[k] == after.definitions[k]);
                }
            }
        }
    }
}

proof fn lemma_visit_choices_fits(g: RoleGraph, out: Seq<int>, k: int, st: VisitState, nr: nat, nl: nat)
    requires
        graph_wf(g),
        graph_fits(g, nr, nl),
        forall|m: int| 0 <= m < out.len() ==> 0 <= #[trigger] out[m] < graph_edges(g).len(),
        forall|m: int| 0 <= m < st.definitions.len() ==> definition_fits(#[trigger] st.definitions[m], graph_nodes(g).len(), nr, nl),
    ensures
        forall|m: int|
            0 <= m < visit_choices(g, out, k, st).0.len() ==> (#[trigger] visit_choices(g, out, k, st).0[m]).label < nl
                && type_fits(visit_choices(g, out, k, st).0[m].ty, graph_nodes(g).len(), nr, nl),
        forall|m: int|
            0 <= m < visit_choices(g, out, k, st).1.definitions.len() ==> definition_fits(
                #[trigger] visit_choices(g, out, k, st).1.definitions[m],
                graph_nodes(g).len(),
                nr,
                nl,
            ),
    decreases unseen(st.visited), 1nat, out.len() - k,
{
    if 0 <= k < out.len() {
        let e = graph_edges(g)[out[k]];
        lemma_visit_fits(g, e.1 as nat, st, nr, nl);
        let (ty, safe, after) = visit(g, e.1 as nat, st);
        let choice = Choice { label: e.2.label, ty, predicate: e.2.predicate };
        if unseen(after.visited) <= unseen(st.visited) {
            lemma_visit_choices_fits(g, out, k + 1, after, nr, nl);
            let (rest, last) = visit_choices(g, out, k + 1, after);
            let all = seq![choice] + rest;
            assert forall|m: int| 0 <= m < all.len() implies (#[trigger] all[m]).label < nl && type_fits(
                all[m].ty,
                graph_nodes(g).len(),
                nr,
                nl,
            ) by {
                if m > 0 {
                    assert(all[m] == rest[m - 1]);
                }
            }
        }
    }
}

/// The definitions that a walk of a well-formed graph makes hold only
/// indexes in range: of its states, of the roles its states talk to, and
/// of the labels of its edges.
pub proof fn lemma_definitions_fit(g: RoleGraph, nr: nat, nl: nat)
    requires
        graph_wf(g),
        graph_fits(g, nr, nl),
    ensures
        forall|k: int|
            0 <= k < definitions_of(g).len() ==> definition_fits(#[trigger] definitions_of(g)[k], graph_nodes(g).len(), nr, nl),
{
    let n = graph_nodes(g).len();
    let start = VisitState {
        visited: Seq::new(n, |i: int| false),
        looped: Seq::new(n, |i: int| i == 0),
        definitions: Seq::empty(),
    };
    lemma_visit_fits(g, 0, start, nr, nl);
    let (ty, safe, after) = visit(g, 0, start);
    if ty is Choice {
        let d = DefinitionModel { node: 0, body: BodyModel::Type { safe: true, ty } };
        assert(definition_fits(d, n, nr, nl));
        let defs = after.definitions.push(d);
        assert forall|k: int| 0 <= k < defs.len() implies definition_fits(#[trigger] defs[k], n, nr, nl) by {
            if k < after.definitions.len() {
                assert(defs[k] == after.definitions[k]);
            }
        }
    }
}

/// A walk of a role's graph that defines the types of its states.
struct Visitor<'a> {
    graph: &'a RoleGraph,
    visited: Vec<bool>,
    looped: Vec<bool>,
    definitions: Vec<Definition>,
}

spec fn state_of(v: Visitor) -> VisitState {
    VisitState {
        visited: v.visited@,
        looped: v.looped@,
        definitions: definitions_model(v.definitions@),
    }
}

impl<'a> Visitor<'a> {
    /// The type of `node`, and whether it is safe to name directly.
    fn visit(&mut self, node: usize) -> (r: (Type, bool))
        requires
            graph_wf(*old(self).graph),
            node < graph_nodes(*old(self).graph).len(),
            old(self).visited@.len() == graph_nodes(*old(self).graph).len(),
            old(self).looped@.len() == graph_nodes(*old(self).graph).len(),
        ensures
            final(self).graph == old(self).graph,
            final(self).visited@.len() == old(self).visited@.len(),
            final(self).looped@.len() == old(self).looped@.len(),
            (r.0, r.1, state_of(*final(self))) == visit(*old(self).graph, node as nat, state_of(*old(self))),
        decreases unseen(old(self).visited@),
    {
        let graph = self.graph;
        let ghost g = *graph;
        let ghost st = state_of(*self);
        let ghost out = out_edges(graph_edges(g), node as nat);
        proof {
            lemma_out_edges(graph_edges(g), node as nat);
        }
        let mut edges = DoublePeekable::new(graph_edges_from(graph, node));
        proof {
            assert(edges@.len() == out.len());
        }
        if edges.is_empty() {
            return (Type::End, true);
        }
        let weight = graph_node(graph, node);
        if let Some(e) = edges.singleton() {
            if self.visited[node] {
                self.looped.set(node, true);
                return (Type::Node(node), false);
            }
            self.visited.set(node, true);
            proof {
                lemma_unseen_mark(st.visited, node as int);
                assert(e == out[0]);
                assert(state_of(*self) == enter(st, node as nat));
            }
            let (_, target, edge) = graph_edge(graph, e);
            let (next, safe) = self.visit(target);
            let ty = Type::Message {
                direction: weight.direction.unwrap(),
                role: weight.role.unwrap(),
                label: edge.label,
                predicate: edge.predicate.duplicate(),
                side_effect: edge.side_effect.duplicate(),
                next: Box::new(next),
            };
            if self.looped[node] {
                let ghost before = self.definitions@;
                self.definitions.push(Definition { node, body: DefinitionBody::Type { safe, ty } });
                proof {
                    assert(definitions_model(self.definitions@) =~= definitions_model(before).push(
                        DefinitionModel { node: node as nat, body: BodyModel::Type { safe, ty } },
                    ));
                }
                return (Type::Node(node), true);
            }
            return (ty, safe);
        }
        let ty = Type::Choice {
            direction: weight.direction.unwrap(),
            role: weight.role.unwrap(),
            node,
            predicate: BoolPredicate::Normal(Predicate::Tautology(None)),
            side_effect: SideEffect::NoEffect,
        };
        if self.visited[node] {
            self.looped.set(node, true);
            return (ty, true);
        }
        self.visited.set(node, true);
        let ghost entered = enter(st, node as nat);
        proof {
            lemma_unseen_mark(st.visited, node as int);
            assert(state_of(*self) == entered);
        }
        let ghost whole = visit_choices(g, out, 0, entered);
        let mut choices: Vec<Choice> = Vec::new();
        let ghost mut k: int = 0;
        loop
            invariant
                self.graph == graph,
                g == *graph,
                graph_wf(g),
                out == out_edges(graph_edges(g), node as nat),
                forall|m: int| 0 <= m < out.len() ==> 0 <= #[trigger] out[m] < graph_edges(g).len(),
                0 <= k <= out.len(),
                edges@.len() == out.len() - k,
                forall|m: int| 0 <= m < edges@.len() ==> #[trigger] edges@[m] == out[k + m],
                self.visited@.len() == graph_nodes(g).len(),
                self.looped@.len() == graph_nodes(g).len(),
                unseen(self.visited@) < unseen(st.visited),
                st.visited == old(self).visited@,
                choices@ + visit_choices(g, out, k, state_of(*self)).0 == whole.0,
                visit_choices(g, out, k, state_of(*self)).1 == whole.1,
            ensures
                k == out.len(),
                self.graph == graph,
                self.visited@.len() == graph_nodes(g).len(),
                self.looped@.len() == graph_nodes(g).len(),
                choices@ + visit_choices(g, out, k, state_of(*self)).0 == whole.0,
                visit_choices(g, out, k, state_of(*self)).1 == whole.1,
            decreases edges@.len(),
        {
            let e = match edges.next() {
                None => break ,
                Some(e) => e,
            };
            let ghost here = state_of(*self);
            proof {
                assert(e == out[k]);
            }
            let (_, target, edge) = graph_edge(graph, e);
            let (ty, _) = self.visit(target);
            let choice = Choice { label: edge.label, ty, predicate: edge.predicate.duplicate() };
            proof {
                lemma_visit_grows(g, target as nat, here);
                assert(choices@.push(choice) + visit_choices(g, out, k + 1, state_of(*self)).0
                    =~= choices@ + visit_choices(g, out, k, here).0);
            }
            choices.push(choice);
            proof {
                k = k + 1;
            }
        }
        proof {
            assert(visit_choices(g, out, k, state_of(*self)).0 =~= Seq::<Choice>::empty());
            assert(choices@ =~= whole.0);
        }
        let ghost before = self.definitions@;
        let ghost chosen = choices@;
        self.definitions.push(Definition { node, body: DefinitionBody::Choice(choices) });
        proof {
            assert(definitions_model(self.definitions@) =~= definitions_model(before).push(
                DefinitionModel { node: node as nat, body: BodyModel::Choice(chosen) },
            ));
        }
        (ty, true)
    }
}

/// The definitions of the types of a role whose graph is `graph`.
pub fn generate_definitions(graph: &RoleGraph) -> (definitions: Vec<Definition>)
    requires
        graph_wf(*graph),
    ensures
        definitions_model(definitions@) == definitions_of(*graph),
{
    let n = graph_node_count(graph);
    let mut visited: Vec<bool> = Vec::new();
    let mut looped: Vec<bool> = Vec::new();
    let mut i: usize = 0;
    while i < n
        invariant
            i <= n,
            visited@ == Seq::new(i as nat, |k: int| false),
            looped@ == Seq::new(i as nat, |k: int| k == 0),
        decreases n - i,
    {
        visited.push(false);
        looped.push(i == 0);
        i = i + 1;
        proof {
            assert(visited@ =~= Seq::new(i as nat, |k: int| false));
            assert(looped@ =~= Seq::new(i as nat, |k: int| k == 0));
        }
    }
    let mut visitor = Visitor { graph, visited, looped, definitions: Vec::new() };
    proof {
        assert(definitions_model(visitor.definitions@) =~= Seq::<DefinitionModel>::empty());
    }
    let (ty, _) = visitor.visit(0);
    let mut definitions = visitor.definitions;
    if ty.is_choice() {
        let ghost before = definitions@;
        definitions.push(Definition { node: 0, body: DefinitionBody::Type { safe: true, ty } });
        proof {
            assert(definitions_model(definitions@) =~= definitions_model(before).push(
                DefinitionModel { node: 0, body: BodyModel::Type { safe: true, ty } },
            ));
        }
    }
    definitions
}

/// What heck's `CamelCase::to_camel_case` makes of a text.
pub uninterp spec fn camel_case(text: Seq<char>) -> Seq<char>;

/// What heck's `SnakeCase::to_snake_case` makes of a text.
pub uninterp spec fn snake_case(text: Seq<char>) -> Seq<char>;

/// heck's `CamelCase::to_camel_case`: the words of `text` run together,
/// each capitalised. Its result depends on `text` alone.
#[verifier::external_body]
pub(crate) fn to_camel_case(text: &str) -> (camel: String)
    ensures
        camel@ == camel_case(text@),
{
    text.to_camel_case()
}

/// heck's `SnakeCase::to_snake_case`: the words of `text` in lower case,
/// joined by underscores. Its result depends on `text` alone.
#[verifier::external_body]
pub(crate) fn to_snake_case(text: &str) -> (snake: String)
    ensures
        snake@ == snake_case(text@),
{
    text.to_snake_case()
}

/// The names of the states of a graph, in camel case.
pub fn generate_nodes(graph: &RoleGraph) -> (nodes: Vec<String>)
    ensures
        nodes@.len() == graph_nodes(*graph).len(),
        forall|i: int| 0 <= i < nodes@.len() ==> #[trigger] nodes@[i]@ == camel_case(graph_nodes(*graph)[i].name@),
{
    let mut nodes: Vec<String> = Vec::new();
    let mut i: usize = 0;
    while i < graph_node_count(graph)
        invariant
            i <= graph_nodes(*graph).len(),
            nodes@.len() == i,
            forall|k: int| 0 <= k < i ==> #[trigger] nodes@[k]@ == camel_case(graph_nodes(*graph)[k].name@),
        decreases graph_nodes(*graph).len() - i,
    {
        nodes.push(to_camel_case(graph_node(graph, i).name.as_str()));
        i = i + 1;
    }
    nodes
}

/// The roles other than the `i`-th of `n`, in order.
pub open spec fn other_roles(n: nat, i: nat, k: int) -> nat {
    if k < i {
        k as nat
    } else {
        (k + 1) as nat
    }
}

/// `r` is the role generated for the `i`-th of `n` roles, named `name`,
/// whose graph is `graph`: named in camel and snake case, with its states
/// named, a route to every other role in order, and the definitions of
/// its types.
pub open spec fn role_for(r: Role, i: nat, n: nat, name: Seq<char>, graph: RoleGraph) -> bool {
    &&& r.camel@ == camel_case(name)
    &&& r.snake@ == snake_case(name)
    &&& r.nodes@.len() == graph_nodes(graph).len()
    &&& forall|k: int| 0 <= k < r.nodes@.len() ==> #[trigger] r.nodes@[k]@ == camel_case(graph_nodes(graph)[k].name@)
    &&& r.routes@.len() == n - 1
    &&& forall|k: int| 0 <= k < r.routes@.len() ==> (#[trigger] r.routes@[k]).0 == other_roles(n, i, k)
    &&& definitions_model(r.definitions@) == definitions_of(graph)
}

/// The roles of a protocol from the graphs of its roles: each named in
/// camel and snake case, with its states named, routes to every other
/// role, and the definitions of its types.
pub fn generate_roles(roles: &Vec<(String, RoleGraph)>) -> (generated: Vec<Role>)
    requires
        forall|i: int| 0 <= i < roles@.len() ==> graph_wf(#[trigger] roles@[i].1),
    ensures
        generated@.len() == roles@.len(),
        forall|i: int|
            0 <= i < generated@.len() ==> role_for(
                #[trigger] generated@[i],
                i as nat,
                roles@.len(),
                roles@[i].0@,
                roles@[i].1,
            ),
{
    let n = roles.len();
    let mut generated: Vec<Role> = Vec::new();
    let mut i: usize = 0;
    while i < n
        invariant
            n == roles@.len(),
            i <= n,
            forall|k: int| 0 <= k < roles@.len() ==> graph_wf(#[trigger] roles@[k].1),
            generated@.len() == i,
            forall|m: int|
                0 <= m < i ==> role_for(#[trigger] generated@[m], m as nat, n as nat, roles@[m].0@, roles@[m].1),
        decreases n - i,
    {
        let (name, graph) = &roles[i];
        let mut routes: Vec<Route> = Vec::new();
        let mut j: usize = 0;
        while j < n
            invariant
                i < n,
                j <= n,
                routes@.len() == (if j <= i { j as int } else { j - 1 }),
                forall|k: int| 0 <= k < routes@.len() ==> (#[trigger] routes@[k]).0 == other_roles(
                    n as nat,
                    i as nat,
                    k,
                ),
            decreases n - j,
        {
            if j != i {
                routes.push(Route(j));
            }
            j = j + 1;
        }
        let role = Role {
            camel: to_camel_case(name.as_str()),
            snake: to_snake_case(name.as_str()),
            nodes: generate_nodes(graph),
            routes,
            definitions: generate_definitions(graph),
        };
        generated.push(role);
        i = i + 1;
    }
    generated
}

/// A label of a protocol from its name and parameters: its name in camel
/// case, and the names and types of its parameters apart.
pub fn generate_label(label: &String, parameters: &Vec<(String, String)>) -> (generated: Label)
    ensures
        generated.camel@ == camel_case(label@),
        generated.param_names@.len() == parameters@.len(),
        generated.parameters@.len() == parameters@.len(),
        forall|k: int|
            0 <= k < parameters@.len() ==> (#[trigger] generated.param_names@[k])@ == parameters@[k].0@
                && generated.parameters@[k]@ == parameters@[k].1@,
{
    let mut names: Vec<String> = Vec::new();
    let mut types: Vec<String> = Vec::new();
    let mut i: usize = 0;
    while i < parameters.len()
        invariant
            i <= parameters@.len(),
            names@.len() == i,
            types@.len() == i,
            forall|k: int|
                0 <= k < i ==> (#[trigger] names@[k])@ == parameters@[k].0@ && types@[k]@
                    == parameters@[k].1@,
        decreases parameters@.len() - i,
    {
        let name = parameters[i].0.clone();
        let ty = parameters[i].1.clone();
        names.push(name);
        types.push(ty);
        proof {
            assert(names@[i as int]@ == parameters@[i as int].0@);
            assert(types@[i as int]@ == parameters@[i as int].1@);
        }
        i = i + 1;
    }
    Label { camel: to_camel_case(label.as_str()), param_names: names, parameters: types }
}

/// `label` is the label named `name` with `parameters`.
pub open spec fn label_for(label: Label, name: Seq<char>, parameters: Seq<(Seq<char>, Seq<char>)>) -> bool {
    &&& label.camel@ == camel_case(name)
    &&& label.param_names@.len() == parameters.len()
    &&& label.parameters@.len() == parameters.len()
    &&& forall|k: int|
        0 <= k < parameters.len() ==> (#[trigger] label.param_names@[k])@ == parameters[k].0
            && label.parameters@[k]@ == parameters[k].1
}

/// The labels of a protocol, in the order in which their payloads came
/// in.
pub fn generate_labels(labels: &IndexMap<String, Vec<(String, String)>>) -> (generated: Vec<Label>)
    ensures
        generated@.len() == parameter_entries(*labels).len(),
        forall|i: int|
            0 <= i < generated@.len() ==> label_for(
                #[trigger] generated@[i],
                parameter_entries(*labels)[i].0,
                parameter_entries(*labels)[i].1,
            ),
{
    let entries = parameters_entries(labels);
    let ghost views = parameter_entries(*labels);
    let mut generated: Vec<Label> = Vec::new();
    let mut i: usize = 0;
    while i < entries.len()
        invariant
            views == parameter_entries(*labels),
            entries@.map_values(|e: (String, Vec<(String, String)>)| (e.0@, parameters_view(e.1)))
                == views,
            i <= entries@.len(),
            generated@.len() == i,
            forall|m: int| 0 <= m < i ==> label_for(#[trigger] generated@[m], views[m].0, views[m].1),
        decreases entries@.len() - i,
    {
        let (name, parameters) = &entries[i];
        let label = generate_label(name, parameters);
        proof {
            assert(views[i as int] == (name@, parameters_view(*parameters)));
            assert forall|k: int| 0 <= k < parameters@.len() implies (#[trigger] label.param_names@[k])@
                == views[i as int].1[k].0 && label.parameters@[k]@ == views[i as int].1[k].1 by {
                assert(parameters_view(*parameters)[k] == (parameters@[k].0@, parameters@[k].1@));
            }
            assert(label_for(label, views[i as int].0, views[i as int].1));
        }
        generated.push(label);
        i = i + 1;
    }
    generated
}

/// Some edge leaves `node` exactly when `out_edges` lists one.
pub proof fn lemma_out_edges_exist(edges: Seq<(usize, usize, GraphEdge)>, node: nat)
    ensures
        out_edges(edges, node).len() > 0 <==> exists|i: int| 0 <= i < edges.len() && #[trigger] edges[i].0 == node,
    decreases edges.len(),
{
    if edges.len() > 0 {
        let rest = edges.drop_last();
        lemma_out_edges_exist(rest, node);
        if exists|i: int| 0 <= i < rest.len() && #[trigger] rest[i].0 == node {
            let i = choose|i: int| 0 <= i < rest.len() && #[trigger] rest[i].0 == node;
            assert(edges[i].0 == node);
        }
        if exists|i: int| 0 <= i < edges.len() && #[trigger] edges[i].0 == node {
            let i = choose|i: int| 0 <= i < edges.len() && #[trigger] edges[i].0 == node;
            if i < rest.len() {
                assert(rest[i].0 == node);
            }
        }
    }
}

/// Builds a protocol from its name and the graphs of its roles.
#[derive(Debug)]
pub struct Builder {
    pub name: String,
    pub roles: Vec<String>,
}

impl Default for Builder {
    /// A builder with no name and no roles.
    fn default() -> (builder: Self)
        ensures
            builder.name@ == Seq::<char>::empty(),
            builder.roles@ == Seq::<String>::empty(),
    {
        Builder { name: String::new(), roles: Vec::new() }
    }
}

/// `r` is the role generated for the `i`-th of `n` roles, named `name`,
/// whose graph has the states and edges of `graph`.
pub open spec fn role_with_graph(
    r: Role,
    i: nat,
    n: nat,
    name: Seq<char>,
    graph: (Seq<GraphNode>, Seq<(usize, usize, GraphEdge)>),
) -> bool {
    exists|g: RoleGraph| graph_nodes(g) == graph.0 && graph_edges(g) == graph.1 && #[trigger] role_for(r, i, n, name, g)
}

/// `p` is the protocol named `name` whose roles have the graphs `inputs`:
/// its name in camel case, a role for each graph, in order, and a label
/// for each payload, in the order in which the payloads are met.
pub open spec fn protocol_for(p: Protocol, name: Seq<char>, inputs: Seq<DotGraph>) -> bool {
    let names = graph_names(inputs);
    let (graphs, labels) = graphs_from(inputs, 0, names, Seq::empty());
    &&& p.camel@ == camel_case(name)
    &&& p.roles@.len() == inputs.len()
    &&& forall|i: int|
        0 <= i < inputs.len() ==> role_with_graph(#[trigger] p.roles@[i], i as nat, inputs.len(), names[i], graphs[i])
    &&& p.labels@.len() == labels.len()
    &&& forall|i: int| 0 <= i < labels.len() ==> label_for(#[trigger] p.labels@[i], labels[i].0, labels[i].1)
}

impl Builder {
    /// The builder with its protocol named `name`.
    pub fn name(self, name: String) -> (builder: Self)
        ensures
            builder.name == name,
            builder.roles == self.roles,
    {
        Builder { name, roles: self.roles }
    }

    /// The builder with one more role, whose graph is at `path`.
    pub fn role(self, path: String) -> (builder: Self)
        ensures
            builder.name == self.name,
            builder.roles@ == self.roles@.push(path),
    {
        let mut roles = self.roles;
        roles.push(path);
        Builder { name: self.name, roles }
    }

    /// The protocol from the graphs of the roles, read from the builder's
    /// paths in order. A builder without a name is an error, and so are
    /// two graphs for one role.
    pub fn generate(&self, inputs: &Vec<DotGraph>) -> (result: Result<Protocol, StrError>)
        requires
            self.name@.len() > 0 ==> forall|i: int| 0 <= i < inputs@.len() ==> (#[trigger] inputs@[i]).name is Some,
            self.name@.len() > 0 && first_repeat(graph_names(inputs@), 0) is None ==> forall|i: int|
                0 <= i < inputs@.len() ==> graph_edges_checked(#[trigger] inputs@[i]) is Ok
                    && edges_readable(inputs@[i].statements@, graph_names(inputs@))
                    && graph_sizes_fit(inputs@[i])
                    && node_names(inputs@[i].statements@).len() > 0,
        ensures
            self.name@.len() == 0 ==> result is Err && result->Err_0.msg@ == "protocol name was not set in builder"@,
            self.name@.len() > 0 ==> match first_repeat(graph_names(inputs@), 0) {
                Some(i) => result is Err && result->Err_0.msg@ == "Duplicate graphs found for role "@
                    + graph_names(inputs@)[i as int],
                None => result is Ok && protocol_for(result->Ok_0, self.name@, inputs@),
            },
            result is Ok && (forall|l: int|
                0 <= l < result->Ok_0.labels@.len() ==> (#[trigger] result->Ok_0.labels@[l]).param_names@.len() > 0)
                ==> forall|i: int, k: int|
                0 <= i < result->Ok_0.roles@.len() && 0 <= k < result->Ok_0.roles@[i].definitions@.len()
                    ==> definition_formattable(
                    #[trigger] result->Ok_0.roles@[i].definitions@[k],
                    result->Ok_0.roles@[i],
                    result->Ok_0.roles@,
                    result->Ok_0.labels@,
                ),
    {
        if self.name.as_str().unicode_len() == 0 {
            return Err(error_msg(String::from_str("protocol name was not set in builder")));
        }
        let tree = match Tree::parse(inputs) {
            Ok(tree) => tree,
            Err(e) => return Err(e),
        };
        proof {
            assert forall|i: int| 0 <= i < tree.roles@.len() implies graph_wf(#[trigger] tree.roles@[i].1) by {
                lemma_fit_wf(tree.roles@[i].1);
            }
        }
        let roles = generate_roles(&tree.roles);
        let labels = generate_labels(&tree.labels);
        let camel = to_camel_case(self.name.as_str());
        let protocol = Protocol { camel, roles, labels };
        proof {
            let names = graph_names(inputs@);
            let (graphs, labels) = graphs_from(inputs@, 0, names, Seq::empty());
            assert forall|i: int| 0 <= i < inputs@.len() implies role_with_graph(
                #[trigger] protocol.roles@[i],
                i as nat,
                inputs@.len(),
                names[i],
                graphs[i],
            ) by {
                let g = tree.roles@[i].1;
                assert(role_for(protocol.roles@[i], i as nat, tree.roles@.len(), tree.roles@[i].0@, g));
            }
            if forall|l: int| 0 <= l < protocol.labels@.len() ==> (#[trigger] protocol.labels@[l]).param_names@.len() > 0 {
                lemma_generated_formattable(tree.roles@, protocol.roles@, protocol.labels@);
            }
        }
        Ok(protocol)
    }
}

/// A type whose indexes are in range for a role, where every label has a
/// parameter, can be written.
pub proof fn lemma_fits_formattable(ty: Type, role: Role, roles: Seq<Role>, labels: Seq<Label>)
    requires
        type_fits(ty, role.nodes@.len(), roles.len(), labels.len()),
        forall|l: int| 0 <= l < labels.len() ==> (#[trigger] labels[l]).param_names@.len() > 0,
    ensures
        formattable(ty, role, roles, labels),
    decreases ty,
{
    if let Type::Message { next, .. } = ty {
        lemma_fits_formattable(*next, role, roles, labels);
    }
}

/// A definition of `role` that can be written out: its state is one of the
/// role's, its type (or the type and label of each of its choices) can be
/// written.
pub open spec fn definition_formattable(d: Definition, role: Role, roles: Seq<Role>, labels: Seq<Label>) -> bool {
    &&& d.node < role.nodes@.len()
    &&& match d.body {
        DefinitionBody::Type { ty, .. } => formattable(ty, role, roles, labels),
        DefinitionBody::Choice(choices) => forall|k: int|
            0 <= k < choices@.len() ==> (#[trigger] choices@[k]).label < labels.len() && formattable(
                choices@[k].ty,
                role,
                roles,
                labels,
            ),
    }
}

/// Generated roles can be written out: where each graph is well formed,
/// its states talk to roles among those generated and its edges carry
/// labels among `labels`, and every label has a parameter, every
/// definition of every generated role names only states, roles and
/// labels that there are.
pub proof fn lemma_generated_formattable(inputs: Seq<(String, RoleGraph)>, roles: Seq<Role>, labels: Seq<Label>)
    requires
        roles.len() == inputs.len(),
        forall|i: int|
            0 <= i < inputs.len() ==> graph_wf(#[trigger] inputs[i].1) && graph_fits(inputs[i].1, inputs.len(), labels.len()),
        forall|i: int| 0 <= i < roles.len() ==> role_for(#[trigger] roles[i], i as nat, inputs.len(), inputs[i].0@, inputs[i].1),
        forall|l: int| 0 <= l < labels.len() ==> (#[trigger] labels[l]).param_names@.len() > 0,
    ensures
        forall|i: int, k: int|
            0 <= i < roles.len() && 0 <= k < roles[i].definitions@.len() ==> definition_formattable(
                #[trigger] roles[i].definitions@[k],
                roles[i],
                roles,
                labels,
            ),
{
    assert forall|i: int, k: int| 0 <= i < roles.len() && 0 <= k < roles[i].definitions@.len() implies definition_formattable(
        #[trigger] roles[i].definitions@[k],
        roles[i],
        roles,
        labels,
    ) by {
        let g = inputs[i].1;
        let r = roles[i];
        assert(role_for(r, i as nat, inputs.len(), inputs[i].0@, g));
        lemma_definitions_fit(g, inputs.len(), labels.len());
        let d = r.definitions@[k];
        assert(definitions_model(r.definitions@)[k] == definition_model(d));
        assert(definitions_of(g)[k] == definition_model(d));
        assert(definition_fits(definition_model(d), graph_nodes(g).len(), inputs.len(), labels.len()));
        match d.body {
            DefinitionBody::Type { ty, .. } => {
                lemma_fits_formattable(ty, r, roles, labels);
            },
            DefinitionBody::Choice(choices) => {
                assert forall|m: int| 0 <= m < choices@.len() implies (#[trigger] choices@[m]).label < labels.len()
                    && formattable(choices@[m].ty, r, roles, labels) by {
                    lemma_fits_formattable(choices@[m].ty, r, roles, labels);
                }
            },
        }
    }
}

} // verus!
