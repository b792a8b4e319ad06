use crate::generate::{
    graph_add_edge, graph_add_node, graph_edges, graph_fits, graph_new, graph_node, graph_nodes, graph_set_node,
    graph_wf, lemma_out_edges_exist, out_edges, RoleGraph, GraphEdge, GraphNode,
};
use crate::index::{
    direction_entries, direction_view, directions_get, directions_insert, directions_new, entry_index,
    insert_entry, lookup, name_index, names_index_of, names_with_capacity, parameter_entries,
    parameters_contains, parameters_get, parameters_index_of, parameters_insert, parameters_new,
    parameters_view, set_names,
};
use crate::label::{
    bool_predicate_for, compares_variables, direction_for, side_effect_for, Direction, Label,
};
use indexmap::{IndexMap, IndexSet};
use vstd::prelude::*;

verus! {

/// An edge statement of a DOT graph: its two states, whether it chains
/// on to more states, and its attribute lists, each read as edge labels.
#[derive(Debug)]
pub struct DotEdge {
    pub from: String,
    pub to: String,
    pub chained: bool,
    pub attributes: Vec<Vec<Label>>,
}

/// A statement of a DOT graph: a state, an edge, or something else.
#[derive(Debug)]
pub enum Statement {
    Node(String),
    Edge(DotEdge),
    Other,
}

/// A DOT graph: its name, if it has one, and its statements.
#[derive(Debug)]
pub struct DotGraph {
    pub name: Option<String>,
    pub statements: Vec<Statement>,
}

/// Why the edges of a graph do not describe a role.
#[derive(Debug)]
pub enum EdgeError {
    ChainedEdges,
    ParameterMismatch(String),
    NoPayload,
    UndeclaredNode,
    SendAfterReceive,
    ReceiveAfterSend,
    MixedRoles(String, String),
    OwnRole(String),
}

/// Why the edges of a graph do not describe a role, as plain values.
pub enum EdgeErrorModel {
    ChainedEdges,
    ParameterMismatch(Seq<char>),
    NoPayload,
    UndeclaredNode,
    SendAfterReceive,
    ReceiveAfterSend,
    MixedRoles(Seq<char>, Seq<char>),
    OwnRole(Seq<char>),
}

impl EdgeError {
    pub open spec fn model(&self) -> EdgeErrorModel {
        match self {
            EdgeError::ChainedEdges => EdgeErrorModel::ChainedEdges,
            EdgeError::ParameterMismatch(p) => EdgeErrorModel::ParameterMismatch(p@),
            EdgeError::NoPayload => EdgeErrorModel::NoPayload,
            EdgeError::UndeclaredNode => EdgeErrorModel::UndeclaredNode,
            EdgeError::SendAfterReceive => EdgeErrorModel::SendAfterReceive,
            EdgeError::ReceiveAfterSend => EdgeErrorModel::ReceiveAfterSend,
            EdgeError::MixedRoles(found, expected) => EdgeErrorModel::MixedRoles(found@, expected@),
            EdgeError::OwnRole(role) => EdgeErrorModel::OwnRole(role@),
        }
    }
}

/// The last label of the attribute lists from the `k`-th back.
pub open spec fn last_label(attributes: Seq<Vec<Label>>, k: int) -> Option<Label>
    decreases k,
{
    if k <= 0 || k > attributes.len() {
        None
    } else if attributes[k - 1]@.len() > 0 {
        Some(attributes[k - 1]@.last())
    } else {
        last_label(attributes, k - 1)
    }
}

/// The label of an edge: the last label among its attributes.
pub open spec fn edge_label(edge: DotEdge) -> Option<Label> {
    last_label(edge.attributes@, edge.attributes@.len() as int)
}

/// The states that the statements from the `k`-th on declare, added to
/// `nodes` with nothing done yet.
pub open spec fn declared(
    statements: Seq<Statement>,
    k: int,
    nodes: Seq<(Seq<char>, Option<(bool, Seq<char>)>)>,
) -> Seq<(Seq<char>, Option<(bool, Seq<char>)>)>
    decreases statements.len() - k,
{
    if k < 0 || k >= statements.len() {
        nodes
    } else {
        match statements[k] {
            Statement::Node(name) => declared(statements, k + 1, insert_entry(nodes, name@, None)),
            _ => declared(statements, k + 1, nodes),
        }
    }
}

/// Checks the edge statements from the `k`-th on, given what each state
/// does and the parameters of each payload so far. Each edge must stand
/// alone, carry a label whose payload keeps its parameters, leave a
/// declared state that talks to one role in one direction, and not talk
/// to the graph's own role.
pub open spec fn check_from(
    statements: Seq<Statement>,
    k: int,
    name: Option<Seq<char>>,
    nodes: Seq<(Seq<char>, Option<(bool, Seq<char>)>)>,
    payloads: Seq<(Seq<char>, Seq<(Seq<char>, Seq<char>)>)>,
) -> Result<(), EdgeErrorModel>
    decreases statements.len() - k,
{
    if k < 0 || k >= statements.len() {
        Ok(())
    } else {
        match statements[k] {
            Statement::Edge(edge) => {
                if edge.chained {
                    Err(EdgeErrorModel::ChainedEdges)
                } else {
                    match edge_label(edge) {
                        None => Err(EdgeErrorModel::NoPayload),
                        Some(label) => {
                            let payload = label.payload@;
                            let parameters = parameters_view(label.parameters);
                            let known = lookup(payloads, payload);
                            if known is Some && known->Some_0 != parameters {
                                Err(EdgeErrorModel::ParameterMismatch(payload))
                            } else {
                                let payloads = if known is None {
                                    insert_entry(payloads, payload, parameters)
                                } else {
                                    payloads
                                };
                                match lookup(nodes, edge.from@) {
                                    None => Err(EdgeErrorModel::UndeclaredNode),
                                    Some(done) => {
                                        let sends = label.direction == Direction::Send;
                                        let role = label.role@;
                                        if done is Some && done->Some_0.0 != sends {
                                            if sends {
                                                Err(EdgeErrorModel::SendAfterReceive)
                                            } else {
                                                Err(EdgeErrorModel::ReceiveAfterSend)
                                            }
                                        } else if done is Some && done->Some_0.1 != role {
                                            Err(EdgeErrorModel::MixedRoles(done->Some_0.1, edge.to@))
                                        } else if name == Some(role) {
                                            Err(EdgeErrorModel::OwnRole(role))
                                        } else {
                                            check_from(
                                                statements,
                                                k + 1,
                                                name,
                                                insert_entry(nodes, edge.from@, Some((sends, role))),
                                                payloads,
                                            )
                                        }
                                    },
                                }
                            }
                        },
                    }
                }
            },
            _ => check_from(statements, k + 1, name, nodes, payloads),
        }
    }
}

/// The name of a graph, as text.
pub open spec fn graph_name(graph: DotGraph) -> Option<Seq<char>> {
    match graph.name {
        Some(n) => Some(n@),
        None => None,
    }
}

/// Whether the edges of `graph` describe a role, and if not, why.
pub open spec fn graph_edges_checked(graph: DotGraph) -> Result<(), EdgeErrorModel> {
    let statements = graph.statements@;
    check_from(statements, 0, graph_name(graph), declared(statements, 0, Seq::empty()), Seq::empty())
}

fn clone_parameters(parameters: &Vec<(String, String)>) -> (copy: Vec<(String, String)>)
    ensures
        copy@ == parameters@,
{
    let mut copy: Vec<(String, String)> = Vec::new();
    let mut i: usize = 0;
    while i < parameters.len()
        invariant
            i <= parameters@.len(),
            copy@ == parameters@.subrange(0, i as int),
        decreases parameters@.len() - i,
    {
        let (a, b) = &parameters[i];
        copy.push((a.clone(), b.clone()));
        i = i + 1;
        proof {
            assert(copy@ =~= parameters@.subrange(0, i as int));
        }
    }
    proof {
        assert(copy@ =~= parameters@);
    }
    copy
}

fn same_parameters(a: &Vec<(String, String)>, b: &Vec<(String, String)>) -> (same: bool)
    ensures
        same == (parameters_view(*a) == parameters_view(*b)),
{
    if a.len() != b.len() {
        proof {
            assert(parameters_view(*a).len() != parameters_view(*b).len());
        }
        return false;
    }
    let mut i: usize = 0;
    while i < a.len()
        invariant
            a@.len() == b@.len(),
            i <= a@.len(),
            forall|k: int| 0 <= k < i ==> parameters_view(*a)[k] == parameters_view(*b)[k],
        decreases a@.len() - i,
    {
        if !(a[i].0.eq(&b[i].0) && a[i].1.eq(&b[i].1)) {
            proof {
                assert(parameters_view(*a)[i as int] != parameters_view(*b)[i as int]);
            }
            return false;
        }
        i = i + 1;
    }
    proof {
        assert(parameters_view(*a) =~= parameters_view(*b));
    }
    true
}

/// The label of an edge: the last label among its attributes.
fn label_of(edge: &DotEdge) -> (label: Option<&Label>)
    ensures
        match label {
            Some(l) => edge_label(*edge) == Some(*l),
            None => edge_label(*edge) is None,
        },
{
    let mut k = edge.attributes.len();
    while k > 0
        invariant
            k <= edge.attributes@.len(),
            last_label(edge.attributes@, k as int) == edge_label(*edge),
        decreases k,
    {
        let list = &edge.attributes[k - 1];
        if list.len() > 0 {
            return Some(&list[list.len() - 1]);
        }
        k = k - 1;
    }
    None
}

/// Checks that the edges of `graph` describe a role: see `check_from`.
pub fn check_graph_edges(graph: &DotGraph) -> (result: Result<(), EdgeError>)
    ensures
        match result {
            Ok(()) => graph_edges_checked(*graph) == Ok::<(), EdgeErrorModel>(()),
            Err(e) => graph_edges_checked(*graph) == Err::<(), EdgeErrorModel>(e.model()),
        },
{
    let statements = &graph.statements;
    let ghost name = graph_name(*graph);
    let mut nodes = directions_new();
    let mut k: usize = 0;
    while k < statements.len()
        invariant
            k <= statements@.len(),
            declared(statements@, k as int, direction_entries(nodes)) == declared(
                statements@,
                0,
                Seq::empty(),
            ),
        decreases statements@.len() - k,
    {
        if let Statement::Node(node) = &statements[k] {
            directions_insert(&mut nodes, node.clone(), None);
        }
        k = k + 1;
    }
    let mut payload_types = parameters_new();
    let ghost goal = graph_edges_checked(*graph);
    let mut k: usize = 0;
    while k < statements.len()
        invariant
            k <= statements@.len(),
            goal == graph_edges_checked(*graph),
            name == graph_name(*graph),
            check_from(
                statements@,
                k as int,
                name,
                direction_entries(nodes),
                parameter_entries(payload_types),
            ) == goal,
        decreases statements@.len() - k,
    {
        if let Statement::Edge(edge) = &statements[k] {
            if edge.chained {
                return Err(EdgeError::ChainedEdges);
            }
            let label = match label_of(edge) {
                Some(label) => label,
                None => return Err(EdgeError::NoPayload),
            };
            match parameters_get(&payload_types, &label.payload) {
                Some(parameters) => {
                    if !same_parameters(&parameters, &label.parameters) {
                        return Err(EdgeError::ParameterMismatch(label.payload.clone()));
                    }
                },
                None => {
                    parameters_insert(
                        &mut payload_types,
                        label.payload.clone(),
                        clone_parameters(&label.parameters),
                    );
                },
            }
            let done = match directions_get(&nodes, &edge.from) {
                Some(done) => done,
                None => return Err(EdgeError::UndeclaredNode),
            };
            let sends = label.direction == Direction::Send;
            if let Some((sent, peer)) = &done {
                if *sent != sends {
                    if sends {
                        return Err(EdgeError::SendAfterReceive);
                    } else {
                        return Err(EdgeError::ReceiveAfterSend);
                    }
                }
                if !peer.eq(&label.role) {
                    return Err(EdgeError::MixedRoles(peer.clone(), edge.to.clone()));
                }
            }
            directions_insert(&mut nodes, edge.from.clone(), Some((sends, label.role.clone())));
            if let Some(name) = &graph.name {
                if name.eq(&label.role) {
                    return Err(EdgeError::OwnRole(label.role.clone()));
                }
            }
        }
        k = k + 1;
    }
    Ok(())
}

/// The names of the roles and of the labels met so far while reading the
/// graphs of a protocol.
pub struct Context {
    pub roles: IndexSet<String>,
    pub labels: IndexMap<String, Vec<(String, String)>>,
}

impl Context {
    /// No role and no label yet, with room for `capacity` roles.
    pub fn with_capacity(capacity: usize) -> (context: Self)
        ensures
            set_names(context.roles) == Seq::<Seq<char>>::empty(),
            parameter_entries(context.labels) == Seq::<(Seq<char>, Seq<(Seq<char>, Seq<char>)>)>::empty(),
    {
        Self { roles: names_with_capacity(capacity), labels: parameters_new() }
    }
}

/// The names of the states that the statements declare, in order.
pub open spec fn node_strings(statements: Seq<Statement>) -> Seq<String>
    decreases statements.len(),
{
    if statements.len() == 0 {
        Seq::empty()
    } else {
        node_strings(statements.drop_last()) + match statements.last() {
            Statement::Node(name) => seq![name],
            _ => Seq::empty(),
        }
    }
}

/// The names of the states that the statements declare, as texts.
pub open spec fn node_names(statements: Seq<Statement>) -> Seq<Seq<char>> {
    node_strings(statements).map_values(|n: String| n@)
}

/// The states of a role's graph before any edge: one for each state
/// declared, named as declared.
pub open spec fn fresh_nodes(statements: Seq<Statement>) -> Seq<GraphNode> {
    node_strings(statements).map_values(|n: String| GraphNode { name: n, role: None, direction: None })
}

/// The edge statements, in order.
pub open spec fn edges_of(statements: Seq<Statement>) -> Seq<DotEdge>
    decreases statements.len(),
{
    if statements.len() == 0 {
        Seq::empty()
    } else {
        edges_of(statements.drop_last()) + match statements.last() {
            Statement::Edge(edge) => seq![edge],
            _ => Seq::empty(),
        }
    }
}

/// The last position of `x` among `names`.
pub open spec fn last_position(names: Seq<Seq<char>>, x: Seq<char>) -> Option<nat>
    decreases names.len(),
{
    if names.len() == 0 {
        None
    } else if names.last() == x {
        Some((names.len() - 1) as nat)
    } else {
        last_position(names.drop_last(), x)
    }
}

proof fn lemma_last_position(names: Seq<Seq<char>>, x: Seq<char>)
    ensures
        last_position(names, x) matches Some(i) ==> i < names.len() && names[i as int] == x,
    decreases names.len(),
{
    if names.len() > 0 && names.last() != x {
        lemma_last_position(names.drop_last(), x);
    }
}

/// The label that makes an edge of a role's graph: the first of its
/// first attribute list.
pub open spec fn first_label(edge: DotEdge) -> Label {
    edge.attributes@[0]@[0]
}

/// The states and edges of a role's graph after adding the edges from
/// the `k`-th on, with the labels met so far: each edge leads from the
/// last state declared with its source's name to the last declared with
/// its target's, and makes its source talk to the role of its label in
/// its direction; a payload met for the first time is added to the
/// labels. `None` where a source is not declared.
pub open spec fn add_edges(
    names: Seq<Seq<char>>,
    edges: Seq<DotEdge>,
    k: int,
    roles: Seq<Seq<char>>,
    labels: Seq<(Seq<char>, Seq<(Seq<char>, Seq<char>)>)>,
    nodes: Seq<GraphNode>,
    out: Seq<(usize, usize, GraphEdge)>,
) -> Option<(Seq<GraphNode>, Seq<(usize, usize, GraphEdge)>, Seq<(Seq<char>, Seq<(Seq<char>, Seq<char>)>)>)>
    decreases edges.len() - k,
{
    if k < 0 || k >= edges.len() {
        Some((nodes, out, labels))
    } else {
        let e = edges[k];
        let l = first_label(e);
        match (last_position(names, e.from@), last_position(names, e.to@)) {
            (Some(f), Some(t)) => {
                let payload = l.payload@;
                let labels = if entry_index(labels, payload) is None {
                    insert_entry(labels, payload, parameters_view(l.parameters))
                } else {
                    labels
                };
                let node = GraphNode {
                    name: nodes[f as int].name,
                    role: Some(name_index(roles, l.role@)->Some_0 as usize),
                    direction: Some(direction_for(l.direction)),
                };
                let edge = GraphEdge {
                    label: entry_index(labels, payload)->Some_0 as usize,
                    predicate: bool_predicate_for(l.predicate),
                    side_effect: side_effect_for(l.side_effect),
                };
                add_edges(
                    names,
                    edges,
                    k + 1,
                    roles,
                    labels,
                    nodes.update(f as int, node),
                    out.push((f as usize, t as usize, edge)),
                )
            },
            _ => None,
        }
    }
}

/// Every edge has a first label, whose role is among `roles` and whose
/// comparisons compare variables, and leads to a declared state.
pub open spec fn edges_readable(statements: Seq<Statement>, roles: Seq<Seq<char>>) -> bool {
    forall|k: int|
        0 <= k < edges_of(statements).len() ==> {
            let e = #[trigger] edges_of(statements)[k];
            &&& e.attributes@.len() > 0
            &&& e.attributes@[0]@.len() > 0
            &&& name_index(roles, first_label(e).role@) is Some
            &&& compares_variables(first_label(e).predicate)
            &&& last_position(node_names(statements), e.from@) is Some
            &&& last_position(node_names(statements), e.to@) is Some
        }
}

/// Where every edge leads between declared states, adding the edges
/// succeeds.
proof fn lemma_add_edges_some(
    names: Seq<Seq<char>>,
    edges: Seq<DotEdge>,
    k: int,
    roles: Seq<Seq<char>>,
    labels: Seq<(Seq<char>, Seq<(Seq<char>, Seq<char>)>)>,
    nodes: Seq<GraphNode>,
    out: Seq<(usize, usize, GraphEdge)>,
)
    requires
        forall|m: int| 0 <= m < edges.len() ==> last_position(names, (#[trigger] edges[m]).from@) is Some
            && last_position(names, edges[m].to@) is Some,
    ensures
        add_edges(names, edges, k, roles, labels, nodes, out) is Some,
    decreases edges.len() - k,
{
    if 0 <= k < edges.len() {
        let e = edges[k];
        let l = first_label(e);
        let f = last_position(names, e.from@)->Some_0;
        let t = last_position(names, e.to@)->Some_0;
        let payload = l.payload@;
        let labels2 = if entry_index(labels, payload) is None {
            insert_entry(labels, payload, parameters_view(l.parameters))
        } else {
            labels
        };
        let node = GraphNode {
            name: nodes[f as int].name,
            role: Some(name_index(roles, l.role@)->Some_0 as usize),
            direction: Some(direction_for(l.direction)),
        };
        let edge = GraphEdge {
            label: entry_index(labels2, payload)->Some_0 as usize,
            predicate: bool_predicate_for(l.predicate),
            side_effect: side_effect_for(l.side_effect),
        };
        lemma_add_edges_some(names, edges, k + 1, roles, labels2, nodes.update(f as int, node), out.push((f as usize, t as usize, edge)));
    }
}

/// The graph of a role.
pub struct Digraph {
    pub graph: RoleGraph,
}

proof fn lemma_statements_split(statements: Seq<Statement>, k: int)
    requires
        0 <= k < statements.len(),
    ensures
        node_strings(statements.subrange(0, k + 1)) == node_strings(statements.subrange(0, k)) + match statements[k] {
            Statement::Node(name) => seq![name],
            _ => Seq::empty(),
        },
        edges_of(statements.subrange(0, k + 1)) == edges_of(statements.subrange(0, k)) + match statements[k] {
            Statement::Edge(edge) => seq![edge],
            _ => Seq::empty(),
        },
{
    assert(statements.subrange(0, k + 1).drop_last() =~= statements.subrange(0, k));
}

/// Names as texts.
pub open spec fn texts(names: Seq<String>) -> Seq<Seq<char>> {
    names.map_values(|n: String| n@)
}

/// A name is found among names exactly where one of them equals it.
proof fn lemma_name_index_some(names: Seq<Seq<char>>, key: Seq<char>)
    ensures
        name_index(names, key) is Some <==> exists|i: int| 0 <= i < names.len() && names[i] == key,
    decreases names.len(),
{
    if names.len() > 0 {
        let rest = names.drop_last();
        lemma_name_index_some(rest, key);
        if exists|i: int| 0 <= i < names.len() && names[i] == key {
            let i = choose|i: int| 0 <= i < names.len() && names[i] == key;
            if i < rest.len() {
                assert(rest[i] == key);
            }
        }
        if exists|i: int| 0 <= i < rest.len() && rest[i] == key {
            let i = choose|i: int| 0 <= i < rest.len() && rest[i] == key;
            assert(names[i] == key);
        }
    }
}

/// Whether `x` is among `names`.
fn contains_name(names: &Vec<String>, x: &String) -> (found: bool)
    ensures
        found == name_index(texts(names@), x@) is Some,
{
    let ghost all = texts(names@);
    proof {
        lemma_name_index_some(all, x@);
    }
    let mut i: usize = 0;
    while i < names.len()
        invariant
            i <= names@.len(),
            all == texts(names@),
            forall|j: int| 0 <= j < i ==> all[j] != x@,
            name_index(all, x@) is Some <==> exists|j: int| 0 <= j < all.len() && all[j] == x@,
        decreases names@.len() - i,
    {
        if names[i].eq(x) {
            proof {
                assert(all[i as int] == x@);
            }
            return true;
        }
        i = i + 1;
    }
    false
}

/// The names of the states that a graph declares, in order.
pub fn declared_states(graph: &DotGraph) -> (names: Vec<String>)
    ensures
        names@ == node_strings(graph.statements@),
{
    let statements = &graph.statements;
    let mut names: Vec<String> = Vec::new();
    let mut k: usize = 0;
    while k < statements.len()
        invariant
            k <= statements@.len(),
            names@ == node_strings(statements@.subrange(0, k as int)),
        decreases statements@.len() - k,
    {
        proof {
            lemma_statements_split(statements@, k as int);
        }
        if let Statement::Node(name) = &statements[k] {
            names.push(name.clone());
        }
        proof {
            assert(names@ =~= node_strings(statements@.subrange(0, k + 1)));
        }
        k = k + 1;
    }
    proof {
        assert(statements@.subrange(0, statements@.len() as int) =~= statements@);
    }
    names
}

/// Whether an edge has a first label whose role is among `roles` and whose
/// comparisons compare variables, and leads between declared states.
fn edge_readable(edge: &DotEdge, names: &Vec<String>, roles: &Vec<String>) -> (readable: bool)
    ensures
        readable == {
            &&& edge.attributes@.len() > 0
            &&& edge.attributes@[0]@.len() > 0
            &&& name_index(texts(roles@), first_label(*edge).role@) is Some
            &&& compares_variables(first_label(*edge).predicate)
            &&& last_position(texts(names@), edge.from@) is Some
            &&& last_position(texts(names@), edge.to@) is Some
        },
{
    if edge.attributes.len() == 0 || edge.attributes[0].len() == 0 {
        return false;
    }
    let label = &edge.attributes[0][0];
    contains_name(roles, &label.role) && label.predicate.checks_variables() && find_last(names, &edge.from).is_some()
        && find_last(names, &edge.to).is_some()
}

/// Whether every edge of a graph has a first label, whose role is among
/// `roles` and whose comparisons compare variables, and leads to a
/// declared state: what reading the graph needs of it.
pub fn edges_readable_among(graph: &DotGraph, roles: &Vec<String>) -> (readable: bool)
    ensures
        readable == edges_readable(graph.statements@, texts(roles@)),
{
    let names = declared_states(graph);
    let statements = &graph.statements;
    let ghost edges = edges_of(statements@);
    let ghost role_names = texts(roles@);
    proof {
        assert(texts(names@) == node_names(statements@));
    }
    let mut k: usize = 0;
    while k < statements.len()
        invariant
            statements == &graph.statements,
            k <= statements@.len(),
            edges == edges_of(statements@),
            role_names == texts(roles@),
            texts(names@) == node_names(statements@),
            forall|j: int| 0 <= j < edges_of(statements@.subrange(0, k as int)).len() ==> {
                let e = #[trigger] edges_of(statements@.subrange(0, k as int))[j];
                &&& e.attributes@.len() > 0
                &&& e.attributes@[0]@.len() > 0
                &&& name_index(role_names, first_label(e).role@) is Some
                &&& compares_variables(first_label(e).predicate)
                &&& last_position(node_names(statements@), e.from@) is Some
                &&& last_position(node_names(statements@), e.to@) is Some
            },
            edges_of(statements@.subrange(0, k as int)).len() <= edges.len(),
            forall|j: int| 0 <= j < edges_of(statements@.subrange(0, k as int)).len()
                ==> #[trigger] edges_of(statements@.subrange(0, k as int))[j] == edges[j],
        decreases statements@.len() - k,
    {
        proof {
            lemma_statements_split(statements@, k as int);
            lemma_edges_prefix(statements@, k + 1);
        }
        if let Statement::Edge(edge) = &statements[k] {
            if !edge_readable(edge, &names, roles) {
                proof {
                    let before = edges_of(statements@.subrange(0, k as int));
                    let after = edges_of(statements@.subrange(0, k + 1));
                    assert(after == before + seq![*edge]);
                    assert(after[before.len() as int] == *edge);
                    assert(edges_of(statements@)[before.len() as int] == *edge);
                    assert(!edges_readable(statements@, role_names));
                }
                return false;
            }
        }
        k = k + 1;
    }
    proof {
        assert(statements@.subrange(0, statements@.len() as int) =~= statements@);
    }
    true
}

/// The edges of the first statements come first among the edges of all.
proof fn lemma_edges_prefix(statements: Seq<Statement>, k: int)
    requires
        0 <= k <= statements.len(),
    ensures
        edges_of(statements.subrange(0, k)).len() <= edges_of(statements).len(),
        forall|j: int| 0 <= j < edges_of(statements.subrange(0, k)).len()
            ==> #[trigger] edges_of(statements.subrange(0, k))[j] == edges_of(statements)[j],
    decreases statements.len() - k,
{
    if k == statements.len() {
        assert(statements.subrange(0, k) =~= statements);
    } else {
        lemma_edges_prefix(statements, k + 1);
        lemma_statements_split(statements, k);
        let a = edges_of(statements.subrange(0, k));
        let b = edges_of(statements.subrange(0, k + 1));
        assert forall|j: int| 0 <= j < a.len() implies #[trigger] a[j] == edges_of(statements)[j] by {
            assert(b[j] == a[j]);
        }
    }
}

/// A graph declares fewer states, and has fewer edges, than a role's
/// graph can index.
pub open spec fn graph_sizes_fit(graph: DotGraph) -> bool {
    &&& node_names(graph.statements@).len() < u32::MAX
    &&& edges_of(graph.statements@).len() < u32::MAX
}

/// Whether a graph declares fewer states, and has fewer edges, than a
/// role's graph can index.
pub fn graph_fits_indices(graph: &DotGraph) -> (fits: bool)
    ensures
        fits == graph_sizes_fit(*graph),
{
    let statements = &graph.statements;
    let mut nodes: usize = 0;
    let mut edges: usize = 0;
    let mut k: usize = 0;
    while k < statements.len()
        invariant
            k <= statements@.len(),
            nodes == node_strings(statements@.subrange(0, k as int)).len(),
            edges == edges_of(statements@.subrange(0, k as int)).len(),
            nodes <= k,
            edges <= k,
        decreases statements@.len() - k,
    {
        proof {
            lemma_statements_split(statements@, k as int);
        }
        match &statements[k] {
            Statement::Node(_) => nodes = nodes + 1,
            Statement::Edge(_) => edges = edges + 1,
            Statement::Other => {},
        }
        k = k + 1;
    }
    proof {
        assert(statements@.subrange(0, statements@.len() as int) =~= statements@);
    }
    nodes < 0xffff_ffff && edges < 0xffff_ffff
}

/// Whether every graph's edges are readable among the names of all the
/// graphs, as reading them into a protocol needs.
pub fn graphs_readable(inputs: &Vec<DotGraph>) -> (readable: bool)
    requires
        forall|i: int| 0 <= i < inputs@.len() ==> (#[trigger] inputs@[i]).name is Some,
    ensures
        readable == forall|i: int| 0 <= i < inputs@.len() ==> edges_readable(
            (#[trigger] inputs@[i]).statements@,
            graph_names(inputs@),
        ),
{
    let mut roles: Vec<String> = Vec::new();
    let mut i: usize = 0;
    while i < inputs.len()
        invariant
            i <= inputs@.len(),
            forall|j: int| 0 <= j < inputs@.len() ==> (#[trigger] inputs@[j]).name is Some,
            texts(roles@) == graph_names(inputs@).subrange(0, i as int),
            roles@.len() == i,
        decreases inputs@.len() - i,
    {
        let name = match &inputs[i].name {
            Some(name) => name.clone(),
            None => String::new(),
        };
        let ghost before = roles@;
        roles.push(name);
        proof {
            assert(graph_names(inputs@)[i as int] == name@);
            assert(roles@ == before.push(name));
            assert forall|j: int| 0 <= j <= i implies #[trigger] texts(roles@)[j] == graph_names(inputs@)[j] by {
                if j < i {
                    assert(texts(before)[j] == graph_names(inputs@).subrange(0, i as int)[j]);
                    assert(roles@[j] == before[j]);
                }
            }
            assert(texts(roles@) =~= graph_names(inputs@).subrange(0, i + 1));
        }
        i = i + 1;
    }
    proof {
        assert(texts(roles@) =~= graph_names(inputs@));
    }
    let mut i: usize = 0;
    while i < inputs.len()
        invariant
            i <= inputs@.len(),
            texts(roles@) == graph_names(inputs@),
            forall|j: int| 0 <= j < i ==> edges_readable((#[trigger] inputs@[j]).statements@, graph_names(inputs@)),
        decreases inputs@.len() - i,
    {
        if !edges_readable_among(&inputs[i], &roles) {
            return false;
        }
        i = i + 1;
    }
    true
}

/// The states declared by the first statements are no more than all of them.
proof fn lemma_nodes_prefix(statements: Seq<Statement>, k: int)
    requires
        0 <= k <= statements.len(),
    ensures
        node_strings(statements.subrange(0, k)).len() <= node_strings(statements).len(),
    decreases statements.len() - k,
{
    if k == statements.len() {
        assert(statements.subrange(0, k) =~= statements);
    } else {
        lemma_nodes_prefix(statements, k + 1);
        lemma_statements_split(statements, k);
    }
}

fn find_last(names: &Vec<String>, x: &String) -> (position: Option<usize>)
    ensures
        match position {
            Some(i) => last_position(names@.map_values(|n: String| n@), x@) == Some(i as nat),
            None => last_position(names@.map_values(|n: String| n@), x@) is None,
        },
{
    let ghost all = names@.map_values(|n: String| n@);
    let mut i = names.len();
    proof {
        assert(all.subrange(0, i as int) =~= all);
    }
    while i > 0
        invariant
            i <= names@.len(),
            all == names@.map_values(|n: String| n@),
            last_position(all, x@) == last_position(all.subrange(0, i as int), x@),
        decreases i,
    {
        let ghost prefix = all.subrange(0, i as int);
        proof {
            assert(prefix.drop_last() =~= all.subrange(0, i - 1));
            assert(prefix.last() == names@[i - 1]@);
        }
        if names[i - 1].eq(x) {
            return Some(i - 1);
        }
        i = i - 1;
    }
    proof {
        assert(all.subrange(0, 0) =~= Seq::<Seq<char>>::empty());
    }
    None
}

impl Digraph {
    /// The graph of a role from its DOT graph, after checking its edges:
    /// its states in the order in which they are declared, and its edges
    /// as `add_edges` adds them. Labels met for the first time join the
    /// context.
    pub fn try_from(graph: &DotGraph, context: &mut Context) -> (result: Result<Digraph, ()>)
        requires
            graph_edges_checked(*graph) is Ok ==> edges_readable(graph.statements@, set_names(old(context).roles)),
            graph_sizes_fit(*graph),
        ensures
            set_names(final(context).roles) == set_names(old(context).roles),
            result is Ok ==> parts_fit(graph_nodes(result->Ok_0.graph), graph_edges(result->Ok_0.graph))
                && graph_nodes(result->Ok_0.graph).len() == node_names(graph.statements@).len()
                && graph_fits(
                    result->Ok_0.graph,
                    set_names(old(context).roles).len(),
                    parameter_entries(final(context).labels).len(),
                ),
            parameter_entries(final(context).labels).len() >= parameter_entries(old(context).labels).len(),
            graph_edges_checked(*graph) is Err ==> result is Err && parameter_entries(final(context).labels)
                == parameter_entries(old(context).labels),
            graph_edges_checked(*graph) is Ok ==> {
                match add_edges(
                    node_names(graph.statements@),
                    edges_of(graph.statements@),
                    0,
                    set_names(old(context).roles),
                    parameter_entries(old(context).labels),
                    fresh_nodes(graph.statements@),
                    Seq::empty(),
                ) {
                    Some((nodes, edges, labels)) => result is Ok && graph_nodes(result->Ok_0.graph) == nodes
                        && graph_edges(result->Ok_0.graph) == edges && parameter_entries(final(context).labels) == labels,
                    None => result is Err,
                }
            },
    {
        if check_graph_edges(graph).is_err() {
            return Err(());
        }
        let statements = &graph.statements;
        let mut names: Vec<String> = Vec::new();
        let mut role_graph: RoleGraph = graph_new();
        let mut edges: Vec<&DotEdge> = Vec::new();
        let mut k: usize = 0;
        while k < statements.len()
            invariant
                k <= statements@.len(),
                names@ == node_strings(statements@.subrange(0, k as int)),
                graph_nodes(role_graph) == node_strings(statements@.subrange(0, k as int)).map_values(
                    |n: String| GraphNode { name: n, role: None, direction: None },
                ),
                graph_edges(role_graph) == Seq::<(usize, usize, GraphEdge)>::empty(),
                node_names(statements@).len() < u32::MAX,
                statements == &graph.statements,
                edges@.map_values(|e: &DotEdge| *e) == edges_of(statements@.subrange(0, k as int)),
            decreases statements@.len() - k,
        {
            proof {
                lemma_statements_split(statements@, k as int);
                lemma_nodes_prefix(statements@, k + 1);
            }
            match &statements[k] {
                Statement::Node(name) => {
                    let ghost before = graph_nodes(role_graph);
                    names.push(name.clone());
                    graph_add_node(&mut role_graph, GraphNode::new(name.clone()));
                    proof {
                        assert(names@ =~= node_strings(statements@.subrange(0, k + 1)));
                        assert(graph_nodes(role_graph) =~= node_strings(statements@.subrange(0, k + 1)).map_values(
                            |n: String| GraphNode { name: n, role: None, direction: None },
                        ));
                    }
                },
                Statement::Edge(edge) => {
                    let ghost before = edges@;
                    edges.push(edge);
                    proof {
                        assert(edges@.map_values(|e: &DotEdge| *e) =~= before.map_values(|e: &DotEdge| *e).push(*edge));
                    }
                },
                Statement::Other => {},
            }
            k = k + 1;
        }
        proof {
            assert(statements@.subrange(0, statements@.len() as int) =~= statements@);
        }
        let ghost all_names = names@.map_values(|n: String| n@);
        let ghost all_edges = edges_of(statements@);
        let ghost roles = set_names(context.roles);
        let ghost goal = add_edges(all_names, all_edges, 0, roles, parameter_entries(context.labels), graph_nodes(role_graph), Seq::empty());
        let count = names.len();
        proof {
            assert(graph_nodes(role_graph) == fresh_nodes(statements@));
            assert(all_names == node_names(statements@));
            assert(parts_fit(graph_nodes(role_graph), Seq::<(usize, usize, GraphEdge)>::empty()));
            lemma_add_edges_fit(all_names, all_edges, 0, roles, parameter_entries(context.labels), graph_nodes(role_graph), Seq::empty());
        }
        
        let mut k: usize = 0;
        while k < edges.len()
            invariant
                all_names == names@.map_values(|n: String| n@),
                all_edges == edges@.map_values(|e: &DotEdge| *e),
                roles == set_names(context.roles),
                k <= edges@.len(),
                graph_nodes(role_graph).len() == names@.len(),
                graph_edges(role_graph).len() == k,
                edges_of(graph.statements@).len() < u32::MAX,
                edges_readable(statements@, roles),
                all_edges == edges_of(statements@),
                all_names == node_names(statements@),
                add_edges(all_names, all_edges, k as int, roles, parameter_entries(context.labels), graph_nodes(role_graph), graph_edges(role_graph)) == goal,
                roles == set_names(old(context).roles),
                graph_edges_checked(*graph) is Ok,
                goal == add_edges(
                    node_names(graph.statements@),
                    edges_of(graph.statements@),
                    0,
                    set_names(old(context).roles),
                    parameter_entries(old(context).labels),
                    fresh_nodes(graph.statements@),
                    Seq::empty(),
                ),
                statements == &graph.statements,
                parameter_entries(context.labels).len() >= parameter_entries(old(context).labels).len(),
                forall|n: int| 0 <= n < graph_nodes(role_graph).len() && (#[trigger] graph_nodes(role_graph)[n]).role is Some ==> graph_nodes(role_graph)[n].role->Some_0
                    < roles.len(),
                forall|i: int| 0 <= i < graph_edges(role_graph).len() ==> (#[trigger] graph_edges(role_graph)[i]).2.label < parameter_entries(
                    context.labels,
                ).len(),
            decreases edges@.len() - k,
        {
            let edge = edges[k];
            proof {
                assert(all_edges[k as int] == *edge);
            }
            let label = &edge.attributes[0][0];
            let f = match find_last(&names, &edge.from) {
                Some(f) => f,
                None => return Err(()),
            };
            let t = match find_last(&names, &edge.to) {
                Some(t) => t,
                None => return Err(()),
            };
            let ghost labels_before = parameter_entries(context.labels);
            if !parameters_contains(&context.labels, &label.payload) {
                proof {
                    crate::index::lemma_insert_entry_len(labels_before, label.payload@, parameters_view(label.parameters));
                }
                parameters_insert(&mut context.labels, label.payload.clone(), clone_parameters(&label.parameters));
            }
            let payload_index = match parameters_index_of(&context.labels, &label.payload) {
                Some(i) => i,
                None => 0,
            };
            let role_index = match names_index_of(&context.roles, &label.role) {
                Some(i) => i,
                None => 0,
            };
            proof {
                crate::index::lemma_entry_index_bound(parameter_entries(context.labels), label.payload@);
                crate::index::lemma_name_index_bound(set_names(context.roles), label.role@);
            }
            proof {
                lemma_last_position(all_names, edge.from@);
                lemma_last_position(all_names, edge.to@);
            }
            let node = GraphNode {
                name: graph_node(&role_graph, f).name.clone(),
                role: Some(role_index),
                direction: Some(label.direction.into()),
            };
            graph_set_node(&mut role_graph, f, node);
            let graph_edge = GraphEdge::new(
                payload_index,
                label.predicate.duplicate().into(),
                label.side_effect.duplicate().into(),
            );
            graph_add_edge(&mut role_graph, f, t, graph_edge);
            k = k + 1;
        }
        proof {
            assert(add_edges(all_names, all_edges, k as int, roles, parameter_entries(context.labels), graph_nodes(role_graph), graph_edges(role_graph))
                == Some((graph_nodes(role_graph), graph_edges(role_graph), parameter_entries(context.labels))));
            assert(goal matches Some((n, e, l)) ==> parts_fit(n, e) && n.len() == all_names.len());
        }
        Ok(Digraph { graph: role_graph })
    }
}

/// An error with a message.
#[derive(Debug)]
pub struct StrError {
    pub msg: String,
}

impl StrError {
    /// The message.
    pub fn message(&self) -> (message: String)
        ensures
            message@ == self.msg@,
    {
        self.msg.clone()
    }
}

/// An error whose message is `message`.
pub fn error_msg(message: String) -> (error: StrError)
    ensures
        error.msg == message,
{
    StrError { msg: message }
}

/// The names of the graphs, as texts.
pub open spec fn graph_names(inputs: Seq<DotGraph>) -> Seq<Seq<char>> {
    inputs.map_values(|g: DotGraph| g.name->Some_0@)
}

/// The position of the first graph whose name an earlier graph has.
pub open spec fn first_repeat(names: Seq<Seq<char>>, k: int) -> Option<nat>
    decreases names.len() - k,
{
    if k < 0 || k >= names.len() {
        None
    } else if name_index(names.subrange(0, k), names[k]) is Some {
        Some(k as nat)
    } else {
        first_repeat(names, k + 1)
    }
}

/// The states and edges of the graphs from the `k`-th on, each read as
/// `add_edges` reads it with the labels that the graphs before it met,
/// and the labels met in all of them.
pub open spec fn graphs_from(
    inputs: Seq<DotGraph>,
    k: int,
    roles: Seq<Seq<char>>,
    labels: Seq<(Seq<char>, Seq<(Seq<char>, Seq<char>)>)>,
) -> (Seq<(Seq<GraphNode>, Seq<(usize, usize, GraphEdge)>)>, Seq<(Seq<char>, Seq<(Seq<char>, Seq<char>)>)>)
    decreases inputs.len() - k,
{
    if k < 0 || k >= inputs.len() {
        (Seq::empty(), labels)
    } else {
        let statements = inputs[k].statements@;
        match add_edges(
            node_names(statements),
            edges_of(statements),
            0,
            roles,
            labels,
            fresh_nodes(statements),
            Seq::empty(),
        ) {
            Some((nodes, edges, labels)) => {
                let (rest, last) = graphs_from(inputs, k + 1, roles, labels);
                (seq![(nodes, edges)] + rest, last)
            },
            None => (Seq::empty(), labels),
        }
    }
}

/// The graphs of the roles of a protocol, with the labels they use.
pub struct Tree {
    pub roles: Vec<(String, RoleGraph)>,
    pub labels: IndexMap<String, Vec<(String, String)>>,
}

impl Tree {
    /// Reads the graphs of the roles of a protocol, each named after its
    /// role. Two graphs for one role are an error; otherwise each graph,
    /// whose edges must check, becomes the graph of its role, and the
    /// labels of all are gathered in the order in which they are met.
    pub fn parse(inputs: &Vec<DotGraph>) -> (tree: Result<Tree, StrError>)
        requires
            forall|i: int| 0 <= i < inputs@.len() ==> (#[trigger] inputs@[i]).name is Some,
            first_repeat(graph_names(inputs@), 0) is None ==> forall|i: int|
                0 <= i < inputs@.len() ==> graph_edges_checked(#[trigger] inputs@[i]) is Ok
                    && edges_readable(inputs@[i].statements@, graph_names(inputs@))
                    && graph_sizes_fit(inputs@[i]),
        ensures
            match first_repeat(graph_names(inputs@), 0) {
                Some(i) => tree is Err && tree->Err_0.msg@ == "Duplicate graphs found for role "@
                    + graph_names(inputs@)[i as int],
                None => tree is Ok && {
                    let t = tree->Ok_0;
                    let (graphs, labels) = graphs_from(inputs@, 0, graph_names(inputs@), Seq::empty());
                    &&& t.roles@.len() == inputs@.len()
                    &&& graphs.len() == inputs@.len()
                    &&& forall|i: int|
                        0 <= i < inputs@.len() ==> (#[trigger] t.roles@[i]).0@ == graph_names(inputs@)[i]
                            && graph_nodes(t.roles@[i].1) == graphs[i].0 && graph_edges(t.roles@[i].1) == graphs[i].1
                    &&& forall|i: int|
                        0 <= i < inputs@.len() ==> parts_fit(graph_nodes((#[trigger] t.roles@[i]).1), graph_edges(t.roles@[i].1))
                            && graph_nodes(t.roles@[i].1).len() == node_names(inputs@[i].statements@).len()
                            && graph_fits(t.roles@[i].1, inputs@.len(), parameter_entries(t.labels).len())
                    &&& parameter_entries(t.labels) == labels
                },
            },
    {
        let ghost names = graph_names(inputs@);
        let mut context = Context::with_capacity(inputs.len());
        let mut i: usize = 0;
        while i < inputs.len()
            invariant
                names == graph_names(inputs@),
                forall|j: int| 0 <= j < inputs@.len() ==> (#[trigger] inputs@[j]).name is Some,
                i <= inputs@.len(),
                set_names(context.roles) == names.subrange(0, i as int),
                first_repeat(names, i as int) == first_repeat(names, 0),
                parameter_entries(context.labels) == Seq::<(Seq<char>, Seq<(Seq<char>, Seq<char>)>)>::empty(),
            decreases inputs@.len() - i,
        {
            let role = match &inputs[i].name {
                Some(role) => role,
                None => return Err(error_msg(String::new())),
            };
            proof {
                assert(names[i as int] == role@);
                assert(names.subrange(0, i + 1) =~= names.subrange(0, i as int).push(role@));
            }
            if !crate::index::names_insert(&mut context.roles, role.clone()) {
                let mut message = String::from_str("Duplicate graphs found for role ");
                message.append(role.as_str());
                return Err(error_msg(message));
            }
            i = i + 1;
        }
        proof {
            assert(names.subrange(0, i as int) =~= names);
        }
        let mut roles: Vec<(String, RoleGraph)> = Vec::new();
        let ghost goal = graphs_from(inputs@, 0, names, Seq::empty());
        let ghost mut done: Seq<(Seq<GraphNode>, Seq<(usize, usize, GraphEdge)>)> = Seq::empty();
        let mut i: usize = 0;
        while i < inputs.len()
            invariant
                names == graph_names(inputs@),
                forall|j: int| 0 <= j < inputs@.len() ==> (#[trigger] inputs@[j]).name is Some,
                forall|j: int|
                    0 <= j < inputs@.len() ==> graph_edges_checked(#[trigger] inputs@[j]) is Ok
                        && edges_readable(inputs@[j].statements@, names)
                        && graph_sizes_fit(inputs@[j]),
                i <= inputs@.len(),
                set_names(context.roles) == names,
                roles@.len() == i,
                done.len() == i,
                goal.0 == done + graphs_from(inputs@, i as int, names, parameter_entries(context.labels)).0,
                goal.1 == graphs_from(inputs@, i as int, names, parameter_entries(context.labels)).1,
                forall|j: int| 0 <= j < i ==> (#[trigger] roles@[j]).0@ == names[j]
                    && graph_nodes(roles@[j].1) == done[j].0 && graph_edges(roles@[j].1) == done[j].1,
                forall|j: int| 0 <= j < i ==> parts_fit(graph_nodes((#[trigger] roles@[j]).1), graph_edges(roles@[j].1))
                    && graph_nodes(roles@[j].1).len() == node_names(inputs@[j].statements@).len()
                    && graph_fits(roles@[j].1, names.len(), parameter_entries(context.labels).len()),
            decreases inputs@.len() - i,
        {
            let graph = &inputs[i];
            let ghost before = parameter_entries(context.labels);
            let ghost statements = graph.statements@;
            proof {
                assert(edges_readable(statements, names));
                assert forall|m: int| 0 <= m < edges_of(statements).len() implies last_position(
                    node_names(statements),
                    (#[trigger] edges_of(statements)[m]).from@,
                ) is Some && last_position(node_names(statements), edges_of(statements)[m].to@) is Some by {}
                lemma_add_edges_some(
                    node_names(statements),
                    edges_of(statements),
                    0,
                    names,
                    before,
                    fresh_nodes(statements),
                    Seq::empty(),
                );
            }
            let digraph = match Digraph::try_from(graph, &mut context) {
                Ok(digraph) => digraph,
                Err(()) => return Err(error_msg(String::new())),
            };
            let role = match &graph.name {
                Some(role) => role.clone(),
                None => String::new(),
            };
            let ghost here = (graph_nodes(digraph.graph), graph_edges(digraph.graph));
            proof {
                assert forall|j: int| 0 <= j < i implies graph_fits(#[trigger] roles@[j].1, names.len(), parameter_entries(context.labels).len()) by {
                    let g = roles@[j].1;
                    assert(graph_fits(g, names.len(), before.len()));
                }
                let rest = graphs_from(inputs@, i + 1, names, parameter_entries(context.labels));
                assert(graphs_from(inputs@, i as int, names, before).0 =~= seq![here] + rest.0);
                assert(done.push(here) + rest.0 =~= done + (seq![here] + rest.0));
                assert(names[i as int] == role@);
                done = done.push(here);
            }
            roles.push((role, digraph.graph));
            i = i + 1;
        }
        proof {
            assert(goal.0 =~= done);
        }
        Ok(Tree { roles, labels: context.labels })
    }
}

/// The message of an edge error.
pub open spec fn edge_message(e: EdgeErrorModel) -> Seq<char> {
    match e {
        EdgeErrorModel::ChainedEdges => "Chaining multiple edges at once is not supported: split the chain into individual edges."@,
        EdgeErrorModel::ParameterMismatch(p) => "label was previously used with different parameters `"@ + p + "`"@,
        EdgeErrorModel::NoPayload => "An edge has no payload"@,
        EdgeErrorModel::UndeclaredNode => "A node is used but not declared"@,
        EdgeErrorModel::SendAfterReceive => "all outgoing transitions must either send to or receive from the same role 1"@,
        EdgeErrorModel::ReceiveAfterSend => "all outgoing transitions must either send to or receive from the same role 3"@,
        EdgeErrorModel::MixedRoles(found, expected) => "all outgoing transitions must either send to or receive from the same role (found "@
            + found + ", expected "@ + expected + ")"@,
        EdgeErrorModel::OwnRole(role) => "cannot send to or receive from own role (role Some(\""@ + role + "\"))"@,
    }
}

impl EdgeError {
    /// What went wrong, in words.
    pub fn message(&self) -> (message: String)
        ensures
            message@ == edge_message(self.model()),
    {
        match self {
            EdgeError::ChainedEdges => String::from_str(
                "Chaining multiple edges at once is not supported: split the chain into individual edges.",
            ),
            EdgeError::ParameterMismatch(p) => {
                let mut message = String::from_str("label was previously used with different parameters `");
                message.append(p.as_str());
                message.append("`");
                message
            },
            EdgeError::NoPayload => String::from_str("An edge has no payload"),
            EdgeError::UndeclaredNode => String::from_str("A node is used but not declared"),
            EdgeError::SendAfterReceive => String::from_str(
                "all outgoing transitions must either send to or receive from the same role 1",
            ),
            EdgeError::ReceiveAfterSend => String::from_str(
                "all outgoing transitions must either send to or receive from the same role 3",
            ),
            EdgeError::MixedRoles(found, expected) => {
                let mut message = String::from_str(
                    "all outgoing transitions must either send to or receive from the same role (found ",
                );
                message.append(found.as_str());
                message.append(", expected ");
                message.append(expected.as_str());
                message.append(")");
                message
            },
            EdgeError::OwnRole(role) => {
                let mut message = String::from_str("cannot send to or receive from own role (role Some(\"");
                message.append(role.as_str());
                message.append("\"))");
                message
            },
        }
    }
}

/// The states and edges of a role's graph fit together: edges join
/// states, and a state has a direction and a role exactly when an edge
/// leaves it.
pub open spec fn parts_fit(nodes: Seq<GraphNode>, edges: Seq<(usize, usize, GraphEdge)>) -> bool {
    &&& forall|i: int| 0 <= i < edges.len() ==> (#[trigger] edges[i]).0 < nodes.len() && edges[i].1 < nodes.len()
    &&& forall|n: int| 0 <= n < nodes.len() ==> ((#[trigger] nodes[n]).direction is Some <==> exists|i: int|
        0 <= i < edges.len() && #[trigger] edges[i].0 == n)
    &&& forall|n: int| 0 <= n < nodes.len() ==> (#[trigger] nodes[n]).direction is Some ==> nodes[n].role is Some
}

proof fn lemma_add_edges_fit(
    names: Seq<Seq<char>>,
    edges: Seq<DotEdge>,
    k: int,
    roles: Seq<Seq<char>>,
    labels: Seq<(Seq<char>, Seq<(Seq<char>, Seq<char>)>)>,
    nodes: Seq<GraphNode>,
    out: Seq<(usize, usize, GraphEdge)>,
)
    requires
        0 <= k,
        nodes.len() == names.len(),
        names.len() <= usize::MAX,
        parts_fit(nodes, out),
    ensures
        add_edges(names, edges, k, roles, labels, nodes, out) matches Some((n, e, l)) ==> n.len()
            == names.len() && parts_fit(n, e),
    decreases edges.len() - k,
{
    if 0 <= k < edges.len() {
        let e = edges[k];
        let l = first_label(e);
        match (last_position(names, e.from@), last_position(names, e.to@)) {
            (Some(f), Some(t)) => {
                lemma_last_position(names, e.from@);
                lemma_last_position(names, e.to@);
                let payload = l.payload@;
                let labels2 = if entry_index(labels, payload) is None {
                    insert_entry(labels, payload, parameters_view(l.parameters))
                } else {
                    labels
                };
                let node = GraphNode {
                    name: nodes[f as int].name,
                    role: Some(name_index(roles, l.role@)->Some_0 as usize),
                    direction: Some(direction_for(l.direction)),
                };
                let edge = GraphEdge {
                    label: entry_index(labels2, payload)->Some_0 as usize,
                    predicate: bool_predicate_for(l.predicate),
                    side_effect: side_effect_for(l.side_effect),
                };
                let nodes2 = nodes.update(f as int, node);
                let out2 = out.push((f as usize, t as usize, edge));
                assert forall|n: int| 0 <= n < nodes2.len() implies ((#[trigger] nodes2[n]).direction is Some <==> exists|i: int|
                    0 <= i < out2.len() && #[trigger] out2[i].0 == n) by {
                    if n == f {
                        assert(out2[out.len() as int].0 == n);
                    } else {
                        if exists|i: int| 0 <= i < out2.len() && #[trigger] out2[i].0 == n {
                            let i = choose|i: int| 0 <= i < out2.len() && #[trigger] out2[i].0 == n;
                            if i < out.len() {
                                assert(out2[i] == out[i]);
                            }
                        }
                        if exists|i: int| 0 <= i < out.len() && #[trigger] out[i].0 == n {
                            let i = choose|i: int| 0 <= i < out.len() && #[trigger] out[i].0 == n;
                            assert(out2[i].0 == n);
                        }
                    }
                }
                assert forall|i: int| 0 <= i < out2.len() implies (#[trigger] out2[i]).0 < nodes2.len() && out2[i].1 < nodes2.len() by {
                    if i < out.len() {
                        assert(out2[i] == out[i]);
                    }
                }
                lemma_add_edges_fit(names, edges, k + 1, roles, labels2, nodes2, out2);
            },
            _ => {},
        }
    }
}

/// A role's graph whose parts fit and that has a state is well formed.
pub proof fn lemma_fit_wf(g: RoleGraph)
    requires
        graph_nodes(g).len() > 0,
        parts_fit(graph_nodes(g), graph_edges(g)),
    ensures
        graph_wf(g),
{
    assert forall|n: int| 0 <= n < graph_nodes(g).len() implies (out_edges(graph_edges(g), n as nat).len() > 0 <==> (
        #[trigger] graph_nodes(g)[n]).direction is Some) && (out_edges(graph_edges(g), n as nat).len() > 0
            ==> graph_nodes(g)[n].role is Some) by {
        lemma_out_edges_exist(graph_edges(g), n as nat);
    }
}

} // verus!
