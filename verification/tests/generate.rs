use petgraph::graph::NodeIndex;
use petgraph::visit::EdgeRef;
use rumpsteak::generate::{
    generate_definitions, generate_label, generate_nodes, generate_roles, DoublePeekable,
    GraphEdge, GraphNode, RoleGraph,
};
use rumpsteak::protocol::{
    BoolPredicate, DefinitionBody, Direction, Label, Predicate, Role, SideEffect, Type, TypeFormatter,
};

fn node(name: &str, role: Option<usize>, direction: Option<Direction>) -> GraphNode {
    let mut n = GraphNode::new(name.to_string());
    n.role = role;
    n.direction = direction;
    n
}

fn edge(label: usize) -> GraphEdge {
    GraphEdge::new(
        label,
        BoolPredicate::Normal(Predicate::Tautology(None)),
        SideEffect::NoEffect,
    )
}

/// A role's graph with these states and edges, added in order.
fn build(nodes: Vec<GraphNode>, edges: Vec<(usize, usize, GraphEdge)>) -> RoleGraph {
    let mut graph = RoleGraph::new();
    for n in nodes {
        graph.add_node(n);
    }
    for (source, target, e) in edges {
        graph.add_edge(NodeIndex::new(source), NodeIndex::new(target), e);
    }
    graph
}

/// 0 -> 1 -> 0, a loop of two messages.
fn looping() -> RoleGraph {
    build(
        vec![
            node("start", Some(1), Some(Direction::Send)),
            node("wait", Some(1), Some(Direction::Receive)),
        ],
        vec![(0, 1, edge(0)), (1, 0, edge(1))],
    )
}

#[test]
fn double_peekable_hands_out_items_in_order() {
    let mut items = DoublePeekable::new(vec![1, 2, 3]);
    assert!(!items.is_empty());
    assert_eq!(items.singleton(), None);
    assert_eq!(items.next(), Some(1));
    assert_eq!(items.next(), Some(2));
    assert_eq!(items.singleton(), Some(3));
    assert!(items.is_empty());
    assert_eq!(items.next(), None);
}

/// The indices of the edges that leave `node`, as petgraph lists them.
fn edges_from(graph: &RoleGraph, node: usize) -> Vec<usize> {
    graph.edges(NodeIndex::new(node)).map(|e| e.id().index()).collect()
}

#[test]
fn edges_from_lists_the_last_added_first() {
    let g = build(
        vec![node("a", Some(0), Some(Direction::Send)), node("b", None, None)],
        vec![(0, 1, edge(0)), (0, 1, edge(1)), (1, 0, edge(2))],
    );
    assert_eq!(edges_from(&g, 0), vec![1, 0]);
    assert_eq!(edges_from(&g, 1), vec![2]);
}

#[test]
fn definitions_of_a_loop() {
    let definitions = generate_definitions(&looping());
    assert_eq!(definitions.len(), 1);
    assert_eq!(definitions[0].node, 0);
    match &definitions[0].body {
        DefinitionBody::Type { safe, ty } => {
            assert!(!*safe);
            match ty {
                Type::Message { direction, role, label, next, .. } => {
                    assert_eq!(*direction, Direction::Send);
                    assert_eq!((*role, *label), (1, 0));
                    match &**next {
                        Type::Message { direction, label, next, .. } => {
                            assert_eq!(*direction, Direction::Receive);
                            assert_eq!(*label, 1);
                            assert!(matches!(**next, Type::Node(0)));
                        }
                        other => panic!("{:?}", other),
                    }
                }
                other => panic!("{:?}", other),
            }
        }
        other => panic!("{:?}", other),
    }
}

#[test]
fn definitions_of_a_choice() {
    let g = build(
        vec![
            node("choose", Some(1), Some(Direction::Receive)),
            node("done", None, None),
        ],
        vec![(0, 1, edge(0)), (0, 1, edge(1))],
    );
    let definitions = generate_definitions(&g);
    assert_eq!(definitions.len(), 2);
    match &definitions[0].body {
        DefinitionBody::Choice(choices) => {
            let labels: Vec<usize> = choices.iter().map(|c| c.label).collect();
            assert_eq!(labels, vec![1, 0]);
            assert!(choices.iter().all(|c| matches!(c.ty, Type::End)));
        }
        other => panic!("{:?}", other),
    }
    assert!(matches!(definitions[1].body, DefinitionBody::Type { safe: true, ty: Type::Choice { node: 0, .. } }));
}

#[test]
fn names_in_camel_and_snake_case() {
    let nodes = generate_nodes(&looping());
    assert_eq!(nodes, vec!["Start".to_string(), "Wait".to_string()]);
    let roles = generate_roles(&vec![("my client".to_string(), looping()), ("server".to_string(), looping())]);
    assert_eq!(roles[0].camel, "MyClient");
    assert_eq!(roles[0].snake, "my_client");
    let routes: Vec<usize> = roles[0].routes.iter().map(|r| r.0).collect();
    assert_eq!(routes, vec![1]);
    let routes: Vec<usize> = roles[1].routes.iter().map(|r| r.0).collect();
    assert_eq!(routes, vec![0]);
    let label = generate_label(&"add_numbers".to_string(), &vec![("x".to_string(), "i32".to_string())]);
    assert_eq!(label.camel, "AddNumbers");
    assert_eq!(label.param_names, vec!["x".to_string()]);
    assert_eq!(label.parameters, vec!["i32".to_string()]);
}

fn role() -> Role {
    Role {
        camel: "Client".to_string(),
        snake: "client".to_string(),
        nodes: vec!["Start".to_string(), "Wait".to_string()],
        routes: vec![],
        definitions: vec![],
    }
}

fn labels() -> Vec<Label> {
    vec![Label {
        camel: "Add".to_string(),
        param_names: vec!["x".to_string()],
        parameters: vec!["i32".to_string()],
    }]
}

#[test]
fn type_formatter_writes_messages() {
    let roles = vec![role(), Role { camel: "Server".to_string(), ..role() }];
    let labels = labels();
    let ty = Type::Message {
        direction: Direction::Send,
        role: 1,
        label: 0,
        predicate: BoolPredicate::Normal(Predicate::LTnConst("x".to_string(), "3".to_string(), None)),
        side_effect: SideEffect::Increase("x".to_string(), "1".to_string()),
        next: Box::new(Type::Node(1)),
    };
    let formatter = TypeFormatter { ty: &ty, name: "Adder", role: &roles[0], roles: &roles, labels: &labels };
    assert_eq!(
        formatter.to_string(),
        "Send<Server, 'x', Add, LTnConst::<Add, 'x', 3>, Incr<'x', 1>, AdderClientWait>"
    );
}

#[test]
fn type_formatter_writes_choices_and_ends() {
    let roles = vec![role(), Role { camel: "Server".to_string(), ..role() }];
    let labels = labels();
    let choice = Type::Choice {
        direction: Direction::Receive,
        role: 1,
        node: 1,
        predicate: BoolPredicate::Neg(None, Box::new(BoolPredicate::Normal(Predicate::Tautology(None)))),
        side_effect: SideEffect::NoEffect,
    };
    let f = TypeFormatter { ty: &choice, name: "P", role: &roles[0], roles: &roles, labels: &labels };
    assert_eq!(
        f.to_string(),
        "Branch<Server, Neg::<Label, Tautology::<Name, Value, Label>, Name, Value>, Constant<Name, Value>, PClientWait>"
    );
    let select = Type::Choice {
        direction: Direction::Send,
        role: 1,
        node: 0,
        predicate: BoolPredicate::Normal(Predicate::Tautology(None)),
        side_effect: SideEffect::Divide("y".to_string(), "2".to_string()),
    };
    let f = f.with(&select);
    assert_eq!(f.to_string(), "Select<Server, PClientStartPredicate, Div<'y', 2>, PClientStart>");
    let end = Type::End;
    assert_eq!(f.with(&end).to_string(), "End");
    let first = Type::Node(0);
    assert_eq!(f.with(&first).to_string(), "PClient");
}

#[test]
fn predicates_are_written_as_types() {
    let mut p = BoolPredicate::Or(
        None,
        Box::new(BoolPredicate::Normal(Predicate::EqualVar("a".to_string(), "b".to_string(), None))),
        Box::new(BoolPredicate::Normal(Predicate::GTnConst("a".to_string(), "0".to_string(), None))),
    );
    assert_eq!(
        p.to_string(),
        "Or<Label, EqualVar::<Value, Label, 'a', 'b'>, GTnConst::<Label, 'a', 0>, Name, Value>"
    );
    p.set_label_str("L".to_string());
    assert_eq!(
        p.to_string(),
        "Or<L, EqualVar::<Value, L, 'a', 'b'>, GTnConst::<L, 'a', 0>, Name, Value>"
    );
    let and = BoolPredicate::And(
        Some("L".to_string()),
        Box::new(BoolPredicate::Normal(Predicate::LTnVar("a".to_string(), "b".to_string(), None))),
        Box::new(BoolPredicate::Normal(Predicate::Tautology(Some("M".to_string())))),
    );
    assert_eq!(and.to_string(), "And<LTnVar::<Value, Label, 'a', 'b'>, Tautology::<Name, Value, M>>");
}

#[test]
fn a_type_is_formattable_when_its_indexes_are_in_range() {
    let roles = vec![role(), Role { camel: "Server".to_string(), ..role() }];
    let labels = labels();
    let message = Type::Message {
        direction: Direction::Receive,
        role: 1,
        label: 0,
        predicate: BoolPredicate::Normal(Predicate::Tautology(None)),
        side_effect: SideEffect::NoEffect,
        next: Box::new(Type::End),
    };
    let f = TypeFormatter { ty: &message, name: "P", role: &roles[0], roles: &roles, labels: &labels };
    assert!(f.is_formattable());
    let far = Type::Node(2);
    assert!(!f.with(&far).is_formattable());
    let first = Type::Node(0);
    assert!(f.with(&first).is_formattable());
    let stranger = Type::Message {
        direction: Direction::Send,
        role: 2,
        label: 0,
        predicate: BoolPredicate::Normal(Predicate::Tautology(None)),
        side_effect: SideEffect::NoEffect,
        next: Box::new(Type::End),
    };
    assert!(!f.with(&stranger).is_formattable());
    let bare = vec![Label { camel: "Stop".to_string(), param_names: vec![], parameters: vec![] }];
    let g = TypeFormatter { ty: &message, name: "P", role: &roles[0], roles: &roles, labels: &bare };
    assert!(!g.is_formattable());
}
