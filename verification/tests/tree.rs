use rumpsteak::label::{
    Atom, BoolPredicate, Direction, Label, ParseNode, Predicate, Rule, SideEffect,
};
use petgraph::graph::NodeIndex;
use rumpsteak::protocol;
use rumpsteak::tree::{
    check_graph_edges, declared_states, edges_readable_among, graph_fits_indices, graphs_readable, DotEdge,
    DotGraph,
    EdgeError, Statement, Tree,
};

fn label(role: &str, direction: Direction, payload: &str, params: &[(&str, &str)]) -> Label {
    Label {
        role: role.to_string(),
        direction,
        payload: payload.to_string(),
        parameters: params.iter().map(|(a, b)| (a.to_string(), b.to_string())).collect(),
        predicate: BoolPredicate::Tautology,
        side_effect: SideEffect::NoEffect,
    }
}

fn edge(from: &str, to: &str, l: Label) -> Statement {
    Statement::Edge(DotEdge {
        from: from.to_string(),
        to: to.to_string(),
        chained: false,
        attributes: vec![vec![l]],
    })
}

fn node(name: &str) -> Statement {
    Statement::Node(name.to_string())
}

fn graph(name: &str, statements: Vec<Statement>) -> DotGraph {
    DotGraph { name: Some(name.to_string()), statements }
}

fn message(g: &DotGraph) -> String {
    match check_graph_edges(g) {
        Ok(()) => "ok".to_string(),
        Err(e) => e.message(),
    }
}

#[test]
fn a_good_graph_checks() {
    let g = graph(
        "A",
        vec![
            node("s"),
            node("t"),
            edge("s", "t", label("B", Direction::Send, "x", &[("n", "i32")])),
            edge("t", "s", label("B", Direction::Receive, "y", &[])),
        ],
    );
    assert_eq!(message(&g), "ok");
}

#[test]
fn edge_errors() {
    let chained = DotGraph {
        name: None,
        statements: vec![Statement::Edge(DotEdge {
            from: "s".to_string(),
            to: "t".to_string(),
            chained: true,
            attributes: vec![],
        })],
    };
    assert!(matches!(check_graph_edges(&chained), Err(EdgeError::ChainedEdges)));
    let unlabelled = graph(
        "A",
        vec![node("s"), Statement::Edge(DotEdge { from: "s".to_string(), to: "s".to_string(), chained: false, attributes: vec![vec![]] })],
    );
    assert_eq!(message(&unlabelled), "An edge has no payload");
    let undeclared = graph("A", vec![edge("s", "t", label("B", Direction::Send, "x", &[]))]);
    assert_eq!(message(&undeclared), "A node is used but not declared");
    let parameters = graph(
        "A",
        vec![
            node("s"),
            edge("s", "s", label("B", Direction::Send, "x", &[("n", "i32")])),
            edge("s", "s", label("B", Direction::Send, "x", &[("n", "u8")])),
        ],
    );
    assert_eq!(message(&parameters), "label was previously used with different parameters `x`");
    let mixed = graph(
        "A",
        vec![
            node("s"),
            edge("s", "s", label("B", Direction::Send, "x", &[])),
            edge("s", "s", label("B", Direction::Receive, "y", &[])),
        ],
    );
    assert_eq!(
        message(&mixed),
        "all outgoing transitions must either send to or receive from the same role 3"
    );
    let roles = graph(
        "A",
        vec![
            node("s"),
            node("t"),
            edge("s", "t", label("B", Direction::Receive, "x", &[])),
            edge("s", "t", label("C", Direction::Receive, "y", &[])),
        ],
    );
    assert_eq!(
        message(&roles),
        "all outgoing transitions must either send to or receive from the same role (found B, expected t)"
    );
    let own = graph("A", vec![node("s"), edge("s", "s", label("A", Direction::Send, "x", &[]))]);
    assert_eq!(message(&own), "cannot send to or receive from own role (role Some(\"A\"))");
}

#[test]
fn a_tree_gathers_roles_and_labels() {
    let a = graph(
        "A",
        vec![node("s"), node("t"), edge("s", "t", label("B", Direction::Send, "x", &[("n", "i32")]))],
    );
    let b = graph(
        "B",
        vec![node("u"), node("v"), edge("u", "v", label("A", Direction::Receive, "x", &[("n", "i32")]))],
    );
    let tree = match Tree::parse(&vec![a, b]) {
        Ok(tree) => tree,
        Err(e) => panic!("{}", e.message()),
    };
    assert_eq!(tree.roles.len(), 2);
    assert_eq!(tree.roles[0].0, "A");
    let ga = &tree.roles[0].1;
    assert_eq!(ga.node_count(), 2);
    assert_eq!(ga[NodeIndex::new(0)].role, Some(1));
    assert_eq!(ga[NodeIndex::new(0)].direction, Some(protocol::Direction::Send));
    assert_eq!(ga[NodeIndex::new(1)].direction, None);
    assert_eq!(ga.edge_count(), 1);
    let e = &ga.raw_edges()[0];
    assert_eq!((e.source().index(), e.target().index(), e.weight.label), (0, 1, 0));
    let gb = &tree.roles[1].1;
    assert_eq!(gb[NodeIndex::new(0)].role, Some(0));
    assert_eq!(tree.labels.len(), 1);
    assert_eq!(tree.labels.get("x"), Some(&vec![("n".to_string(), "i32".to_string())]));
}

#[test]
fn two_graphs_for_one_role_are_an_error() {
    let a = graph("A", vec![node("s")]);
    let again = graph("A", vec![node("t")]);
    match Tree::parse(&vec![a, again]) {
        Ok(_) => panic!("no error"),
        Err(e) => assert_eq!(e.message(), "Duplicate graphs found for role A"),
    }
}

fn leaf(rule: Rule, text: &str) -> ParseNode {
    ParseNode { rule, text: text.to_string(), inner: vec![] }
}

fn comparison(op: Rule, lhs: ParseNode, rhs: ParseNode) -> ParseNode {
    ParseNode { rule: Rule::Comp, text: String::new(), inner: vec![lhs, leaf(op, ""), rhs] }
}

fn wrapped(p: ParseNode) -> ParseNode {
    ParseNode { rule: Rule::Predicate, text: String::new(), inner: vec![p] }
}

#[test]
fn predicates_are_read_from_parse_trees() {
    let lt = comparison(Rule::Ltn, leaf(Rule::Variable, "x"), leaf(Rule::Constant, "3"));
    match BoolPredicate::parse(&lt) {
        Ok(BoolPredicate::Normal(Predicate::LTn(Atom::Var(x), Atom::Const(c)))) => {
            assert_eq!((x.as_str(), c.as_str()), ("x", "3"))
        }
        other => panic!("{:?}", other),
    }
    let eq = comparison(Rule::Eq, leaf(Rule::Variable, "x"), leaf(Rule::Variable, "y"));
    let or = ParseNode { rule: Rule::Or, text: String::new(), inner: vec![wrapped(lt), wrapped(eq)] };
    let p = BoolPredicate::parse(&or).unwrap();
    let converted = p.into();
    assert_eq!(
        converted.to_string(),
        "Or<Label, EqualVar::<Value, Label, 'x', 'y'>, LTnConst::<Label, 'x', 3>, Name, Value>"
    );
    let bad = comparison(Rule::Other, leaf(Rule::Variable, "x"), leaf(Rule::Variable, "y"));
    assert!(BoolPredicate::parse(&bad).is_err());
    let neg = ParseNode { rule: Rule::Neg, text: String::new(), inner: vec![leaf(Rule::Other, "")] };
    assert!(BoolPredicate::parse(&neg).is_err());
}

#[test]
fn labels_are_read_from_parse_trees() {
    let params = ParseNode {
        rule: Rule::Parameters,
        text: "(n: i32)".to_string(),
        inner: vec![ParseNode {
            rule: Rule::Parameter,
            text: "n: i32".to_string(),
            inner: vec![leaf(Rule::Variable, "n"), leaf(Rule::Other, "i32")],
        }],
    };
    let effect = ParseNode {
        rule: Rule::SideEffect,
        text: String::new(),
        inner: vec![leaf(Rule::Variable, "n"), leaf(Rule::Variable, "n"), leaf(Rule::Incr, ""), leaf(Rule::Constant, "1")],
    };
    let node = ParseNode {
        rule: Rule::Label,
        text: String::new(),
        inner: vec![leaf(Rule::Other, "B"), leaf(Rule::Receive, ""), leaf(Rule::Other, "add"), params, effect],
    };
    let l = Label::parse(&node).unwrap();
    assert_eq!(l.role, "B");
    assert_eq!(l.direction, Direction::Receive);
    assert_eq!(l.payload, "add");
    assert_eq!(l.parameters, vec![("n".to_string(), "i32".to_string())]);
    assert!(matches!(l.predicate, BoolPredicate::Tautology));
    match l.side_effect.into() {
        protocol::SideEffect::Increase(a, b) => assert_eq!((a.as_str(), b.as_str()), ("n", "1")),
        other => panic!("{:?}", other),
    }
    assert!(Label::parse(&leaf(Rule::Other, "")).is_err());
}

#[test]
fn readable_edges_are_told_from_unreadable_ones() {
    let roles = vec!["A".to_string(), "B".to_string()];
    let good = graph(
        "A",
        vec![node("s"), edge("s", "t", label("B", Direction::Send, "x", &[])), node("t")],
    );
    assert_eq!(declared_states(&good), vec!["s".to_string(), "t".to_string()]);
    assert!(edges_readable_among(&good, &roles));
    let unknown_role = graph("A", vec![node("s"), edge("s", "s", label("C", Direction::Send, "x", &[]))]);
    assert!(!edges_readable_among(&unknown_role, &roles));
    let undeclared = graph("A", vec![node("s"), edge("s", "u", label("B", Direction::Send, "x", &[]))]);
    assert!(!edges_readable_among(&undeclared, &roles));
    let no_label = graph(
        "A",
        vec![
            node("s"),
            Statement::Edge(DotEdge {
                from: "s".to_string(),
                to: "s".to_string(),
                chained: false,
                attributes: vec![],
            }),
        ],
    );
    assert!(!edges_readable_among(&no_label, &roles));
    let mut constant = label("B", Direction::Send, "x", &[]);
    constant.predicate = BoolPredicate::Normal(Predicate::LTn(
        Atom::Const("1".to_string()),
        Atom::Var("n".to_string()),
    ));
    let compares_constant = graph("A", vec![node("s"), edge("s", "s", constant)]);
    assert!(!edges_readable_among(&compares_constant, &roles));
    let b = graph("B", vec![node("u"), edge("u", "u", label("A", Direction::Receive, "x", &[]))]);
    assert!(graphs_readable(&vec![good, b]));
    let c = graph("C", vec![node("u"), edge("u", "u", label("D", Direction::Receive, "x", &[]))]);
    assert!(!graphs_readable(&vec![c]));
}

#[test]
fn small_graphs_fit_the_indices() {
    let g = graph("A", vec![node("s"), edge("s", "s", label("B", Direction::Send, "x", &[]))]);
    assert!(graph_fits_indices(&g));
    assert!(graph_fits_indices(&graph("B", vec![])));
}
