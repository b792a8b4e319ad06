use rumpsteak::generate::Builder;
use rumpsteak::label::{BoolPredicate, Direction, Label, SideEffect};
use rumpsteak::protocol::{DefinitionBody, Type, TypeFormatter};
use rumpsteak::tree::{DotEdge, DotGraph, Statement};

fn label(role: &str, direction: Direction, payload: &str, params: &[(&str, &str)]) -> Label {
    Label {
        role: role.to_string(),
        direction,
        payload: payload.to_string(),
        parameters: params.iter().map(|(a, b)| (a.to_string(), b.to_string())).collect(),
        predicate: BoolPredicate::Tautology,
        side_effect: SideEffect::NoEffect,
    }
}

fn edge(from: &str, to: &str, l: Label) -> Statement {
    Statement::Edge(DotEdge {
        from: from.to_string(),
        to: to.to_string(),
        chained: false,
        attributes: vec![vec![l]],
    })
}

fn node(name: &str) -> Statement {
    Statement::Node(name.to_string())
}

fn graph(name: &str, statements: Vec<Statement>) -> DotGraph {
    DotGraph { name: Some(name.to_string()), statements }
}

fn ping_pong() -> Vec<DotGraph> {
    vec![
        graph(
            "client",
            vec![
                node("start"),
                node("wait"),
                edge("start", "wait", label("server", Direction::Send, "ping", &[("n", "i32")])),
                edge("wait", "start", label("server", Direction::Receive, "pong", &[])),
            ],
        ),
        graph(
            "server",
            vec![
                node("idle"),
                node("reply"),
                edge("idle", "reply", label("client", Direction::Receive, "ping", &[("n", "i32")])),
                edge("reply", "idle", label("client", Direction::Send, "pong", &[])),
            ],
        ),
    ]
}

#[test]
fn a_builder_without_a_name_is_refused() {
    let builder = Builder::default().role("client.dot".to_string());
    let error = builder.generate(&ping_pong()).unwrap_err();
    assert_eq!(error.message(), "protocol name was not set in builder");
}

#[test]
fn two_graphs_for_one_role_are_refused() {
    let mut inputs = ping_pong();
    inputs.push(graph("client", vec![node("s")]));
    let builder = Builder::default().name("ping_pong".to_string());
    let error = builder.generate(&inputs).unwrap_err();
    assert_eq!(error.message(), "Duplicate graphs found for role client");
}

#[test]
fn a_protocol_has_a_role_per_graph_and_a_label_per_payload() {
    let builder = Builder::default()
        .name("ping_pong".to_string())
        .role("client.dot".to_string())
        .role("server.dot".to_string());
    assert_eq!(builder.roles, vec!["client.dot".to_string(), "server.dot".to_string()]);
    let protocol = builder.generate(&ping_pong()).unwrap();
    assert_eq!(protocol.camel, "PingPong");
    assert_eq!(protocol.roles.len(), 2);
    assert_eq!(protocol.roles[0].camel, "Client");
    assert_eq!(protocol.roles[0].snake, "client");
    assert_eq!(protocol.roles[0].nodes, vec!["Start".to_string(), "Wait".to_string()]);
    assert_eq!(protocol.roles[0].routes.len(), 1);
    assert_eq!(protocol.roles[0].routes[0].0, 1);
    assert_eq!(protocol.roles[1].camel, "Server");
    assert_eq!(protocol.roles[1].routes[0].0, 0);
    assert_eq!(protocol.labels.len(), 2);
    assert_eq!(protocol.labels[0].camel, "Ping");
    assert_eq!(protocol.labels[0].param_names, vec!["n".to_string()]);
    assert_eq!(protocol.labels[0].parameters, vec!["i32".to_string()]);
    assert_eq!(protocol.labels[1].camel, "Pong");
    assert!(protocol.labels[1].parameters.is_empty());
    let definitions = &protocol.roles[0].definitions;
    assert_eq!(definitions.len(), 1);
    assert_eq!(definitions[0].node, 0);
    match &definitions[0].body {
        DefinitionBody::Type { ty, .. } => {
            assert!(matches!(ty, Type::Message { role: 1, label: 0, .. }));
        }
        _ => panic!("expected a type definition"),
    }
}

#[test]
fn every_generated_type_can_be_written() {
    let inputs = vec![
        graph(
            "client",
            vec![
                node("start"),
                node("wait"),
                node("done"),
                edge("start", "wait", label("server", Direction::Send, "ping", &[("n", "i32")])),
                edge("wait", "start", label("server", Direction::Receive, "pong", &[("m", "i32")])),
                edge("wait", "done", label("server", Direction::Receive, "stop", &[("k", "i32")])),
            ],
        ),
        graph(
            "server",
            vec![
                node("idle"),
                node("reply"),
                edge("idle", "reply", label("client", Direction::Receive, "ping", &[("n", "i32")])),
                edge("reply", "idle", label("client", Direction::Send, "pong", &[("m", "i32")])),
            ],
        ),
    ];
    let protocol = Builder::default().name("ping_pong".to_string()).generate(&inputs).unwrap();
    let mut count = 0;
    for role in &protocol.roles {
        for definition in &role.definitions {
            assert!(definition.node < role.nodes.len());
            let types: Vec<&Type> = match &definition.body {
                DefinitionBody::Type { ty, .. } => vec![ty],
                DefinitionBody::Choice(choices) => choices.iter().map(|c| &c.ty).collect(),
            };
            for ty in types {
                let formatter = TypeFormatter {
                    ty,
                    name: "PingPong",
                    role,
                    roles: &protocol.roles,
                    labels: &protocol.labels,
                };
                assert!(formatter.is_formattable());
                assert!(!formatter.to_string().is_empty());
                count += 1;
            }
        }
    }
    assert!(count >= 3);
}
