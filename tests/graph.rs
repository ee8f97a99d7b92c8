use schema_model::example::{ExampleGraph, ExampleNodeName};
use schema_model::graph::{Graph, Link, Node, Relationship, Target};

#[derive(Debug, PartialEq, Eq)]
enum TestNodes {
    A,
    B,
}

fn vec_compare<T: PartialEq>(va: &Vec<T>, vb: &Vec<T>) -> bool {
    (va.len() == vb.len()) && va.iter().zip(vb).all(|(a, b)| a == b)
}

#[test]
fn test_links_from_graph() {
    let graph = Graph {
        nodes: vec![Node {
            typ: TestNodes::A,
            targets: vec![Target { typ: TestNodes::B, rel: Relationship::OneToOne }],
        }],
    };
    assert!(vec_compare(
        &graph.links(),
        &vec![Link { from: &TestNodes::A, to: &TestNodes::B, rel: &Relationship::OneToOne }]
    ));
}

#[test]
fn links_of_example_graph() {
    let graph = ExampleGraph();
    let links = graph.links();
    assert_eq!(
        links,
        vec![
            Link { from: &ExampleNodeName::A, to: &ExampleNodeName::B, rel: &Relationship::OneToMany },
            Link { from: &ExampleNodeName::C, to: &ExampleNodeName::B, rel: &Relationship::OneToOne },
        ]
    );
}

#[test]
fn links_node_major_target_minor() {
    let graph = Graph {
        nodes: vec![
            Node {
                typ: 1u8,
                targets: vec![
                    Target { typ: 2u8, rel: Relationship::OneToMany },
                    Target { typ: 3u8, rel: Relationship::ManyToMany },
                ],
            },
            Node { typ: 4u8, targets: vec![] },
            Node { typ: 5u8, targets: vec![Target { typ: 9u8, rel: Relationship::ManyToOne }] },
        ],
    };
    let links = graph.links();
    assert_eq!(links.len(), 3);
    assert_eq!(links[0], Link { from: &1, to: &2, rel: &Relationship::OneToMany });
    assert_eq!(links[1], Link { from: &1, to: &3, rel: &Relationship::ManyToMany });
    assert_eq!(links[2], Link { from: &5, to: &9, rel: &Relationship::ManyToOne });
}

#[test]
fn links_of_empty_graph() {
    let graph: Graph<u8> = Graph { nodes: vec![] };
    assert!(graph.links().is_empty());
}

#[test]
fn invert_relationships() {
    assert_eq!(Relationship::OneToOne.invert(), Relationship::OneToOne);
    assert_eq!(Relationship::OneToMany.invert(), Relationship::ManyToOne);
    assert_eq!(Relationship::ManyToOne.invert(), Relationship::OneToMany);
    assert_eq!(Relationship::ManyToMany.invert(), Relationship::ManyToMany);
}

#[test]
fn invert_twice_is_identity() {
    for r in [
        Relationship::OneToOne,
        Relationship::OneToMany,
        Relationship::ManyToOne,
        Relationship::ManyToMany,
    ] {
        assert_eq!(r.invert().invert(), r);
    }
}
