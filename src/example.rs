use vstd::prelude::*;
use crate::graph::{Graph, Node, Relationship, Target};

verus! {

/// Labels of the sample graph.
#[derive(Debug, PartialEq, Eq, Structural, Clone, Copy)]
pub enum ExampleNodeName {
    A,
    B,
    C,
    D,
}

/// A sample graph: A has many B, C has one B.
#[allow(non_snake_case)]
pub fn ExampleGraph() -> (g: Graph<ExampleNodeName>)
    ensures
        g.nodes@.len() == 2,
        g.nodes@[0].typ == ExampleNodeName::A,
        g.nodes@[0].targets@ == seq![Target { typ: ExampleNodeName::B, rel: Relationship::OneToMany }],
        g.nodes@[1].typ == ExampleNodeName::C,
        g.nodes@[1].targets@ == seq![Target { typ: ExampleNodeName::B, rel: Relationship::OneToOne }],
{
    let a = Node {
        typ: ExampleNodeName::A,
        targets: vec![Target { typ: ExampleNodeName::B, rel: Relationship::OneToMany }],
    };
    let c = Node {
        typ: ExampleNodeName::C,
        targets: vec![Target { typ: ExampleNodeName::B, rel: Relationship::OneToOne }],
    };
    Graph { nodes: vec![a, c] }
}

} // verus!
