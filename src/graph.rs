use vstd::prelude::*;

verus! {

/// A graph of typed nodes whose outgoing edges carry a cardinality.
pub struct Graph<T> {
    pub nodes: Vec<Node<T>>,
}

/// A node of a graph: its label and its outgoing edges.
pub struct Node<T> {
    pub typ: T,
    pub targets: Vec<Target<T>>,
}

/// An outgoing edge: the label it points to and its cardinality.
pub struct Target<T> {
    pub typ: T,
    pub rel: Relationship,
}

/// The cardinality of a directed edge between two labels.
#[derive(Debug, PartialEq, Eq, Structural, Clone, Copy)]
pub enum Relationship {
    OneToOne,
    OneToMany,
    ManyToOne,
    ManyToMany,
}

/// The relationship seen when the edge is walked backwards.
pub open spec fn inverse(r: Relationship) -> Relationship {
    match r {
        Relationship::OneToOne => Relationship::OneToOne,
        Relationship::OneToMany => Relationship::ManyToOne,
        Relationship::ManyToOne => Relationship::OneToMany,
        Relationship::ManyToMany => Relationship::ManyToMany,
    }
}

impl Relationship {
    pub fn invert(self) -> (r: Self)
        ensures
            r == inverse(self),
    {
        match self {
            Self::OneToOne => Self::OneToOne,
            Self::OneToMany => Self::ManyToOne,
            Self::ManyToOne => Self::OneToMany,
            Self::ManyToMany => Self::ManyToMany,
        }
    }
}

/// Inverting twice gives back the relationship; one-to-many and many-to-one
/// swap, while one-to-one and many-to-many stay fixed.
pub proof fn lemma_invert_involution(r: Relationship)
    ensures
        inverse(inverse(r)) == r,
        inverse(Relationship::OneToMany) == Relationship::ManyToOne,
        inverse(Relationship::ManyToOne) == Relationship::OneToMany,
        inverse(Relationship::OneToOne) == Relationship::OneToOne,
        inverse(Relationship::ManyToMany) == Relationship::ManyToMany,
{
}

/// A directed edge read out of a graph, borrowing its parts from the graph.
#[derive(Debug, PartialEq, Eq)]
pub struct Link<'a, T> {
    pub from: &'a T,
    pub to: &'a T,
    pub rel: &'a Relationship,
}

impl<'a, T> Link<'a, T> {
    /// The edge as a plain triple (source, destination, relationship).
    pub open spec fn triple(self) -> (T, T, Relationship) {
        (*self.from, *self.to, *self.rel)
    }
}

/// The triples of a sequence of links.
pub open spec fn link_triples<'a, T>(ls: Seq<Link<'a, T>>) -> Seq<(T, T, Relationship)> {
    ls.map_values(|l: Link<'a, T>| l.triple())
}

/// The edges leaving one node, in target order.
pub open spec fn node_links<T>(n: Node<T>) -> Seq<(T, T, Relationship)> {
    n.targets@.map_values(|t: Target<T>| (n.typ, t.typ, t.rel))
}

/// The edges of a sequence of nodes, node by node, each in target order.
pub open spec fn all_links<T>(ns: Seq<Node<T>>) -> Seq<(T, T, Relationship)>
    decreases ns.len(),
{
    if ns.len() == 0 {
        Seq::empty()
    } else {
        all_links(ns.drop_last()) + node_links(ns.last())
    }
}

/// The number of targets over a sequence of nodes.
pub open spec fn target_count<T>(ns: Seq<Node<T>>) -> nat
    decreases ns.len(),
{
    if ns.len() == 0 {
        0
    } else {
        target_count(ns.drop_last()) + ns.last().targets@.len()
    }
}

impl<T> Graph<T> {
    /// Every (node, target) pair as a link, in node order then target order.
    pub fn links(&self) -> (r: Vec<Link<'_, T>>)
        ensures
            link_triples(r@) == all_links(self.nodes@),
    {
        let mut out: Vec<Link<'_, T>> = Vec::new();
        let mut i: usize = 0;
        while i < self.nodes.len()
            invariant
                i <= self.nodes@.len(),
                link_triples(out@) == all_links(self.nodes@.subrange(0, i as int)),
            decreases self.nodes@.len() - i,
        {
            let n = &self.nodes[i];
            let mut j: usize = 0;
            while j < n.targets.len()
                invariant
                    i < self.nodes@.len(),
                    *n == self.nodes@[i as int],
                    j <= n.targets@.len(),
                    link_triples(out@) == all_links(self.nodes@.subrange(0, i as int))
                        + node_links(*n).subrange(0, j as int),
                decreases n.targets@.len() - j,
            {
                let t = &n.targets[j];
                let ghost before = out@;
                out.push(Link { from: &n.typ, to: &t.typ, rel: &t.rel });
                proof {
                    assert(out@ == before.push(Link { from: &n.typ, to: &t.typ, rel: &t.rel }));
                    assert(node_links(*n).subrange(0, j + 1) == node_links(*n).subrange(0, j as int).push(
                        node_links(*n)[j as int],
                    ));
                    assert(link_triples(out@) == link_triples(before).push(
                        (n.typ, t.typ, t.rel),
                    ));
                }
                j += 1;
            }
            proof {
                let s = self.nodes@.subrange(0, i + 1);
                assert(s.drop_last() == self.nodes@.subrange(0, i as int));
                assert(node_links(*n).subrange(0, j as int) == node_links(*n));
            }
            i += 1;
        }
        proof {
            assert(self.nodes@.subrange(0, i as int) == self.nodes@);
        }
        out
    }
}

/// The links of a graph number as many as its targets, listed node-major and
/// target-minor: the edges of each node form one consecutive block, in
/// target order, after the blocks of all earlier nodes.
pub proof fn lemma_links_count<T>(ns: Seq<Node<T>>)
    ensures
        all_links(ns).len() == target_count(ns),
        ns.len() > 0 ==> all_links(ns) == all_links(ns.drop_last()) + node_links(ns.last()),
        forall|k: int|
            #![trigger node_links(ns[k])]
            0 <= k < ns.len() ==> node_links(ns[k]).len() == ns[k].targets@.len(),
    decreases ns.len(),
{
    if ns.len() > 0 {
        lemma_links_count(ns.drop_last());
    }
}

} // verus!
