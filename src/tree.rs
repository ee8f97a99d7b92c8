use std::collections::VecDeque;
use vstd::prelude::*;
use vstd::std_specs::cmp::PartialEqSpec;

verus! {

/// A rooted tree: a value and its ordered child trees.
#[derive(Debug)]
pub struct Tree<T> {
    pub value: T,
    pub children: Vec<Tree<T>>,
}

/// `pattern` occurs at the top of `candidate`: the root values are equal and,
/// unless the pattern stops here, some child of the candidate matches some
/// child of the pattern in the same way.
pub open spec fn prefix_match<T: PartialEq>(candidate: Tree<T>, pattern: Tree<T>) -> bool
    decreases candidate,
{
    &&& candidate.value.eq_spec(&pattern.value)
    &&& (pattern.children@.len() == 0 || exists|i: int, j: int|
        #![trigger candidate.children@[i], pattern.children@[j]]
        0 <= i < candidate.children@.len() && 0 <= j < pattern.children@.len()
            && prefix_match(candidate.children@[i], pattern.children@[j]))
}

/// The number of nodes of a tree.
pub open spec fn size<T>(t: Tree<T>) -> nat
    decreases t, 1nat,
{
    1 + forest_size(t.children@)
}

/// The number of nodes over a sequence of trees.
pub open spec fn forest_size<T>(ts: Seq<Tree<T>>) -> nat
    decreases ts, 0nat,
{
    if ts.len() == 0 {
        0
    } else {
        forest_size(ts.drop_last()) + size(ts.last())
    }
}

/// The number of nodes below the states of a queue, the states' own nodes
/// included.
pub open spec fn pending_size<'a, T>(q: Seq<TreeIterationState<'a, T>>) -> nat
    decreases q.len(),
{
    if q.len() == 0 {
        0
    } else {
        pending_size(q.drop_last()) + size(*q.last().tree)
    }
}

/// The node count of two queues placed one after the other is the sum of
/// their counts.
pub proof fn lemma_pending_size_append<'a, T>(a: Seq<TreeIterationState<'a, T>>, b: Seq<TreeIterationState<'a, T>>)
    ensures
        pending_size(a + b) == pending_size(a) + pending_size(b),
    decreases b.len(),
{
    if b.len() > 0 {
        lemma_pending_size_append(a, b.drop_last());
        assert((a + b).drop_last() == a + b.drop_last());
    }
}

/// A queue holds no nodes exactly when it is empty. With a condition that
/// passes everything, a walk starts with `size(root)` nodes waiting, each
/// yielded state uses up one, and the walk ends only on an empty queue: it
/// yields exactly as many states as the tree has nodes.
pub proof fn lemma_pending_size_zero<'a, T>(q: Seq<TreeIterationState<'a, T>>)
    ensures
        pending_size(q) == 0 <==> q.len() == 0,
{
    if q.len() > 0 {
        assert(size(*q.last().tree) >= 1);
    }
}

impl<T: PartialEq> Tree<T> {
    /// Whether `other` matches the top of this tree along some branch.
    pub fn has_prefix(&self, other: &Tree<T>) -> (r: bool)
        requires
            T::obeys_eq_spec(),
        ensures
            r == prefix_match(*self, *other),
        decreases self,
    {
        if !self.value.eq(&other.value) {
            return false;
        }
        if other.children.len() == 0 {
            return true;
        }
        let mut i: usize = 0;
        while i < self.children.len()
            invariant
                T::obeys_eq_spec(),
                self.value.eq_spec(&other.value),
                other.children@.len() > 0,
                i <= self.children@.len(),
                forall|a: int, b: int|
                    #![trigger self.children@[a], other.children@[b]]
                    0 <= a < i && 0 <= b < other.children@.len() ==> !prefix_match(
                        self.children@[a],
                        other.children@[b],
                    ),
            decreases self.children@.len() - i,
        {
            let mut j: usize = 0;
            while j < other.children.len()
                invariant
                    T::obeys_eq_spec(),
                    self.value.eq_spec(&other.value),
                    other.children@.len() > 0,
                    i < self.children@.len(),
                    j <= other.children@.len(),
                    forall|a: int, b: int|
                        #![trigger self.children@[a], other.children@[b]]
                        0 <= a < i && 0 <= b < other.children@.len() ==> !prefix_match(
                            self.children@[a],
                            other.children@[b],
                        ),
                    forall|b: int|
                        0 <= b < j ==> !#[trigger] prefix_match(
                            self.children@[i as int],
                            other.children@[b],
                        ),
                decreases other.children@.len() - j,
            {
                if self.children[i].has_prefix(&other.children[j]) {
                    assert(prefix_match(self.children@[i as int], other.children@[j as int]));
                    return true;
                }
                j += 1;
            }
            i += 1;
        }
        false
    }
}

/// A node reached by a traversal, with the chain of states that led to it.
pub struct TreeIterationState<'a, T> {
    pub tree: &'a Tree<T>,
    pub parent: Option<Box<TreeIterationState<'a, T>>>,
}

impl<'a, T> TreeIterationState<'a, T> {
    /// The trees of the parent chain, nearest parent first.
    pub open spec fn ancestors(self) -> Seq<Tree<T>>
        decreases self,
    {
        match self.parent {
            None => Seq::empty(),
            Some(p) => seq![*p.tree] + (*p).ancestors(),
        }
    }

    /// How many edges lie between this node and the root.
    pub open spec fn depth(self) -> nat {
        self.ancestors().len()
    }

    /// The chain runs from `root` down to this node, each state a child of
    /// the state before it.
    pub open spec fn rooted_at(self, root: Tree<T>) -> bool
        decreases self,
    {
        match self.parent {
            None => *self.tree == root,
            Some(p) => (*p).rooted_at(root) && p.tree.children@.contains(*self.tree),
        }
    }

    /// Every node of the chain, this one included, passes `f`.
    pub open spec fn all_pass<F: Fn(&T) -> bool>(self, f: F) -> bool
        decreases self,
    {
        &&& passes(f, self.tree.value)
        &&& match self.parent {
            None => true,
            Some(p) => (*p).all_pass(f),
        }
    }

    /// The value of the node reached.
    pub fn value(&self) -> (r: &'a T)
        ensures
            *r == self.tree.value,
    {
        &self.tree.value
    }

    fn duplicate(&self) -> (r: Self)
        ensures
            r == *self,
        decreases *self,
    {
        match &self.parent {
            None => TreeIterationState { tree: self.tree, parent: None },
            Some(p) => TreeIterationState { tree: self.tree, parent: Some(Box::new(p.duplicate())) },
        }
    }

    /// The trees from this node's parent up to the root, nearest first.
    pub fn path_to_root(&self) -> (r: Vec<&'a Tree<T>>)
        ensures
            r@.len() == self.ancestors().len(),
            forall|i: int| 0 <= i < r@.len() ==> *#[trigger] r@[i] == self.ancestors()[i],
    {
        let mut path: Vec<&'a Tree<T>> = Vec::new();
        let mut current = self;
        loop
            invariant
                path@.len() + current.ancestors().len() == self.ancestors().len(),
                forall|i: int| 0 <= i < path@.len() ==> *#[trigger] path@[i] == self.ancestors()[i],
                forall|i: int|
                    0 <= i < current.ancestors().len() ==> #[trigger] current.ancestors()[i]
                        == self.ancestors()[path@.len() + i],
            decreases current.ancestors().len(),
        {
            match &current.parent {
                None => {
                    return path;
                },
                Some(p) => {
                    assert(current.ancestors()[0] == *p.tree);
                    assert(forall|i: int| 0 <= i < p.ancestors().len() ==> #[trigger] p.ancestors()[i] == current.ancestors()[i + 1]);
                    path.push(p.tree);
                    current = p;
                },
            }
        }
    }
}

/// The chain of a state rooted at `root` is a line of parents: its first
/// entry is the node's parent, each next entry is the parent of the one
/// before, and the last is `root`; so a node at depth d has exactly d
/// ancestors, and the root has none.
pub proof fn lemma_ancestors_lead_to_root<'a, T>(s: TreeIterationState<'a, T>, root: Tree<T>)
    requires
        s.rooted_at(root),
    ensures
        s.ancestors().len() == 0 <==> *s.tree == root && s.parent is None,
        s.ancestors().len() > 0 ==> s.ancestors().last() == root,
        s.ancestors().len() > 0 ==> s.ancestors()[0].children@.contains(*s.tree),
        forall|k: int|
            0 <= k < s.ancestors().len() - 1 ==> (#[trigger] s.ancestors()[k + 1]).children@.contains(
                s.ancestors()[k],
            ),
    decreases s,
{
    match s.parent {
        None => {},
        Some(p) => {
            lemma_ancestors_lead_to_root(*p, root);
            let a = s.ancestors();
            assert(a == seq![*p.tree] + p.ancestors());
            assert forall|k: int| 0 <= k < a.len() - 1 implies (#[trigger] a[k + 1]).children@.contains(
                a[k],
            ) by {
                if k > 0 {
                    assert(a[k + 1] == p.ancestors()[k]);
                    assert(a[k] == p.ancestors()[k - 1]);
                    assert(p.ancestors()[(k - 1) + 1].children@.contains(p.ancestors()[k - 1]));
                } else {
                    assert(a[1] == p.ancestors()[0]);
                    assert(a[0] == *p.tree);
                    assert(p.ancestors()[0].children@.contains(*p.tree));
                }
            }
        },
    }
}

/// A state whose chain passes `f` has only passing ancestors: once a node
/// fails, nothing below it can be reached.
pub proof fn lemma_barrier<'a, T, F: Fn(&T) -> bool>(s: TreeIterationState<'a, T>, f: F)
    requires
        s.all_pass(f),
    ensures
        passes(f, s.tree.value),
        forall|k: int| 0 <= k < s.ancestors().len() ==> passes(f, (#[trigger] s.ancestors()[k]).value),
    decreases s,
{
    match s.parent {
        None => {},
        Some(p) => {
            lemma_barrier(*p, f);
            assert forall|k: int| 0 <= k < s.ancestors().len() implies passes(
                f,
                (#[trigger] s.ancestors()[k]).value,
            ) by {
                if k > 0 {
                    assert(s.ancestors()[k] == p.ancestors()[k - 1]);
                }
            }
        },
    }
}

/// A pattern without children matches every candidate whose root value
/// equals its own, whatever lies below.
pub proof fn lemma_leaf_pattern_matches<T: PartialEq>(candidate: Tree<T>, pattern: Tree<T>)
    requires
        pattern.children@.len() == 0,
        candidate.value.eq_spec(&pattern.value),
    ensures
        prefix_match(candidate, pattern),
{
}

/// A pattern whose root value differs from the candidate's never matches.
pub proof fn lemma_root_mismatch<T: PartialEq>(candidate: Tree<T>, pattern: Tree<T>)
    requires
        !candidate.value.eq_spec(&pattern.value),
    ensures
        !prefix_match(candidate, pattern),
{
}

/// `f` is a total, deterministic test on values: it accepts every value and
/// gives one answer for each.
pub open spec fn is_predicate<T, F: Fn(&T) -> bool>(f: F) -> bool {
    &&& forall|v: &T| #[trigger] f.requires((v,))
    &&& forall|v: &T, a: bool, b: bool|
        #![trigger f.ensures((v,), a), f.ensures((v,), b)]
        f.ensures((v,), a) && f.ensures((v,), b) ==> a == b
}

/// `f` answers true on `v`.
pub open spec fn passes<T, F: Fn(&T) -> bool>(f: F, v: T) -> bool {
    forall|b: bool| #[trigger] f.ensures((&v,), b) ==> b
}

/// The states a passing state hands to the queue: one per child of its
/// node, in child order, each with that state as parent.
pub open spec fn child_states_of<'a, T>(s: TreeIterationState<'a, T>, cs: Seq<TreeIterationState<'a, T>>) -> bool {
    &&& cs.len() == s.tree.children@.len()
    &&& forall|i: int|
        0 <= i < cs.len() ==> *(#[trigger] cs[i]).tree == s.tree.children@[i] && cs[i].parent == Some(
            Box::new(s),
        )
}

/// Depths along `q` never decrease and stay within one of the first.
pub open spec fn depths_in_order<'a, T>(q: Seq<TreeIterationState<'a, T>>) -> bool {
    &&& forall|i: int, j: int|
        0 <= i <= j < q.len() ==> (#[trigger] q[i]).depth() <= (#[trigger] q[j]).depth()
    &&& forall|i: int| 0 <= i < q.len() ==> (#[trigger] q[i]).depth() <= q[0].depth() + 1
}

proof fn lemma_child_states_size<'a, T>(
    s: TreeIterationState<'a, T>,
    cs: Seq<TreeIterationState<'a, T>>,
    n: int,
)
    requires
        child_states_of(s, cs),
        0 <= n <= cs.len(),
    ensures
        pending_size(cs.subrange(0, n)) == forest_size(s.tree.children@.subrange(0, n)),
    decreases n,
{
    if n > 0 {
        lemma_child_states_size(s, cs, n - 1);
        assert(cs.subrange(0, n).drop_last() == cs.subrange(0, n - 1));
        assert(s.tree.children@.subrange(0, n).drop_last() == s.tree.children@.subrange(0, n - 1));
        assert(*cs[n - 1].tree == s.tree.children@[n - 1]);
    }
}

/// A breadth-first walk over a tree that stops at the first node of each
/// branch that fails the condition.
pub struct TreeIterator<'a, T, F> {
    queue: VecDeque<TreeIterationState<'a, T>>,
    condition: F,
    root: Ghost<Tree<T>>,
}

impl<'a, T, F: Fn(&T) -> bool> TreeIterator<'a, T, F> {
    /// The states waiting in the queue, front first.
    pub closed spec fn pending(&self) -> Seq<TreeIterationState<'a, T>> {
        self.queue@
    }

    /// The condition a node must pass to be visited.
    pub closed spec fn condition(&self) -> F {
        self.condition
    }

    /// The tree being walked.
    pub closed spec fn root(&self) -> Tree<T> {
        self.root@
    }

    /// Every waiting state lies on a path down from the root along which
    /// every node before it passed the condition.
    pub closed spec fn wf(&self) -> bool {
        &&& is_predicate(self.condition)
        &&& forall|i: int|
            #![trigger self.queue@[i]]
            0 <= i < self.queue@.len() ==> {
                &&& self.queue@[i].rooted_at(self.root@)
                &&& match self.queue@[i].parent {
                    None => true,
                    Some(p) => (*p).all_pass(self.condition),
                }
            }
        &&& depths_in_order(self.queue@)
    }

    /// A walk over `tree` that visits only nodes passing `condition`,
    /// together with all their ancestors.
    pub fn new_with_condition(tree: &'a Tree<T>, condition: F) -> (r: Self)
        requires
            is_predicate(condition),
        ensures
            r.wf(),
            r.root() == *tree,
            r.condition() == condition,
            passes(condition, tree.value) ==> r.pending() == seq![
                TreeIterationState { tree, parent: None },
            ],
            !passes(condition, tree.value) ==> r.pending() == Seq::<TreeIterationState<'a, T>>::empty(),
    {
        let mut queue: VecDeque<TreeIterationState<'a, T>> = VecDeque::new();
        if condition(&tree.value) {
            queue.push_back(TreeIterationState { tree, parent: None });
        }
        TreeIterator { queue, condition, root: Ghost(*tree) }
    }

    /// The next state in breadth-first order whose node passes the
    /// condition. States that fail are dropped with their whole subtree;
    /// a passing state queues one state for each of its children.
    pub fn next(&mut self) -> (r: Option<TreeIterationState<'a, T>>)
        requires
            old(self).wf(),
        ensures
            final(self).wf(),
            final(self).root() == old(self).root(),
            final(self).condition() == old(self).condition(),
            r is None ==> final(self).pending() == Seq::<TreeIterationState<'a, T>>::empty()
                && forall|i: int|
                0 <= i < old(self).pending().len() ==> !passes(
                    old(self).condition(),
                    (#[trigger] old(self).pending()[i]).tree.value,
                ),
            r matches Some(s) ==> exists|k: int|
                0 <= k < old(self).pending().len() && s == old(self).pending()[k] && (forall|i: int|
                    0 <= i < k ==> !passes(
                        old(self).condition(),
                        (#[trigger] old(self).pending()[i]).tree.value,
                    )) && final(self).pending().subrange(0, old(self).pending().len() - k - 1)
                    == old(self).pending().subrange(k + 1, old(self).pending().len() as int)
                    && child_states_of(
                    s,
                    final(self).pending().subrange(
                        old(self).pending().len() - k - 1,
                        final(self).pending().len() as int,
                    ),
                ),
            r matches Some(s) ==> s.rooted_at(old(self).root()) && s.all_pass(old(self).condition()),
            (forall|v: T| passes(old(self).condition(), v)) ==> (r is Some <==> old(self).pending().len()
                > 0) && (r is Some ==> pending_size(final(self).pending()) + 1 == pending_size(
                old(self).pending(),
            )),
            r matches Some(s) ==> forall|i: int|
                0 <= i < final(self).pending().len() ==> s.depth() <= (
                #[trigger] final(self).pending()[i]).depth(),
    {
        let ghost q0 = self.queue@;
        let ghost mut k: int = 0;
        loop
            invariant
                is_predicate(self.condition),
                self.condition == old(self).condition,
                self.root == old(self).root,
                q0 == old(self).queue@,
                old(self).wf(),
                0 <= k <= q0.len(),
                self.queue@ == q0.subrange(k, q0.len() as int),
                forall|i: int| 0 <= i < k ==> !passes(self.condition, (#[trigger] q0[i]).tree.value),
            decreases self.queue@.len(),
        {
            match self.queue.pop_front() {
                None => {
                    return None;
                },
                Some(node) => {
                    assert(node == q0[k]);
                    let t: &'a Tree<T> = node.tree;
                    let keep = (self.condition)(&t.value);
                    if keep {
                        let ghost mid = self.queue@;
                        let mut j: usize = 0;
                        while j < t.children.len()
                            invariant
                                is_predicate(self.condition),
                                self.condition == old(self).condition,
                                self.root == old(self).root,
                                node == q0[k],
                                *t == *node.tree,
                                j <= t.children@.len(),
                                self.queue@.len() == mid.len() + j,
                                self.queue@.subrange(0, mid.len() as int) == mid,
                                forall|c: int|
                                    mid.len() <= c < self.queue@.len() ==> *(#[trigger] self.queue@[c]).tree
                                        == t.children@[c - mid.len()] && self.queue@[c].parent
                                        == Some(Box::new(node)),
                            decreases t.children@.len() - j,
                        {
                            let child: &'a Tree<T> = &t.children[j];
                            self.queue.push_back(
                                TreeIterationState { tree: child, parent: Some(Box::new(node.duplicate())) },
                            );
                            j += 1;
                        }
                        proof {
                            assert(passes(self.condition, node.tree.value));
                            assert(node.rooted_at(self.root@));
                            assert(node.all_pass(self.condition));
                            assert forall|c: int| #![trigger self.queue@[c]] 0 <= c < self.queue@.len() implies {
                                &&& self.queue@[c].rooted_at(self.root@)
                                &&& match self.queue@[c].parent {
                                    None => true,
                                    Some(p) => (*p).all_pass(self.condition),
                                }
                            } by {
                                if c < mid.len() {
                                    assert(self.queue@[c] == mid[c]);
                                    assert(mid[c] == q0[k + 1 + c]);
                                } else {
                                    assert(t.children@.contains(t.children@[c - mid.len()]));
                                }
                            }
                            let q1 = self.queue@;
                            let d = node.depth();
                            assert forall|c: int| mid.len() <= c < q1.len() implies (#[trigger] q1[c]).depth() == d + 1 by {
                                assert(q1[c].ancestors() == seq![*node.tree] + node.ancestors());
                            }
                            assert forall|c: int| 0 <= c < mid.len() implies d <= (#[trigger] q1[c]).depth() <= q0[0].depth() + 1 by {
                                assert(q1[c] == mid[c]);
                                assert(mid[c] == q0[k + 1 + c]);
                            }
                            assert(d <= q0[0].depth() + 1);
                            assert(q0[0].depth() <= d);
                            assert forall|i: int, j: int| 0 <= i <= j < q1.len() implies (#[trigger] q1[i]).depth() <= (#[trigger] q1[j]).depth() by {
                                if j < mid.len() {
                                    assert(q1[i] == mid[i]);
                                    assert(q1[j] == mid[j]);
                                    assert(mid[i] == q0[k + 1 + i]);
                                    assert(mid[j] == q0[k + 1 + j]);
                                }
                            }
                            if q1.len() > 0 {
                                if mid.len() > 0 {
                                    assert(q1[0] == mid[0]);
                                    assert(mid[0] == q0[k + 1]);
                                }
                                assert forall|i: int| 0 <= i < q1.len() implies (#[trigger] q1[i]).depth() <= q1[0].depth() + 1 by {
                                    if i < mid.len() {
                                        assert(q1[i] == mid[i]);
                                        assert(mid[i] == q0[k + 1 + i]);
                                    }
                                }
                            }
                            assert(q1.subrange(0, q0.len() - k - 1) == q0.subrange(k + 1, q0.len() as int));
                            let cs = q1.subrange(q0.len() - k - 1, q1.len() as int);
                            assert forall|i: int| 0 <= i < cs.len() implies *(#[trigger] cs[i]).tree
                                == node.tree.children@[i] && cs[i].parent == Some(Box::new(node)) by {
                                assert(cs[i] == q1[mid.len() + i]);
                            }
                            if forall|v: T| passes(old(self).condition(), v) {
                                if k > 0 {
                                    assert(passes(old(self).condition(), q0[0].tree.value));
                                }
                                assert(k == 0);
                                let rest = q0.subrange(1, q0.len() as int);
                                assert(q0 == seq![q0[0]] + rest);
                                lemma_pending_size_append(seq![q0[0]], rest);
                                assert(pending_size(seq![q0[0]]) == size(*q0[0].tree)) by {
                                    assert(seq![q0[0]].drop_last() == Seq::<TreeIterationState<'a, T>>::empty());
                                    assert(seq![q0[0]].last() == q0[0]);
                                    assert(pending_size(Seq::<TreeIterationState<'a, T>>::empty()) == 0);
                                }
                                assert(q1 == rest + cs);
                                lemma_pending_size_append(rest, cs);
                                lemma_child_states_size(node, cs, cs.len() as int);
                                assert(cs.subrange(0, cs.len() as int) == cs);
                                assert(node.tree.children@.subrange(0, cs.len() as int) == node.tree.children@);
                                assert(pending_size(q0) == size(*node.tree) + pending_size(rest));
                                assert(pending_size(q1) == pending_size(rest) + forest_size(node.tree.children@));
                                assert(size(*node.tree) == 1 + forest_size(node.tree.children@));
                            }
                        }
                        return Some(node);
                    }
                    proof {
                        k = k + 1;
                    }
                },
            }
        }
    }
}

// Bound to one condition type only so that `TreeIterator::new(tree)` needs no
// type annotation at the call site.
impl<'a, T> TreeIterator<'a, T, fn(&T) -> bool> {
    /// A walk over every node of `tree`.
    pub fn new(tree: &'a Tree<T>) -> (r: TreeIterator<'a, T, impl Fn(&T) -> bool>)
        ensures
            r.wf(),
            r.root() == *tree,
            r.pending() == seq![TreeIterationState { tree, parent: None }],
            forall|v: T| passes(r.condition(), v),
            pending_size(r.pending()) == size(*tree),
    {
        proof {
            let q = seq![TreeIterationState { tree, parent: None }];
            assert(q.drop_last() == Seq::<TreeIterationState<'a, T>>::empty());
            assert(pending_size(Seq::<TreeIterationState<'a, T>>::empty()) == 0);
        }
        TreeIterator::new_with_condition(tree, |_v: &T| -> (b: bool) ensures b { true })
    }
}

impl<T> Tree<T> {
    /// A walk over every node of this tree.
    pub fn iter<'a>(&'a self) -> (r: TreeIterator<'a, T, impl Fn(&T) -> bool>)
        ensures
            r.wf(),
            r.root() == *self,
            r.pending() == seq![TreeIterationState { tree: self, parent: None }],
            forall|v: T| passes(r.condition(), v),
            pending_size(r.pending()) == size(*self),
    {
        TreeIterator::new(self)
    }

    /// A walk over the nodes of this tree that pass `condition`, together
    /// with all their ancestors.
    pub fn iter_condition<'a, F: Fn(&T) -> bool>(&'a self, condition: F) -> (r: TreeIterator<'a, T, F>)
        requires
            is_predicate(condition),
        ensures
            r.wf(),
            r.root() == *self,
            r.condition() == condition,
            passes(condition, self.value) ==> r.pending() == seq![
                TreeIterationState { tree: self, parent: None },
            ],
            !passes(condition, self.value) ==> r.pending() == Seq::<TreeIterationState<'a, T>>::empty(),
    {
        TreeIterator::new_with_condition(self, condition)
    }
}

} // verus!
