use schema_model::tree::Tree;

#[derive(Debug, PartialEq, Eq, Copy, Clone)]
enum TestValues {
    A,
    B,
    C,
    D,
}

fn leaf(v: TestValues) -> Tree<TestValues> {
    Tree { value: v, children: vec![] }
}

fn node(v: TestValues, children: Vec<Tree<TestValues>>) -> Tree<TestValues> {
    Tree { value: v, children }
}

fn all_values(tree: &Tree<TestValues>) -> Vec<TestValues> {
    let mut it = tree.iter();
    let mut out = Vec::new();
    while let Some(s) = it.next() {
        out.push(*s.value());
    }
    out
}

fn values_where(tree: &Tree<TestValues>, f: impl Fn(&TestValues) -> bool) -> Vec<TestValues> {
    let mut it = tree.iter_condition(f);
    let mut out = Vec::new();
    while let Some(s) = it.next() {
        out.push(*s.value());
    }
    out
}

fn two_b_branches() -> Tree<TestValues> {
    node(
        TestValues::A,
        vec![
            node(TestValues::B, vec![leaf(TestValues::C)]),
            node(TestValues::B, vec![leaf(TestValues::C)]),
        ],
    )
}

#[test]
fn iter_single_iteration() {
    assert_eq!(all_values(&leaf(TestValues::A)), vec![TestValues::A]);
}

#[test]
fn iter_breath_check_iteration() {
    assert_eq!(
        all_values(&two_b_branches()),
        vec![TestValues::A, TestValues::B, TestValues::B, TestValues::C, TestValues::C]
    );
}

#[test]
fn iter_condition_fail_single() {
    assert_eq!(values_where(&leaf(TestValues::A), |_n| false), vec![]);
}

#[test]
fn iter_condition_pass_single() {
    assert_eq!(values_where(&leaf(TestValues::A), |_n| true), vec![TestValues::A]);
}

#[test]
fn iter_condition_match_tree() {
    assert_eq!(
        values_where(&two_b_branches(), |n| n == &TestValues::A || n == &TestValues::B),
        vec![TestValues::A, TestValues::B, TestValues::B]
    );
}

#[test]
fn iter_condition_barrier_tree() {
    let tree = node(
        TestValues::A,
        vec![
            node(TestValues::B, vec![leaf(TestValues::C)]),
            node(TestValues::D, vec![leaf(TestValues::B)]),
        ],
    );
    assert_eq!(values_where(&tree, |n| n != &TestValues::B), vec![TestValues::A, TestValues::D]);
}

#[test]
fn iter_condition_prunes_both_branches() {
    let tree = two_b_branches();
    let mut it = tree.iter_condition(|n: &TestValues| n != &TestValues::B);
    let first = it.next().unwrap();
    assert_eq!(*first.value(), TestValues::A);
    assert!(first.path_to_root().is_empty());
    assert!(it.next().is_none());
}

#[test]
fn iter_visits_each_node_once_by_depth() {
    let tree = node(
        TestValues::A,
        vec![
            node(TestValues::B, vec![node(TestValues::C, vec![leaf(TestValues::D)])]),
            leaf(TestValues::C),
            node(TestValues::D, vec![leaf(TestValues::A)]),
        ],
    );
    assert_eq!(
        all_values(&tree),
        vec![
            TestValues::A,
            TestValues::B,
            TestValues::C,
            TestValues::D,
            TestValues::C,
            TestValues::A,
            TestValues::D,
        ]
    );
}

#[test]
fn has_prefix_single_node_match() {
    assert!(leaf(TestValues::A).has_prefix(&leaf(TestValues::A)));
}

#[test]
fn has_prefix_single_node_miss() {
    assert!(!leaf(TestValues::A).has_prefix(&leaf(TestValues::B)));
}

#[test]
fn has_prefix_multi_node_miss() {
    let a = node(TestValues::A, vec![node(TestValues::B, vec![leaf(TestValues::C)])]);
    let b = node(TestValues::A, vec![node(TestValues::B, vec![leaf(TestValues::D)])]);
    assert_eq!(a.has_prefix(&b), false);
}

#[test]
fn has_prefix_multi_node_eventual_match() {
    let a = node(TestValues::A, vec![node(TestValues::B, vec![leaf(TestValues::C)])]);
    let b = node(
        TestValues::A,
        vec![
            node(TestValues::B, vec![leaf(TestValues::D)]),
            node(TestValues::B, vec![leaf(TestValues::D), leaf(TestValues::C)]),
        ],
    );
    assert_eq!(a.has_prefix(&b), true);
}

#[test]
fn has_prefix_leaf_pattern_matches_deep_tree() {
    assert!(two_b_branches().has_prefix(&leaf(TestValues::A)));
}

#[test]
fn has_prefix_pattern_deeper_than_candidate() {
    let pattern = node(TestValues::A, vec![leaf(TestValues::B)]);
    assert!(!leaf(TestValues::A).has_prefix(&pattern));
}

#[test]
fn path_to_root() {
    let tree = node(TestValues::A, vec![node(TestValues::B, vec![leaf(TestValues::C)])]);
    let mut it = tree.iter();
    let mut found = None;
    while let Some(s) = it.next() {
        if *s.value() == TestValues::C {
            found = Some(s);
            break;
        }
    }
    let path: Vec<TestValues> = found.unwrap().path_to_root().iter().map(|n| n.value).collect();
    assert_eq!(path, vec![TestValues::B, TestValues::A]);
}

#[test]
fn path_to_root_after_walk_ends() {
    let tree = two_b_branches();
    let mut it = tree.iter();
    let mut states = Vec::new();
    while let Some(s) = it.next() {
        states.push(s);
    }
    let depths: Vec<usize> = states.iter().map(|s| s.path_to_root().len()).collect();
    assert_eq!(depths, vec![0, 1, 1, 2, 2]);
}
