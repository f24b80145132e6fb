use flamegraph::line::{parse_line, Annotation, Frame, LineError, StackLine};
use flamegraph::tree::{build, CallTree, Rejected, TreeError};

fn lines_of(text: &[&str]) -> Vec<StackLine> {
    text.iter().map(|l| parse_line(l.as_bytes()).unwrap().unwrap()).collect()
}

fn plain(name: &str) -> Frame {
    Frame { name: name.as_bytes().to_vec(), annotation: Annotation::Plain }
}

fn find(tree: &CallTree, path: &[&str]) -> Option<usize> {
    let frames: Vec<Frame> = path.iter().map(|n| plain(n)).collect();
    tree.lookup(&frames)
}

fn node(tree: &CallTree, path: &[&str]) -> usize {
    find(tree, path).unwrap()
}

/// The tree as a sorted list of paths with their counts, which does not
/// depend on the places of the nodes.
fn shape(tree: &CallTree) -> Vec<(Vec<(Vec<u8>, Annotation)>, u64, u64, u64)> {
    let mut all = Vec::new();
    for i in 0..tree.nodes.len() {
        let mut path = Vec::new();
        let mut at = i;
        while at != 0 {
            path.push((tree.nodes[at].name.clone(), tree.nodes[at].annotation));
            at = tree.nodes[at].parent;
        }
        path.reverse();
        let n = &tree.nodes[i];
        all.push((path, n.total, n.self_count, n.secondary));
    }
    all.sort_by(|a, b| {
        let ka: Vec<(Vec<u8>, u8)> = a.0.iter().map(|(n, t)| (n.clone(), t.index())).collect();
        let kb: Vec<(Vec<u8>, u8)> = b.0.iter().map(|(n, t)| (n.clone(), t.index())).collect();
        ka.cmp(&kb)
    });
    all
}

#[test]
fn three_lines_make_one_root_with_two_children() {
    let tree = build(&lines_of(&["a;b 5", "a;c 3", "a 2"])).ok().unwrap();
    assert_eq!(tree.nodes.len(), 4);
    assert_eq!(tree.nodes[0].total, 10);
    let a = node(&tree, &["a"]);
    let b = node(&tree, &["a", "b"]);
    let c = node(&tree, &["a", "c"]);
    assert_eq!(tree.nodes[a].total, 10);
    assert_eq!(tree.nodes[a].self_count, 2);
    assert_eq!(tree.nodes[b].total, 5);
    assert_eq!(tree.nodes[b].self_count, 5);
    assert_eq!(tree.nodes[c].total, 3);
    assert_eq!(tree.nodes[c].self_count, 3);
    assert_eq!(tree.nodes[a].children, vec![b, c]);
    assert_eq!(tree.nodes[b].parent, a);
}

#[test]
fn the_root_holds_the_sum_of_all_counts() {
    let tree = build(&lines_of(&["a;b 5", "x 7", "a;b;c 11", "y;z 13", "a 1"])).ok().unwrap();
    assert_eq!(tree.nodes[0].total, 5 + 7 + 11 + 13 + 1);
    assert_eq!(tree.nodes[0].self_count, 0);
}

#[test]
fn every_count_is_the_self_count_and_the_counts_of_the_children() {
    let tree = build(&lines_of(&["a;b 5", "x 7", "a;b;c 11", "a;d 13", "a 1", "a;b 2", "x;a 4"]))
        .ok()
        .unwrap();
    for n in tree.nodes.iter() {
        let below: u64 = n.children.iter().map(|&c| tree.nodes[c].total).sum();
        assert_eq!(n.total, n.self_count + below);
    }
    assert_eq!(tree.nodes[node(&tree, &["a", "b"])].total, 18);
    assert_eq!(tree.nodes[node(&tree, &["a", "b"])].self_count, 7);
}

#[test]
fn the_order_of_the_lines_does_not_change_the_tree() {
    let one = build(&lines_of(&["a;b 5", "a;c 3", "a 2", "d;e_[k] 4", "d;e 6"])).ok().unwrap();
    let other = build(&lines_of(&["d;e 6", "a 2", "a;c 3", "d;e_[k] 4", "a;b 5"])).ok().unwrap();
    assert_eq!(shape(&one), shape(&other));
    // the places of the nodes do differ
    assert!(node(&one, &["a"]) != node(&other, &["a"]));
}

#[test]
fn children_stand_in_alphabetical_order() {
    let tree = build(&lines_of(&["r;zeta 1", "r;alpha 1", "r;mid 1", "r;alpha_[k] 1", "r;Beta 1"]))
        .ok()
        .unwrap();
    let r = node(&tree, &["r"]);
    let order: Vec<(String, Annotation)> = tree.nodes[r]
        .children
        .iter()
        .map(|&c| (String::from_utf8(tree.nodes[c].name.clone()).unwrap(), tree.nodes[c].annotation))
        .collect();
    assert_eq!(
        order,
        vec![
            ("Beta".to_string(), Annotation::Plain),
            ("alpha".to_string(), Annotation::Plain),
            ("alpha".to_string(), Annotation::Kernel),
            ("mid".to_string(), Annotation::Plain),
            ("zeta".to_string(), Annotation::Plain),
        ]
    );
}

#[test]
fn frames_that_differ_in_the_annotation_are_different_children() {
    let tree = build(&lines_of(&["a;f 1", "a;f_[k] 2", "a;f_[j] 4"])).ok().unwrap();
    let a = node(&tree, &["a"]);
    assert_eq!(tree.nodes[a].children.len(), 3);
    let k = tree.find_child(a, b"f", Annotation::Kernel).unwrap();
    assert_eq!(tree.nodes[k].total, 2);
    assert_eq!(tree.find_child(a, b"f", Annotation::Waker), None);
}

#[test]
fn a_path_that_no_line_passes_is_not_found() {
    let tree = build(&lines_of(&["a;b 5"])).ok().unwrap();
    assert_eq!(find(&tree, &["a", "c"]), None);
    assert_eq!(find(&tree, &["b"]), None);
    assert_eq!(find(&tree, &["a", "b", "c"]), None);
    assert_eq!(find(&tree, &[]), Some(0));
}

#[test]
fn second_counts_are_summed_and_give_the_change() {
    let tree = build(&lines_of(&["a;b 5 8", "a;c 3 1", "a 2 2"])).ok().unwrap();
    assert!(tree.is_differential());
    let a = node(&tree, &["a"]);
    let b = node(&tree, &["a", "b"]);
    let c = node(&tree, &["a", "c"]);
    assert_eq!(tree.nodes[a].secondary, 11);
    assert_eq!(tree.delta(a), 1);
    assert_eq!(tree.delta(b), 3);
    assert_eq!(tree.delta(c), -2);
    assert_eq!(tree.max_delta(), 3);
}

#[test]
fn a_line_without_a_second_count_among_lines_with_one_is_refused() {
    let r = build(&lines_of(&["a;b 5 7", "a;c 3"]));
    assert_eq!(r.err(), Some(Rejected { index: 1, reason: TreeError::Inconsistent }));
    let r = build(&lines_of(&["a;b 5", "a;b 5", "a;c 3 4"]));
    assert_eq!(r.err(), Some(Rejected { index: 2, reason: TreeError::Inconsistent }));
}

#[test]
fn a_refused_line_leaves_the_tree_as_it_was() {
    let mut tree = build(&lines_of(&["a;b 5"])).ok().unwrap();
    let before = shape(&tree);
    let empty = StackLine { frames: vec![], count: 1, delta: None };
    assert_eq!(tree.add_line(&empty), Err(TreeError::Line(LineError::EmptyStack)));
    let zero = StackLine { frames: vec![plain("a")], count: 0, delta: None };
    assert_eq!(tree.add_line(&zero), Err(TreeError::Line(LineError::ZeroCount)));
    let negative = StackLine { frames: vec![plain("a")], count: 3, delta: Some(-4) };
    assert_eq!(tree.add_line(&negative), Err(TreeError::Line(LineError::InvalidCount)));
    let huge = StackLine { frames: vec![plain("a"), plain("z")], count: u64::MAX, delta: None };
    assert_eq!(tree.add_line(&huge), Err(TreeError::Overflow));
    assert_eq!(shape(&tree), before);
    assert_eq!(tree.nodes.len(), 3);
}

#[test]
fn an_empty_tree() {
    let tree = CallTree::new();
    assert_eq!(tree.nodes.len(), 1);
    assert_eq!(tree.nodes[0].total, 0);
    assert!(!tree.is_differential());
    let built = build(&[]).ok().unwrap();
    assert_eq!(built.nodes.len(), 1);
}
