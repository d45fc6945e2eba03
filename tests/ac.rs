use lispy::ac::{AcError, AcNode};

fn build(patterns: Vec<&str>) -> AcNode {
    let mut root = AcNode::new();
    root.push_str_by_arr(patterns).unwrap();
    root.set_fail().unwrap();
    root
}

fn node(root: &AcNode, s: &str) -> usize {
    root.locate(s).unwrap()
}

#[test]
fn ac_test() {
    let mut root = AcNode::new();
    root.push_str("her").unwrap();
    root.push_str("his").unwrap();
    root.push_str("he").unwrap();
    root.push_str("hi").unwrap();
    root.push_str("what").unwrap();
    root.push_str("next").unwrap();
    root.push_str_by_arr(vec!["apple", "next", "ppater"]).unwrap();
    root.set_fail().unwrap();
    assert!(!root.pattern("Heo"));
    assert!(root.pattern("his"));
    assert!(root.pattern("he"));
    assert!(!root.pattern("hell"));
    assert!(!root.pattern("nex"));
    println!("{} nodes", root.len());
}

#[test]
fn ac_struct_sample_test() {
    let mut root = AcNode::new();
    root.push_str("her").unwrap();
    root.set_fail().unwrap();
    println!("{} nodes", root.len());
    assert_eq!(root.len(), 4);
    assert_eq!(root.get_fail_node(node(&root, "her")), Some(0));
}

#[test]
fn inserted_patterns_are_found_after_sealing() {
    let root = build(vec!["he", "she", "his", "hers", ""]);
    for p in ["he", "she", "his", "hers"] {
        assert!(root.pattern(p));
    }
    for p in ["", "h", "sh", "her", "hi", "x", "hersx"] {
        assert!(!root.pattern(p));
    }
}

#[test]
fn root_fails_to_root() {
    let root = build(vec!["abc", "bc"]);
    assert_eq!(root.get_fail_node(0), Some(0));
    let empty = build(vec![]);
    assert_eq!(empty.get_fail_node(0), Some(0));
}

#[test]
fn fail_links_follow_the_chain() {
    let root = build(vec!["d", "dd", "cd", "bcd"]);
    assert_eq!(root.get_fail_node(node(&root, "cd")), Some(node(&root, "d")));
    assert_eq!(root.get_fail_node(node(&root, "bcd")), Some(node(&root, "cd")));
    assert_eq!(root.get_fail_node(node(&root, "dd")), Some(node(&root, "d")));
    assert_eq!(root.get_fail_node(node(&root, "d")), Some(0));
    assert_eq!(root.get_fail_node(node(&root, "bc")), Some(node(&root, "c")));
    assert_eq!(root.get_fail_node(node(&root, "b")), Some(0));
}

#[test]
fn fail_link_to_interior_node() {
    let root = build(vec!["he", "she", "his", "hers"]);
    let s = node(&root, "s");
    assert!(!root.pattern("s"));
    assert_eq!(root.get_fail_node(node(&root, "hers")), Some(s));
    assert_eq!(root.get_fail_node(node(&root, "she")), Some(node(&root, "he")));
    assert_eq!(root.get_fail_node(node(&root, "sh")), Some(node(&root, "h")));
    assert_eq!(root.get_fail_node(node(&root, "his")), Some(s));
}

#[test]
fn fail_is_longest_proper_suffix() {
    let root = build(vec!["abcab", "bca", "cab", "ab"]);
    assert_eq!(root.get_fail_node(node(&root, "abcab")), Some(node(&root, "cab")));
    assert_eq!(root.get_fail_node(node(&root, "abca")), Some(node(&root, "bca")));
    assert_eq!(root.get_fail_node(node(&root, "cab")), Some(node(&root, "ab")));
    assert_eq!(root.get_fail_node(node(&root, "bca")), Some(node(&root, "ca")));
}

#[test]
fn scan_reports_overlapping_matches() {
    let root = build(vec!["he", "she", "his", "hers"]);
    let found = root.scan("ushers").unwrap();
    assert_eq!(
        found,
        vec![(3, node(&root, "she")), (3, node(&root, "he")), (5, node(&root, "hers"))]
    );
}

#[test]
fn scan_of_empty_and_unmatched_text() {
    let root = build(vec!["ab"]);
    assert_eq!(root.scan("").unwrap(), vec![]);
    assert_eq!(root.scan("xyz").unwrap(), vec![]);
    assert_eq!(root.scan("aabab").unwrap(), vec![(2, 2), (4, 2)]);
}

#[test]
fn goto_moves_along_edges_and_failure_links() {
    let root = build(vec!["he", "she", "his", "hers"]);
    let sh = node(&root, "sh");
    assert_eq!(root.goto(sh, 'e'), Ok(node(&root, "she")));
    assert_eq!(root.goto(sh, 'i'), Ok(node(&root, "hi")));
    assert_eq!(root.goto(sh, 'x'), Ok(0));
    assert_eq!(root.goto(0, 'z'), Ok(0));
    assert_eq!(root.goto(node(&root, "she"), 'r'), Ok(node(&root, "her")));
}

#[test]
fn insert_after_seal_is_refused() {
    let mut root = build(vec!["ab"]);
    assert_eq!(root.push_str("cd"), Err(AcError::InsertAfterSeal));
    assert_eq!(root.push_str_by_arr(vec!["cd"]), Err(AcError::InsertAfterSeal));
    assert!(!root.pattern("cd"));
    assert_eq!(root.len(), 3);
}

#[test]
fn double_finalize_is_refused() {
    let mut root = build(vec!["ab"]);
    assert_eq!(root.set_fail(), Err(AcError::DoubleFinalize));
}

#[test]
fn queries_before_finalize_are_refused() {
    let mut root = AcNode::new();
    root.push_str("ab").unwrap();
    assert_eq!(root.goto(0, 'a'), Err(AcError::QueryBeforeFinalize));
    assert_eq!(root.scan("ab"), Err(AcError::QueryBeforeFinalize));
    assert_eq!(root.get_fail_node(0), None);
    assert!(root.pattern("ab"));
}

#[test]
fn inserting_twice_changes_nothing() {
    let once = build(vec!["abc", "bc"]);
    let twice = build(vec!["abc", "bc", "abc"]);
    assert_eq!(once.len(), twice.len());
    for id in 0..once.len() {
        assert_eq!(once.get_fail_node(id), twice.get_fail_node(id));
        assert_eq!(once.get_prev_node(id), twice.get_prev_node(id));
    }
}

#[test]
fn empty_pattern_is_ignored() {
    let mut root = AcNode::new();
    root.push_str("").unwrap();
    assert_eq!(root.len(), 1);
    assert!(!root.pattern(""));
}

#[test]
fn parents_of_nodes() {
    let root = build(vec!["abc"]);
    assert_eq!(root.get_prev_node(0), None);
    assert_eq!(root.get_prev_node(node(&root, "abc")), Some(node(&root, "ab")));
    assert_eq!(root.get_prev_node(node(&root, "a")), Some(0));
    assert_eq!(root.get_prev_node(99), None);
    assert_eq!(root.get_fail_node(99), None);
}

#[test]
fn reinserting_an_earlier_pattern_keeps_links() {
    let once = build(vec!["she", "he", "hers"]);
    let again = build(vec!["she", "he", "hers", "she"]);
    assert_eq!(once.len(), again.len());
    for w in ["s", "sh", "she", "h", "he", "her", "hers"] {
        let a = once.get_fail_node(node(&once, w));
        let b = again.get_fail_node(node(&again, w));
        assert_eq!(a, b);
    }
}
