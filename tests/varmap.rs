use lispy::varmap::VarNode;

#[test]
fn varmap_test() {
    let mut root = VarNode::new();
    root.push_str("her");
    root.push_str("his");
    root.push_str("he");
    root.push_str("hi");
    root.push_str("what");
    root.push_str("next");
    root.push_str_by_arr(vec!["apple", "next", "ppater"]);
    assert!(!root.pattern("Heo"));
    assert!(root.pattern("his"));
    assert!(root.pattern("he"));
    assert!(!root.pattern("hell"));
    assert!(!root.pattern("nex"));
    println!("{} nodes", root.len());
}

#[test]
fn varmap_struct_sample_test() {
    let mut root = VarNode::new();
    root.push_str("her");
    println!("{} nodes", root.len());
    assert_eq!(root.len(), 4);
    assert_eq!(root.locate("he"), Some(2));
}

#[test]
fn shared_prefixes_share_nodes() {
    let mut root = VarNode::new();
    root.push_str("abc");
    root.push_str("abd");
    assert_eq!(root.len(), 5);
    root.push_str("abd");
    assert_eq!(root.len(), 5);
    assert_eq!(root.locate("ab"), Some(2));
    assert_eq!(root.locate("abx"), None);
    assert_eq!(root.child(2, 'd'), Some(4));
    assert_eq!(root.child(2, 'x'), None);
    assert!(!root.pattern("ab"));
}
