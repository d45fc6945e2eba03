use lispy::utils::find;

#[test]
fn find_str() {
    let s = "Hello World";
    let ns = "llo";
    let res = find(s, ns);
    assert_eq!(Some(2_usize), res);
    let s = "(* (min 3,4) 2) ";
    let ns = "min";
    let res = find(s, ns);
    assert_eq!(Some(4_usize), res);
    let s = "(* (min 3,4) 2) ";
    let ns = "mine";
    let res = find(s, ns);
    assert_eq!(None, res);
}

#[test]
fn find_edge_cases() {
    assert_eq!(find("aab", "ab"), Some(1));
    assert_eq!(find("abc", ""), None);
    assert_eq!(find("", "a"), None);
    assert_eq!(find("abab", "ab"), Some(0));
    assert_eq!(find("ab", "ab"), Some(0));
}
