use git_subset::filter::Filter;

fn flatten_into(filter: &Filter, stack: &mut Vec<String>, paths: &mut Vec<String>) {
    for i in 0..filter.len() {
        let child = filter.child(i);
        let pattern = String::from_utf8(filter.child_name(i).clone()).unwrap();
        let component = if child.excludes() {
            format!("{}*", pattern)
        } else {
            pattern
        };
        stack.push(component);
        if child.is_empty() {
            paths.push(stack.join("/"));
        } else {
            flatten_into(child, stack, paths);
        }
        stack.pop();
    }
}

fn flatten(filter: &Filter) -> Vec<String> {
    let mut stack: Vec<String> = Vec::new();
    let mut paths: Vec<String> = Vec::new();
    if filter.excludes() {
        stack.push("*".into());
    }
    flatten_into(filter, &mut stack, &mut paths);
    paths
}

fn check_filter(filter: &Filter, mut ref_paths: Vec<&str>) {
    let mut filter_paths = flatten(filter);

    filter_paths.sort();
    ref_paths.sort();

    assert_eq!(filter_paths, ref_paths);
}

#[test]
fn insert_includes_empty() {
    let filter: Filter = Default::default();
    check_filter(&filter, vec![]);
}

#[test]
fn insert_includes() {
    let mut filter: Filter = Default::default();

    filter.insert_include("a/b/c");
    filter.insert_include("a/b");
    filter.insert_include("b");
    filter.insert_include("a/b/d");
    filter.insert_include("a/b/e");
    filter.insert_include("a/c/d/e");
    filter.insert_include("a/c/d/f");
    filter.insert_include("a/c/d");

    check_filter(&filter, vec!["a/b/d", "a/b/e", "a/c/d", "b"]);
}

#[test]
fn insert_excludes() {
    let mut filter: Filter = Default::default();

    filter.insert_exclude("a/b/c");
    filter.insert_exclude("a/b");
    filter.insert_exclude("b");
    filter.insert_exclude("c/d");

    check_filter(&filter, vec!["*/a*/b*", "*/b*", "*/c*/d*"]);
}

#[test]
fn insert_mixed() {
    let mut filter: Filter = Default::default();

    filter.insert_include("a/b");
    filter.insert_exclude("a/b/c");
    filter.insert_exclude("a/b/d");
    filter.insert_exclude("a/c/d");
    filter.insert_include("b");
    filter.insert_include("c/d/e/f");
    filter.insert_exclude("c/d/e");
    filter.insert_include("d/e/f");
    filter.insert_exclude("d/e/f/g/h");
    filter.insert_exclude("e");
    filter.insert_include("f");
    filter.insert_exclude("f/g/h");
    filter.insert_exclude("f/g");

    check_filter(
        &filter,
        vec![
            "a/b*/c*",
            "a/b*/d*",
            "b",
            "c/d/e/f",
            "d/e/f*/g*/h*",
            "f*/g*",
        ],
    );
}

#[test]
fn include_beneath_an_excluded_terminal_changes_nothing() {
    let mut filter = Filter::new(true);
    filter.insert_include("a/b");
    check_filter(&filter, vec![]);
    assert!(filter.is_empty() && filter.excludes());

    let mut filter: Filter = Default::default();
    filter.insert_include("a/b");
    filter.insert_include("a/k");
    filter.insert_exclude("a/b/c");
    check_filter(&filter, vec!["a/b*/c*", "a/k"]);
    let before = flatten(&filter);
    let key = filter.cache_key();

    filter.insert_include("a/b/c/d");
    filter.insert_include("a/b/c");
    filter.insert_include("a/b/c/d/e/f");

    assert_eq!(flatten(&filter), before);
    assert_eq!(filter.cache_key(), key);
    // `a/b/c` is still there, a terminal node that excludes, the only
    // child of `a/b`; `a` and the root include as before.
    assert!(!filter.excludes());
    assert!(!filter.child(0).excludes());
    let b = filter.child(0).child(0);
    assert!(b.excludes());
    assert_eq!(b.len(), 1);
    assert_eq!(b.child_name(0), &b"c".to_vec());
    let c = b.child(0);
    assert!(c.excludes());
    assert!(c.is_empty());
}

#[test]
fn include_ends_at_a_node_that_excludes() {
    // The path ends at a node that excludes and has children: the node
    // becomes terminal, and keeps its flag.
    let mut filter: Filter = Default::default();
    filter.insert_include("a/b");
    filter.insert_exclude("a/b/c");
    check_filter(&filter, vec!["a/b*/c*"]);
    filter.insert_include("a/b");
    check_filter(&filter, vec!["a/b*"]);
    let b = filter.child(0).child(0);
    assert!(b.excludes() && b.is_empty());
    assert!(!filter.excludes() && !filter.child(0).excludes());

    // The path goes on to a name that the node has no child for: the walk
    // ends at the node all the same.
    let mut filter: Filter = Default::default();
    filter.insert_include("a/b");
    filter.insert_include("a/k");
    filter.insert_exclude("a/b/c");
    filter.insert_include("a/b/x/y");
    check_filter(&filter, vec!["a/b*", "a/k"]);

    // Nodes that include are changed as ever.
    filter.insert_include("a");
    check_filter(&filter, vec!["a"]);
}

#[test]
fn include_then_exclude_two() {
    let mut filter: Filter = Default::default();
    filter.insert_include("a/b");
    filter.insert_exclude("a/b/c");
    filter.insert_exclude("a/b/d");

    check_filter(&filter, vec!["a/b*/c*", "a/b*/d*"]);
    let b = filter.child(0).child(0);
    assert!(!filter.excludes());
    assert!(!filter.child(0).excludes());
    assert!(b.excludes());
    assert_eq!(b.len(), 2);
    assert_eq!(b.child_name(0), &b"c".to_vec());
    assert_eq!(b.child_name(1), &b"d".to_vec());
    // Everything beneath `a/b` is kept but `c` and `d`.
    assert!(b.match_entry(b"c").unwrap().excludes());
    assert!(b.match_entry(b"d").unwrap().excludes());
    assert!(b.match_entry(b"e").is_none());
}

#[test]
fn include_beneath_an_excluded_name_changes_nothing() {
    let mut filter: Filter = Default::default();
    filter.insert_exclude("a");
    check_filter(&filter, vec!["*/a*"]);
    filter.insert_include("a/x");
    filter.insert_include("a");
    check_filter(&filter, vec!["*/a*"]);
    // The root excludes and has no child `b`: the walk ends at the root.
    filter.insert_include("b");
    check_filter(&filter, vec![]);
    assert!(filter.excludes() && filter.is_empty());
}

#[test]
fn exclude_of_what_is_not_included_changes_nothing() {
    let mut filter: Filter = Default::default();
    filter.insert_include("a/b");
    filter.insert_exclude("x/y");
    filter.insert_exclude("a/c");
    check_filter(&filter, vec!["a/b"]);
}

#[test]
fn children_stand_in_order_of_their_names() {
    let mut filter: Filter = Default::default();
    for path in ["m", "b", "z", "a", "**", "ab", "B"] {
        filter.insert_include(path);
    }
    let names: Vec<Vec<u8>> = (0..filter.len()).map(|i| filter.child_name(i).clone()).collect();
    let expected: Vec<Vec<u8>> =
        ["**", "B", "a", "ab", "b", "m", "z"].iter().map(|s| s.as_bytes().to_vec()).collect();
    assert_eq!(names, expected);
}

#[test]
fn match_name_knows_two_wildcards() {
    assert!(Filter::match_name("", "anything"));
    assert!(Filter::match_name("**", "anything"));
    assert!(Filter::match_name("same", "same"));
    assert!(!Filter::match_name("same", "other"));
    assert!(!Filter::match_name("*", "other"));
    assert!(!Filter::match_name("sam", "same"));
    assert!(Filter::matches(b"**", b""));
    assert!(!Filter::matches(b"a", b""));
}

#[test]
fn match_entry_takes_the_first_child_that_matches() {
    let mut filter: Filter = Default::default();
    filter.insert_include("b/x");
    filter.insert_include("**/y");
    filter.insert_include("#/z");

    // `#` sorts before `**`, which sorts before `b`.
    let hash = filter.match_entry(b"#").unwrap();
    assert_eq!(hash.child_name(0), &b"z".to_vec());
    let b = filter.match_entry(b"b").unwrap();
    assert_eq!(b.child_name(0), &b"y".to_vec());
    let other = filter.match_entry(b"other").unwrap();
    assert_eq!(other.child_name(0), &b"y".to_vec());

    let mut plain: Filter = Default::default();
    plain.insert_include("b/x");
    assert!(plain.match_entry(b"a").is_none());
    assert!(plain.match_entry(b"b").is_some());
    let empty: Filter = Default::default();
    assert!(empty.match_entry(b"a").is_none());
}

#[test]
fn from_reader_reads_paths_line_by_line() {
    let text = b"# paths to keep\n\n  a/b  \r\nc\n# !EXCLUDES!\na/b/x\n#c\n\td/e\n";
    let filter = Filter::from_reader(text);
    check_filter(&filter, vec!["a/b*/x*", "c"]);

    let mut by_hand: Filter = Default::default();
    by_hand.insert_include("a/b");
    by_hand.insert_include("c");
    by_hand.insert_exclude("a/b/x");
    by_hand.insert_exclude("d/e");
    assert_eq!(filter.cache_key(), by_hand.cache_key());
}

#[test]
fn from_reader_of_nothing_includes_everything() {
    let filter = Filter::from_reader(b"");
    assert!(filter.is_empty());
    assert!(!filter.excludes());
    let filter = Filter::from_reader(b"# !EXCLUDES!\n");
    assert!(filter.is_empty());
    assert!(!filter.excludes());
    let filter = Filter::from_reader(b"# !EXCLUDES!\nsecret");
    check_filter(&filter, vec!["*/secret*"]);
}

#[test]
fn cache_key_is_the_hash_in_sixteen_digits() {
    let empty: Filter = Default::default();
    assert_eq!(empty.structural_hash(), 0x08329907b4eb8cd0);
    assert_eq!(empty.cache_key(), b"08329907b4eb8cd0".to_vec());

    let mut a: Filter = Default::default();
    a.insert_include("a");
    assert_eq!(a.cache_key(), b"1437da61198fb15b".to_vec());

    let mut abc: Filter = Default::default();
    abc.insert_include("a/b");
    abc.insert_exclude("a/b/c");
    assert_eq!(abc.structural_hash(), 0x6e9798ccae804d6e);
    assert_eq!(abc.cache_key(), b"6e9798ccae804d6e".to_vec());
}

#[test]
fn cache_key_does_not_depend_on_the_order_of_insertion() {
    let mut one: Filter = Default::default();
    one.insert_include("x/y");
    one.insert_include("a");
    one.insert_include("m/n/o");
    let mut two: Filter = Default::default();
    two.insert_include("m/n/o");
    two.insert_include("x/y");
    two.insert_include("a");
    assert_eq!(one.cache_key(), two.cache_key());

    let mut three: Filter = Default::default();
    three.insert_include("x/y");
    three.insert_include("a");
    assert_ne!(one.cache_key(), three.cache_key());
}

#[test]
fn new_makes_a_terminal_node() {
    let keeping = Filter::new(false);
    assert!(keeping.is_empty() && !keeping.excludes());
    let dropping = Filter::new(true);
    assert!(dropping.is_empty() && dropping.excludes());
    check_filter(&dropping, vec![]);
}

#[test]
fn paths_may_be_given_as_bytes() {
    let mut filter: Filter = Default::default();
    filter.insert_include_bytes(&[b'a', b'/', 0xff, 0xfe]);
    filter.insert_exclude_bytes(&[b'a', b'/', 0xff, 0xfe, b'/', b'x']);
    assert_eq!(filter.child(0).child_name(0), &vec![0xffu8, 0xfe]);
    assert!(filter.child(0).child(0).excludes());
}

#[test]
fn from_reader_takes_a_line_of_blanks_for_blank() {
    let filter = Filter::from_reader("a\n\u{a0}\u{2003}\n\u{3000}b/c\u{a0}\n".as_bytes());
    check_filter(&filter, vec!["a", "b/c"]);
}
