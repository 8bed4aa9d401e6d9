use multiglob::cluster::{cluster_globs, split_glob};
use multiglob::compile::WalkPlanNodeCompiled;
use multiglob::plan::{split_pattern, WalkNodeType, WalkPlanNode};

fn strings(list: &[&str]) -> Vec<String> {
    list.iter().map(|s| s.to_string()).collect()
}

#[test]
fn test_walk_plan_node() {
    let node = WalkPlanNode::build(&strings(&[
        "foo/bar",
        "x/y",
        "foo/bar/../z",
        "../../a",
        "../x/y",
        "../x/**/y",
        "../x/**/z/*",
        "../x/**",
        "/var/folders/",
        "/var/folders/1/2",
        "/var/folders/*.doc",
        "/home/user",
    ]));
    let cnode = WalkPlanNodeCompiled::new(&node, false, false).unwrap();
    assert_eq!(
        node.describe(),
        "Path { \
         ..: Path { ..: Path { a: Terminal }, \
         x: Walk { **: Terminal, **/y: Terminal, **/z/*: Terminal, y: Terminal } }, \
         /: Path { home: Path { user: Terminal }, \
         var: Path { folders: Glob[T] { *.doc: Terminal, 1: Path { 2: Terminal } } } }, \
         foo: Path { bar: Path[T] { ..: Path { z: Terminal } } }, \
         x: Path { y: Terminal } }"
    );
    assert_eq!(
        cnode.describe(),
        "Path { paths: [\"..\", \"/\", \"foo\", \"x\"], destinations: [\
         Path { paths: [\"..\", \"x\"], destinations: [\
         Path { paths: [\"a\"], destinations: [Terminal] }, \
         Glob { globset: \"..\", recursive: true, destinations: [Terminal, Terminal, Terminal, Terminal] }] }, \
         Path { paths: [\"home\", \"var\"], destinations: [\
         Path { paths: [\"user\"], destinations: [Terminal] }, \
         Path { paths: [\"folders\"], destinations: [\
         Glob[T] { globset: \"..\", recursive: false, destinations: [\
         Terminal, Path { paths: [\"2\"], destinations: [Terminal] }] }] }] }, \
         Path { paths: [\"bar\"], destinations: [\
         Path[T] { paths: [\"..\"], destinations: [Path { paths: [\"z\"], destinations: [Terminal] }] }] }, \
         Path { paths: [\"y\"], destinations: [Terminal] }] }"
    );
}

#[test]
fn empty_pattern_and_dot_mark_the_root() {
    for pattern in ["", "."] {
        let node = WalkPlanNode::build(&strings(&[pattern]));
        assert!(node.is_terminal());
        assert_eq!(node.len(), 0);
        assert_eq!(node.node_type(), WalkNodeType::Path);
        assert_eq!(node.describe(), "Terminal");
    }
    let node = WalkPlanNode::build(&[]);
    assert!(!node.is_terminal());
    assert_eq!(node.describe(), "Path");
}

#[test]
fn leading_dot_is_no_segment() {
    assert_eq!(split_pattern("./a/./b/"), strings(&["a", "b"]));
    assert_eq!(split_pattern("../a"), strings(&["..", "a"]));
    assert_eq!(split_pattern("/a//b"), strings(&["/", "a", "b"]));
    assert_eq!(split_pattern(""), Vec::<String>::new());
    let node = WalkPlanNode::build(&strings(&["./a", "a"]));
    assert_eq!(node.describe(), "Path { a: Terminal }");
}

#[test]
fn terminal_and_default_nodes() {
    let leaf = WalkPlanNode::terminal();
    assert!(leaf.is_terminal());
    assert_eq!(leaf.len(), 0);
    assert_eq!(leaf.node_type(), WalkNodeType::Path);
    let blank = WalkPlanNode::default();
    assert!(!blank.is_terminal());
    assert_eq!(blank.len(), 0);
}

#[test]
fn insert_keeps_children_in_the_order_of_keys() {
    let mut node = WalkPlanNode::default();
    node.insert(&["m"]);
    node.insert(&["b", "y"]);
    node.insert(&["z"]);
    node.insert(&["b", "x"]);
    node.insert(&["a"]);
    node.insert(&["b"]);
    assert_eq!(node.len(), 4);
    assert_eq!(node.key(0), "a");
    assert_eq!(node.key(1), "b");
    assert_eq!(node.key(2), "m");
    assert_eq!(node.key(3), "z");
    assert!(node.child(1).is_terminal());
    assert_eq!(node.child(1).key(0), "x");
    assert_eq!(node.child(1).key(1), "y");
    assert_eq!(
        node.describe(),
        "Path { a: Terminal, b: Path[T] { x: Terminal, y: Terminal }, m: Terminal, z: Terminal }"
    );
}

#[test]
fn key_order_is_by_code_point_with_prefixes_first() {
    let mut node = WalkPlanNode::default();
    for key in ["b", "ab", "a", "B", "é", "a/b", "a.b", ""] {
        node.insert(&[key]);
    }
    let keys: Vec<String> = (0..node.len()).map(|i| node.key(i).clone()).collect();
    assert_eq!(keys, strings(&["", "B", "a", "a.b", "a/b", "ab", "b", "é"]));
}

#[test]
fn insert_of_nothing_marks_the_node() {
    let mut node = WalkPlanNode::default();
    node.insert(&["a"]);
    assert!(!node.is_terminal());
    node.insert(&[]);
    assert!(node.is_terminal());
    assert_eq!(node.describe(), "Path[T] { a: Terminal }");
}

#[test]
fn wildcard_segment_makes_a_glob_node() {
    let mut node = WalkPlanNode::default();
    node.insert(&["src", "lib.rs"]);
    assert_eq!(node.child(0).node_type(), WalkNodeType::Path);
    node.insert(&["src", "*.rs"]);
    assert_eq!(node.node_type(), WalkNodeType::Path);
    assert_eq!(node.child(0).node_type(), WalkNodeType::Glob);
    // a literal sibling leaves the node a glob node
    node.insert(&["src", "main.rs"]);
    assert_eq!(node.child(0).node_type(), WalkNodeType::Glob);
    assert_eq!(node.describe(), "Path { src: Glob { *.rs: Terminal, lib.rs: Terminal, main.rs: Terminal } }");
    for part in ["a?", "[ab]", "{a,b}", "x]", "x}"] {
        let mut node = WalkPlanNode::default();
        node.insert(&[part, "tail"]);
        assert_eq!(node.node_type(), WalkNodeType::Glob);
        assert_eq!(node.child(0).node_type(), WalkNodeType::Path);
    }
}

#[test]
fn recursive_wildcard_flattens_what_was_planned() {
    let mut node = WalkPlanNode::default();
    node.insert(&["a", "b"]);
    node.insert(&["a", "*.c", "d"]);
    node.insert(&["e"]);
    node.insert(&[]);
    node.insert(&["**", "x"]);
    assert_eq!(node.node_type(), WalkNodeType::Walk);
    assert!(node.is_terminal());
    assert_eq!(
        node.describe(),
        "Walk[T] { **/x: Terminal, a/*.c/d: Terminal, a/b: Terminal, e: Terminal }"
    );
    // below a walk node the segments are joined, whatever they hold
    node.insert(&["f", "*", "g"]);
    node.insert(&["e"]);
    assert_eq!(
        node.describe(),
        "Walk[T] { **/x: Terminal, a/*.c/d: Terminal, a/b: Terminal, e: Terminal, f/*/g: Terminal }"
    );
    for i in 0..node.len() {
        assert!(node.child(i).is_terminal());
        assert_eq!(node.child(i).len(), 0);
    }
}

#[test]
fn double_star_inside_a_segment_counts() {
    let mut node = WalkPlanNode::default();
    node.insert(&["a**b", "c"]);
    assert_eq!(node.describe(), "Walk { a**b/c: Terminal }");
}

#[test]
fn collect_lists_results_in_order_and_empties_the_node() {
    let mut node = WalkPlanNode::default();
    node.insert(&["b"]);
    node.insert(&["a", "y"]);
    node.insert(&["a"]);
    node.insert(&["a", "x", "deep"]);
    let mut out = vec!["first".to_string()];
    node.collect("pre".to_string(), &mut out);
    assert_eq!(out, strings(&["first", "pre/a", "pre/a/x/deep", "pre/a/y", "pre/b"]));
    assert_eq!(node.len(), 0);
    assert_eq!(node.node_type(), WalkNodeType::Path);
    let mut out = Vec::new();
    node.collect(String::new(), &mut out);
    assert!(out.is_empty());
}

#[test]
fn optimize_changes_nothing() {
    let mut node = WalkPlanNode::build(&strings(&["a/b/c", "a/*"]));
    let before = node.describe();
    node.optimize();
    assert_eq!(node.describe(), before);
}

#[test]
fn compile_keeps_one_destination_for_each_pattern() {
    let node = WalkPlanNode::build(&strings(&["a/*.rs", "a/b", "c"]));
    let compiled = WalkPlanNodeCompiled::new(&node, false, false).unwrap();
    assert_eq!(
        compiled.describe(),
        "Path { paths: [\"a\", \"c\"], destinations: [\
         Glob { globset: \"..\", recursive: false, destinations: [Terminal, Terminal] }, Terminal] }"
    );
    let copy = compiled.clone();
    assert_eq!(copy.describe(), compiled.describe());
}

#[test]
fn compile_reports_the_first_invalid_glob() {
    let node = WalkPlanNode::build(&strings(&["ok/*", "a/z[", "a/b{", "a/fine*"]));
    let error = WalkPlanNodeCompiled::new(&node, false, false).unwrap_err();
    // the keys of a node are compiled in their order: `b{` comes before `z[`
    assert_eq!(error.glob(), Some("b{"));
    assert_eq!(error.reason(), "unclosed alternate group; missing '}' (maybe escape '{' with '[{]'?)");
    let node = WalkPlanNode::build(&strings(&["a/z["]));
    let error = WalkPlanNodeCompiled::new(&node, false, false).unwrap_err();
    assert_eq!(error.glob(), Some("z["));
    assert_eq!(error.reason(), "unclosed character class; missing ']'");
    assert_eq!(error.message(), "error parsing glob 'z[': unclosed character class; missing ']'");
    let node = WalkPlanNode::build(&strings(&["x/[z-a]"]));
    let error = WalkPlanNodeCompiled::new(&node, false, false).unwrap_err();
    assert_eq!(error.message(), "error parsing glob '[z-a]': invalid range; 'z' > 'a'");
}

#[test]
fn compile_skips_invalid_globs_with_what_hangs_under_them() {
    let node = WalkPlanNode::build(&strings(&["a/z[/deep", "a/b{", "a/fine*/x"]));
    let compiled = WalkPlanNodeCompiled::new(&node, true, false).unwrap();
    assert_eq!(
        compiled.describe(),
        "Path { paths: [\"a\"], destinations: [\
         Glob { globset: \"..\", recursive: false, destinations: [\
         Path { paths: [\"x\"], destinations: [Terminal] }] }] }"
    );
}

#[test]
fn a_literal_key_is_never_compiled() {
    // as a literal segment below a literal node the text is no glob, so it cannot be invalid
    let mut node = WalkPlanNode::default();
    node.insert(&["plain", "also"]);
    assert!(WalkPlanNodeCompiled::new(&node, false, false).is_ok());
}

#[test]
fn paths_are_described_as_they_are() {
    let mut node = WalkPlanNode::default();
    node.insert(&["a b"]);
    let compiled = WalkPlanNodeCompiled::new(&node, false, false).unwrap();
    assert_eq!(compiled.describe(), "Path { paths: [\"a b\"], destinations: [Terminal] }");
}

#[test]
fn split_glob_takes_the_literal_prefix() {
    let pair = |b: &str, t: &str| (b.to_string(), t.to_string());
    assert_eq!(split_glob(""), pair(".", ""));
    assert_eq!(split_glob("."), pair(".", ""));
    assert_eq!(split_glob("a"), pair(".", "a"));
    assert_eq!(split_glob("a/b"), pair("./a", "b"));
    assert_eq!(split_glob("a/b/*.rs"), pair("./a/b", "*.rs"));
    assert_eq!(split_glob("a/*/c/**"), pair("./a", "*/c/**"));
    assert_eq!(split_glob("*"), pair(".", "*"));
    assert_eq!(split_glob(".."), pair("./..", ""));
    assert_eq!(split_glob("../a"), pair("./..", "a"));
    assert_eq!(split_glob("a/.."), pair("./a/..", ""));
    assert_eq!(split_glob("/"), pair("/", ""));
    assert_eq!(split_glob("/var/log"), pair("/var", "log"));
    assert_eq!(split_glob("/var/*.log"), pair("/var", "*.log"));
}

#[test]
fn cluster_globs_groups_by_base_in_order() {
    let groups = cluster_globs(&strings(&["a/*.rs", "b", "a/x", "c/d/**", "", "a/?", "c/d/e"]));
    let expected: Vec<(String, Vec<String>)> = vec![
        ("./a".to_string(), strings(&["*.rs", "x", "?"])),
        (".".to_string(), strings(&["b", ""])),
        ("./c/d".to_string(), strings(&["**", "e"])),
    ];
    assert_eq!(groups, expected);
    assert!(cluster_globs(&[]).is_empty());
}

#[test]
fn a_copy_of_a_plan_is_the_same_plan() {
    let node = WalkPlanNode::build(&strings(&["a/b/*.rs", "a/**/x", "c", ""]));
    let copy = node.clone();
    assert_eq!(copy.describe(), node.describe());
    assert_eq!(copy.len(), node.len());
    assert_eq!(copy.is_terminal(), node.is_terminal());
    assert_eq!(WalkNodeType::default(), WalkNodeType::Path);
}
