use docc::parse;
use docc::Args;
use docc::Node;
use docc::Project;

fn directive(name: &str, children: Vec<Node>) -> Node {
    Node::Directive {
        name: name.into(),
        args: Args::new(),
        children,
    }
}

fn name_of(node: &Node) -> &str {
    match node {
        Node::Directive { name, .. } => name,
        _ => panic!("expected a directive"),
    }
}

#[test]
fn test_depth_first() {
    let root = directive(
        "A",
        vec![
            directive("B", vec![directive("C", vec![])]),
            directive("D", vec![]),
        ],
    );
    let mut names: Vec<&str> = Vec::new();
    let mut it = root.depth_first();
    while let Some(n) = it.next() {
        names.push(name_of(n));
    }
    assert_eq!(names, vec!["A", "B", "C", "D"]);
}

#[test]
fn test_depth_first_visits_all_node_kinds() {
    let root = parse("@Foo {\n  line\n  @Comment { hi }\n  @Bar()\n}").unwrap();
    let mut it = root.depth_first();
    let mut seen: Vec<String> = Vec::new();
    while let Some(n) = it.next() {
        seen.push(match n {
            Node::Directive { name, .. } => format!("dir:{}", name),
            Node::Text(s) => format!("text:{}", s),
            Node::Comment(s) => format!("comment:{}", s),
        });
    }
    assert_eq!(seen, vec!["dir:Foo", "text:line", "comment:hi", "dir:Bar"]);
}

#[test]
fn test_depth_first_single_node() {
    let root = Node::Text("only".into());
    let mut it = root.depth_first();
    assert_eq!(it.next(), Some(&Node::Text("only".into())));
    assert_eq!(it.next(), None);
    assert_eq!(it.next(), None);
}

#[test]
fn test_depth_first_is_resumable() {
    let root = directive("A", vec![directive("B", vec![]), directive("C", vec![])]);
    let mut it = root.depth_first();
    assert_eq!(name_of(it.next().unwrap()), "A");
    // The iterator suspends between pulls and picks up where it stopped.
    assert_eq!(name_of(it.next().unwrap()), "B");
    assert_eq!(name_of(it.next().unwrap()), "C");
    assert!(it.next().is_none());
}

#[test]
fn test_project_dir_name() {
    assert_eq!(Project::Backend.dir_name(), "lvn_tutorial_backend");
    assert_eq!(Project::App.dir_name(), "LVNTutorialApp");
}

#[test]
fn test_opts_verbosity() {
    let quiet = docc::Opts {
        verbose: 0,
        repo_path: "repo".into(),
        package_path: "pkg".into(),
        skip_checks: false,
    };
    assert!(!quiet.debug());
    assert!(!quiet.very_debug());
    let loud = docc::Opts {
        verbose: 2,
        repo_path: "repo".into(),
        package_path: "pkg".into(),
        skip_checks: true,
    };
    assert!(loud.debug());
    assert!(loud.very_debug());
}
