use okf::concept_id::ConceptId;
use okf::file_tree::{build_tree, concept_entry, TreeEntry};
use okf::studio::{flatten_tree, LeafKind, TreeNode, TreeRowKind};

fn file(dirs: &[&str], name: &str, kind: LeafKind) -> TreeEntry {
    TreeEntry {
        dirs: dirs.iter().map(|d| d.to_string()).collect(),
        name: name.to_string(),
        kind,
    }
}

fn concept(id: &str) -> TreeEntry {
    concept_entry(&ConceptId::parse(id).unwrap())
}

fn names(nodes: &[TreeNode]) -> Vec<String> {
    nodes
        .iter()
        .map(|n| match n {
            TreeNode::Dir { name, .. } => format!("{name}/"),
            TreeNode::Leaf { name, .. } => name.clone(),
        })
        .collect()
}

#[test]
fn the_tree_lists_reserved_files_then_directories_then_files() {
    let entries = vec![
        concept("zeta"),
        concept("a/b"),
        concept("a/c/d"),
        file(&[], "index.md", LeafKind::Index("index.md".into())),
        file(&["a"], "log.md", LeafKind::Log("a/log.md".into())),
        file(&["a"], "index.md", LeafKind::Index("a/index.md".into())),
        file(&["a"], "x.md", LeafKind::Broken("a/x.md".into())),
        concept("alpha"),
    ];
    let roots = build_tree(&entries);
    assert_eq!(names(&roots), vec!["index.md", "a/", "alpha.md", "zeta.md"]);
    match &roots[1] {
        TreeNode::Dir { path, concept_count, children, .. } => {
            assert_eq!(path, "a");
            assert_eq!(*concept_count, 2);
            assert_eq!(names(children), vec!["index.md", "log.md", "c/", "b.md", "x.md"]);
            match &children[2] {
                TreeNode::Dir { path, concept_count, children, .. } => {
                    assert_eq!(path, "a/c");
                    assert_eq!(*concept_count, 1);
                    assert_eq!(names(children), vec!["d.md"]);
                }
                other => panic!("unexpected {other:?}"),
            }
        }
        other => panic!("unexpected {other:?}"),
    }

    let mut rows = Vec::new();
    flatten_tree(&roots, 0, &vec!["a/c".to_string()], &mut rows);
    let shown: Vec<(usize, String)> = rows.iter().map(|r| (r.depth, r.name.clone())).collect();
    assert_eq!(
        shown,
        vec![
            (0, "index.md".to_string()),
            (0, "a".to_string()),
            (1, "index.md".to_string()),
            (1, "log.md".to_string()),
            (1, "c".to_string()),
            (1, "b.md".to_string()),
            (1, "x.md".to_string()),
            (0, "alpha.md".to_string()),
            (0, "zeta.md".to_string()),
        ]
    );
    assert!(matches!(rows[4].kind, TreeRowKind::Dir { count: 1, collapsed: true, .. }));
}

#[test]
fn an_empty_bundle_has_an_empty_tree() {
    assert!(build_tree(&Vec::new()).is_empty());
}

#[test]
fn concept_entries_name_the_markdown_file() {
    let e = concept("policies/travel/expenses");
    assert_eq!(e.dirs, vec!["policies", "travel"]);
    assert_eq!(e.name, "expenses.md");
}
