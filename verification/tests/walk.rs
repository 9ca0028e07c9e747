use treecat::assemble::{
    assemble_tree, collect_walk, parent_rel_path, should_descend, walk_exclude_rules, WalkEntry,
};
use treecat::config::ExcludeDirRules;
use treecat::fswalk::TreeNode;

fn entry(path: &str, is_dir: bool, size: u64) -> WalkEntry {
    let name = path.rsplit('/').next().unwrap().to_string();
    let depth = path.split('/').count();
    WalkEntry {
        path: path.to_string(),
        name,
        is_dir,
        is_symlink: false,
        depth,
        size,
    }
}

fn names(n: &TreeNode) -> Vec<&str> {
    n.children.iter().map(|c| c.name.as_str()).collect()
}

#[test]
fn respects_max_depth_and_exclude_dir() {
    let entries = vec![
        entry("root.txt", false, 2),
        entry("keep", true, 0),
        entry("keep/inner.txt", false, 5),
        entry("skipme", true, 0),
        entry("skipme/skip.txt", false, 4),
    ];
    let max_depth = Some(1);
    let rules = walk_exclude_rules(&vec!["skipme".to_string()]).unwrap();
    let (tree, files) = collect_walk("tmp", &entries, max_depth, &rules);
    assert_eq!(files.len(), 1);
    assert_eq!(files[0].path, "root.txt");

    assert_eq!(tree.children.len(), 2);
    let names: Vec<_> = tree.children.iter().map(|c| c.name.as_str()).collect();
    assert!(names.contains(&"keep"));
    assert!(names.contains(&"root.txt"));
    for child in &tree.children {
        if child.name == "keep" {
            assert!(child.children.is_empty());
        }
        assert_ne!(child.name, "skipme");
    }
}

#[test]
fn exact_path_exclusion_prunes_only_that_directory() {
    let entries = vec![
        entry("src", true, 0),
        entry("src/gen", true, 0),
        entry("gen", true, 0),
        entry("gen/b.rs", false, 1),
    ];
    let rules = walk_exclude_rules(&vec!["src/gen".to_string()]).unwrap();
    let (tree, files) = collect_walk("p", &entries, None, &rules);
    assert_eq!(names(&tree), vec!["gen", "src"]);
    assert!(tree.children[1].children.is_empty());
    let paths: Vec<&str> = files.iter().map(|f| f.path.as_str()).collect();
    assert_eq!(paths, vec!["gen/b.rs"]);
}

#[test]
fn default_directories_are_excluded() {
    let entries = vec![entry(".git", true, 0), entry("node_modules", true, 0), entry("a", false, 1)];
    let rules = walk_exclude_rules(&vec![]).unwrap();
    let (tree, _) = collect_walk("p", &entries, None, &rules);
    assert_eq!(names(&tree), vec!["a"]);
    assert!(walk_exclude_rules(&vec!["..".to_string()]).is_err());
}

#[test]
fn tree_entries_are_sorted_by_name_at_every_level() {
    let entries = vec![
        entry("zeta", true, 0),
        entry("zeta/b.txt", false, 1),
        entry("zeta/a.txt", false, 1),
        entry("Alpha.md", false, 1),
        entry("beta", false, 1),
        entry("zeta/C", true, 0),
    ];
    let rules = ExcludeDirRules::new();
    let (tree, files) = collect_walk("root", &entries, None, &rules);
    assert_eq!(tree.name, "root");
    assert_eq!(tree.path, ".");
    assert!(tree.is_dir);
    assert_eq!(names(&tree), vec!["Alpha.md", "beta", "zeta"]);
    assert_eq!(names(&tree.children[2]), vec!["C", "a.txt", "b.txt"]);
    assert_eq!(tree.children[2].children[1].path, "zeta/a.txt");
    assert_eq!(files.len(), 4);
    assert_eq!(files[0].path, "zeta/b.txt");
}

#[test]
fn later_entry_with_same_path_replaces_earlier() {
    let mut first = entry("x", false, 1);
    first.name = "first".to_string();
    let second = entry("x", false, 2);
    let tree = assemble_tree("r", &vec![first, second]);
    assert_eq!(tree.children.len(), 1);
    assert_eq!(tree.children[0].name, "x");
}

#[test]
fn root_entry_and_orphans() {
    let entries = vec![entry("a/b/c.txt", false, 1), entry("d", false, 1)];
    let tree = assemble_tree("r", &entries);
    assert_eq!(names(&tree), vec!["d"]);
    let empty = assemble_tree("only", &vec![]);
    assert_eq!(empty.name, "only");
    assert!(empty.children.is_empty());
}

#[test]
fn parent_paths_of_walked_entries() {
    assert_eq!(parent_rel_path("a"), Some(".".to_string()));
    assert_eq!(parent_rel_path("a/b"), Some("a".to_string()));
    assert_eq!(parent_rel_path("a/b/c.txt"), Some("a/b".to_string()));
    assert_eq!(parent_rel_path("/"), None);
    assert_eq!(parent_rel_path(""), None);
}

#[test]
fn descending_follows_depth_and_rules() {
    let rules = walk_exclude_rules(&vec!["skip".to_string()]).unwrap();
    let mut visited: Vec<String> = vec![];
    assert!(should_descend(0, Some(0), true, false, "", &rules, None, &mut visited));
    assert!(!should_descend(2, Some(1), false, false, "a/b", &rules, None, &mut visited));
    assert!(!should_descend(1, None, true, false, "skip", &rules, None, &mut visited));
    assert!(should_descend(1, None, false, false, "skip", &rules, None, &mut visited));
    assert!(!should_descend(1, None, true, false, ".git", &rules, None, &mut visited));
    assert!(should_descend(3, None, true, false, "a/b/c", &rules, None, &mut visited));
    assert!(visited.is_empty());
}

#[test]
fn linked_directory_is_entered_once() {
    let rules = ExcludeDirRules::new();
    let mut visited: Vec<String> = vec![];
    let target = Some("/real/dir".to_string());
    assert!(should_descend(1, None, false, true, "l1", &rules, target.clone(), &mut visited));
    assert_eq!(visited, vec!["/real/dir".to_string()]);
    assert!(!should_descend(2, None, false, true, "x/l2", &rules, target, &mut visited));
    assert_eq!(visited.len(), 1);
    assert!(should_descend(1, None, false, true, "l3", &rules, None, &mut visited));
    assert_eq!(visited.len(), 1);
}
