use treecat::classify::{classify_content, classify_path, has_binary_extension, FileKind};
use treecat::config::{
    build_exclude_dir_rules, default_excludes, exclude_dir_error, normalize_exact_dir_path,
    parse_exclude_dir_rule, Config,
    ExcludeDirProblem, ExcludeDirRule, ExcludeDirRules,
};
use treecat::filter::{base_and_ext, build_globset, filter_files, to_lower_set};
use treecat::fswalk::{filter_tree_children, FileInfo, TreeNode};
use treecat::lang::language_for_path;
use treecat::order::sort_files_by_path;
use treecat::render::{render_contents, render_tree, Palette};
use treecat::size::format_size;

fn fi(path: &str, size: u64) -> FileInfo {
    FileInfo {
        path: path.into(),
        size,
        is_symlink: false,
    }
}

fn leaf(name: &str, path: &str) -> TreeNode {
    TreeNode {
        name: name.into(),
        path: path.into(),
        is_dir: false,
        children: vec![],
    }
}

fn dir(name: &str, path: &str, children: Vec<TreeNode>) -> TreeNode {
    TreeNode {
        name: name.into(),
        path: path.into(),
        is_dir: true,
        children,
    }
}

#[test]
fn builds_basename_and_exact_path_rules() {
    let rules =
        build_exclude_dir_rules(&["target".into(), "dir/sub".into(), "windows\\path".into()])
            .unwrap();

    assert!(rules.matches_dir("target"));
    assert!(rules.matches_dir("dir/sub"));
    assert!(rules.matches_dir("windows/path"));
    assert!(!rules.matches_dir("other/sub"));
}

#[test]
fn rejects_invalid_exclude_dir_values() {
    let cases = [
        ("", "value cannot be empty"),
        (".", "'.' is not allowed"),
        ("..", "'..' is not allowed"),
        ("/tmp", "absolute paths are not allowed"),
        ("dir/./sub", "'.' segments are not allowed"),
        ("dir/../sub", "'..' segments are not allowed"),
    ];

    for (value, expected) in cases {
        let err = build_exclude_dir_rules(&[value.into()]).unwrap_err();
        assert!(
            err.contains(expected),
            "unexpected error for {value:?}: {err}"
        );
    }
}

#[test]
fn exclude_dir_errors_quote_the_value() {
    assert_eq!(
        build_exclude_dir_rules(&["".into()]).unwrap_err(),
        "invalid exclude-dir value \"\": value cannot be empty"
    );
    assert_eq!(
        build_exclude_dir_rules(&["ok".into(), "..".into()]).unwrap_err(),
        "invalid exclude-dir value \"..\": '..' is not allowed"
    );
    assert_eq!(
        build_exclude_dir_rules(&["a\\..\\b".into()]).unwrap_err(),
        "invalid exclude-dir value \"a\\\\..\\\\b\": '..' segments are not allowed"
    );
    assert_eq!(
        build_exclude_dir_rules(&["//".into()]).unwrap_err(),
        "invalid exclude-dir value \"//\": absolute paths are not allowed"
    );
    assert_eq!(
        exclude_dir_error(ExcludeDirProblem::Dot, "."),
        "invalid exclude-dir value \".\": '.' is not allowed"
    );
}

#[test]
fn exclude_dir_values_are_read_as_names_or_paths() {
    match parse_exclude_dir_rule("target").unwrap() {
        ExcludeDirRule::Basename(n) => assert_eq!(n, "target"),
        _ => panic!("expected a basename"),
    }
    match parse_exclude_dir_rule("a//b/").unwrap() {
        ExcludeDirRule::ExactPath(p) => assert_eq!(p, "a/b"),
        _ => panic!("expected a path"),
    }
    match parse_exclude_dir_rule("win\\dir").unwrap() {
        ExcludeDirRule::ExactPath(p) => assert_eq!(p, "win/dir"),
        _ => panic!("expected a path"),
    }
    assert!(matches!(parse_exclude_dir_rule("/x"), Err(ExcludeDirProblem::Absolute)));
    assert!(matches!(parse_exclude_dir_rule("a/./b"), Err(ExcludeDirProblem::DotSegment)));
    assert!(matches!(parse_exclude_dir_rule("."), Err(ExcludeDirProblem::Dot)));
}

#[test]
fn exact_rules_match_normalised_walk_paths() {
    let rules = build_exclude_dir_rules(&["dir//sub/".into()]).unwrap();
    assert!(rules.matches_dir("dir/sub"));
    assert!(rules.matches_dir("./dir/sub"));
    assert!(rules.matches_dir("dir/sub/"));
    assert!(!rules.matches_dir("dir"));
    assert!(!rules.matches_dir("x/dir/sub"));
    assert!(!rules.matches_dir("sub"));
}

#[test]
fn basename_rules_match_anywhere() {
    let mut rules = ExcludeDirRules::new();
    rules.extend_basenames(vec!["build".to_string()]);
    assert!(rules.matches_dir("build"));
    assert!(rules.matches_dir("a/b/build"));
    assert!(!rules.matches_dir("a/builder"));
    let none = ExcludeDirRules::default();
    assert!(!none.matches_dir("build"));
}

#[test]
fn default_excludes_are_the_usual_tool_directories() {
    let d = default_excludes();
    assert_eq!(
        d,
        vec![".git", ".hg", ".svn", ".idea", ".vscode", "node_modules", "__pycache__", ".venv"]
    );
}

#[test]
fn include_and_exclude() {
    let files = vec![fi("a.rs", 1), fi("b.go", 1), fi("README.md", 1)];
    let cfg = Config {
        include_exts: vec!["rs".into(), "md".into()],
        exclude_globs: vec!["README.*".into()],
        ..Default::default()
    };
    let out = filter_files(&files, &cfg).unwrap();
    assert_eq!(out.len(), 1);
    assert_eq!(out[0].path, "a.rs");
}

#[test]
fn max_size_and_max_files() {
    let files = vec![fi("a.rs", 5), fi("b.rs", 50), fi("c.rs", 5)];
    let cfg = Config {
        max_size_bytes: Some(20),
        max_files: Some(1),
        ..Default::default()
    };
    let out = filter_files(&files, &cfg).unwrap();
    assert_eq!(out.len(), 1);
    assert_eq!(out[0].path, "a.rs");
}

#[test]
fn filter_output_is_sorted_by_path() {
    let files = vec![fi("b/z.rs", 1), fi("a.rs", 1), fi("B.rs", 1), fi("b/a.rs", 1)];
    let out = filter_files(&files, &Config::default()).unwrap();
    let paths: Vec<&str> = out.iter().map(|f| f.path.as_str()).collect();
    assert_eq!(paths, vec!["B.rs", "a.rs", "b/a.rs", "b/z.rs"]);
}

#[test]
fn extension_filters_ignore_case_and_blanks() {
    let files = vec![fi("A.RS", 1), fi("b.go", 1), fi("c", 1)];
    let cfg = Config {
        include_exts: vec![" Rs ".into(), "".into()],
        ..Default::default()
    };
    let out = filter_files(&files, &cfg).unwrap();
    assert_eq!(out.len(), 1);
    assert_eq!(out[0].path, "A.RS");
    let cfg = Config {
        exclude_exts: vec!["GO".into()],
        ..Default::default()
    };
    let out = filter_files(&files, &cfg).unwrap();
    let paths: Vec<&str> = out.iter().map(|f| f.path.as_str()).collect();
    assert_eq!(paths, vec!["A.RS", "c"]);
    assert_eq!(to_lower_set(&vec![" A ".into(), "".into(), "b".into()]), vec!["a", "b"]);
}

#[test]
fn include_globs_match_basenames() {
    let files = vec![fi("src/main.rs", 1), fi("src/lib.rs", 1), fi("main.go", 1)];
    let cfg = Config {
        include_globs: vec!["main.*".into()],
        ..Default::default()
    };
    let out = filter_files(&files, &cfg).unwrap();
    let paths: Vec<&str> = out.iter().map(|f| f.path.as_str()).collect();
    assert_eq!(paths, vec!["main.go", "src/main.rs"]);
    assert_eq!(base_and_ext("src/Main.RS"), ("Main.RS".to_string(), "rs".to_string()));
}

#[test]
fn invalid_glob_is_reported() {
    let cfg = Config {
        include_globs: vec!["a[".into()],
        ..Default::default()
    };
    let err = filter_files(&[fi("a.rs", 1)], &cfg).unwrap_err();
    assert!(err.starts_with("invalid glob \"a[\": "));
    assert!(build_globset(&vec![]).unwrap().is_none());
    assert!(build_globset(&vec!["*.rs".to_string()]).unwrap().is_some());
}

#[test]
fn sorting_files_is_stable_by_path() {
    let files = vec![fi("b", 1), fi("a", 2), fi("b", 3), fi("a", 4)];
    let out = sort_files_by_path(files);
    let sizes: Vec<u64> = out.iter().map(|f| f.size).collect();
    assert_eq!(sizes, vec![2, 4, 1, 3]);
}

#[test]
fn maps_known_extensions() {
    assert_eq!(language_for_path("main.rs"), "rust");
    assert_eq!(language_for_path("script.py"), "python");
    assert_eq!(language_for_path("file.unknown"), "text");
}

#[test]
fn maps_extensions_case_insensitively() {
    assert_eq!(language_for_path("A.CPP"), "cpp");
    assert_eq!(language_for_path("x.yml"), "yaml");
    assert_eq!(language_for_path("Makefile"), "text");
    assert_eq!(language_for_path(".bashrc"), "text");
    assert_eq!(language_for_path("run.sh"), "bash");
}

#[test]
fn detects_text_and_binary() {
    assert_eq!(classify_path("a.txt", Some(b"hello world\n".as_slice())), FileKind::Text);
    assert_eq!(classify_path("b.bin", Some([0u8, 1, 2, 3].as_slice())), FileKind::Binary);
}

#[test]
fn classification_edges() {
    assert_eq!(classify_path("photo.PNG", Some(b"plain".as_slice())), FileKind::Binary);
    assert!(has_binary_extension("x.tar"));
    assert!(!has_binary_extension("x.txt"));
    assert_eq!(classify_path("a.txt", None), FileKind::Binary);
    assert_eq!(classify_content(b""), FileKind::Text);
    assert_eq!(classify_content(&[0x80, 0x81, b'a', b'b']), FileKind::Binary);
    assert_eq!(classify_content(&[0x80, b'a', b'b', b'c']), FileKind::Text);
    let mut long = vec![b'a'; 4096];
    long.push(0);
    assert_eq!(classify_content(&long), FileKind::Text);
}

#[test]
fn renders_tree_with_pruning() {
    let child = leaf("file.txt", "file.txt");
    let root = dir("root", ".", vec![child]);
    let allowed: Vec<String> = vec!["file.txt".into()];
    let out = render_tree(&root, ".", &Config::default(), &Palette::new(false), Some(&allowed));
    assert!(out.contains("root/"));
    assert!(out.contains("file.txt"));
}

#[test]
fn renders_tree_connectors() {
    let root = dir(
        "proj",
        ".",
        vec![
            dir("a", "a", vec![leaf("x", "a/x"), leaf("y", "a/y")]),
            leaf("b", "b"),
        ],
    );
    let out = render_tree(&root, "/p/proj", &Config::default(), &Palette::new(false), None);
    assert_eq!(out, "proj/\n├── a/\n│   ├── x\n│   └── y\n└── b\n");
    let allowed: Vec<String> = vec!["b".into()];
    let pruned = render_tree(&root, "/p/proj", &Config::default(), &Palette::new(false), Some(&allowed));
    assert_eq!(pruned, "proj/\n└── b\n");
}

#[test]
fn colored_tree_uses_anstyle_codes() {
    let root = dir("r", ".", vec![dir("d", "d", vec![]), leaf("f", "f")]);
    let out = render_tree(&root, "/r", &Config::default(), &Palette::new(true), None);
    assert_eq!(
        out,
        "\u{1b}[1m\u{1b}[36mr\u{1b}[0m/\n├── \u{1b}[1m\u{1b}[36md/\u{1b}[0m\n└── f\u{1b}[0m\n"
    );
    let p = Palette::new(true);
    assert_eq!(p.stub("s"), "\u{1b}[33ms\u{1b}[0m");
    assert_eq!(p.file("f"), "f\u{1b}[0m");
    assert_eq!(p.header("h"), "\u{1b}[1m\u{1b}[36mh\u{1b}[0m");
}

#[test]
fn filtering_tree_twice_changes_nothing() {
    let children = vec![
        dir("a", "a", vec![leaf("x", "a/x"), dir("e", "a/e", vec![])]),
        leaf("b", "b"),
        dir("c", "c", vec![leaf("z", "c/z")]),
    ];
    let allowed: Vec<String> = vec!["a/x".into(), "b".into()];
    let once = filter_tree_children(&children, &allowed);
    let twice = filter_tree_children(&once, &allowed);
    assert_eq!(once.len(), 2);
    assert_eq!(once[0].name, "a");
    assert_eq!(once[0].children.len(), 1);
    assert_eq!(once[1].name, "b");
    assert_eq!(twice.len(), once.len());
    assert_eq!(format!("{:?}", twice), format!("{:?}", once));
}

#[test]
fn renders_contents_text_and_binary() {
    let files = vec![fi("main.rs", 12), fi("bin.dat", 3)];
    let contents = vec![Some(b"fn main() {}\n".to_vec()), Some(vec![0u8, 1, 2])];
    let cfg = Config {
        root_path: "/tmp/x".to_string(),
        ..Default::default()
    };
    let out = render_contents(&files, &contents, &cfg, "/tmp/x", &Palette::new(false));
    assert!(out.contains("```rust"));
    assert!(out.contains("fn main()"));
    assert!(out.contains("(skipped: binary/non-text file"));
    assert!(out.contains("size: 3 B"));
    assert_eq!(
        out,
        "# main.rs\n```rust\nfn main() {}\n```\n\n# bin.dat\n(skipped: binary/non-text file, size: 3 B)\n"
    );
}

#[test]
fn unreadable_or_invalid_content() {
    let files = vec![fi("a.txt", 2048), fi("b.txt", 3)];
    let contents = vec![None, Some(b"hello\xffworld".to_vec())];
    let cfg = Config {
        absolute_paths: true,
        ..Default::default()
    };
    let out = render_contents(&files, &contents, &cfg, "/r", &Palette::new(false));
    assert_eq!(
        out,
        "# /r/a.txt\n(skipped: binary/non-text file, size: 2.0 KB)\n\n# /r/b.txt\n```text\nhello\u{fffd}world\n```\n"
    );
}

fn float_format(bytes: u64) -> String {
    let units = ["B", "KB", "MB", "GB", "TB"];
    if bytes < 1024 {
        return format!("{} B", bytes);
    }
    let mut size = bytes as f64;
    let mut unit = 0;
    while size >= 1024.0 && unit < units.len() - 1 {
        size /= 1024.0;
        unit += 1;
    }
    format!("{:.1} {}", size, units[unit])
}

#[test]
fn formats_binary_sizes_human_readable() {
    assert_eq!(format_size(7), "7 B");
    assert_eq!(format_size(24_678), "24.1 KB");
    assert_eq!(format_size(1_048_576), "1.0 MB");
}

#[test]
fn format_size_matches_float_formatting() {
    let mut values: Vec<u64> = vec![
        0, 1, 1023, 1024, 1025, 1075, 1076, 1126, 1127, 10_188, 10_189, 24_678, 1_048_575,
        1_048_576, 1_073_741_823, 1_073_741_824, 1_099_511_627_775, 1_099_511_627_776,
        1_125_899_906_842_624, 9_007_199_254_740_993, u64::MAX, u64::MAX - 1, 1 << 63,
    ];
    let mut x: u64 = 0x9e37_79b9_7f4a_7c15;
    for _ in 0..2000 {
        x ^= x << 13;
        x ^= x >> 7;
        x ^= x << 17;
        values.push(x >> (x % 64));
    }
    for k in 1..5u32 {
        let unit = 1u64 << (10 * k);
        for t in 0..200u64 {
            let v = unit + unit / 20 * t / 10;
            values.push(v);
            values.push(v.saturating_sub(1));
            values.push(v + 1);
        }
    }
    for v in values {
        assert_eq!(format_size(v), float_format(v), "size {}", v);
    }
}

#[test]
fn nul_byte_within_sniffed_head_is_binary() {
    let mut head = vec![b'a'; 4095];
    head.push(0);
    assert_eq!(classify_path("x.txt", Some(head.as_slice())), FileKind::Binary);
    let mut late = vec![b'a'; 5000];
    late[4500] = 0;
    assert_eq!(classify_path("x.txt", Some(late.as_slice())), FileKind::Text);
    assert_eq!(classify_path("empty.txt", Some(b"".as_slice())), FileKind::Text);
    assert_eq!(classify_path("empty.zip", Some(b"".as_slice())), FileKind::Binary);
}

#[test]
fn closing_fence_stands_on_its_own_line() {
    let files = vec![fi("a.txt", 3), fi("e.txt", 0), fi("n.txt", 2)];
    let contents = vec![Some(b"abc".to_vec()), Some(vec![]), Some(b"x\n".to_vec())];
    let out = render_contents(&files, &contents, &Config::default(), "/r", &Palette::new(false));
    assert_eq!(
        out,
        "# a.txt\n```text\nabc\n```\n\n# e.txt\n```text\n```\n\n# n.txt\n```text\nx\n```\n"
    );
}

#[test]
fn filtering_files_twice_changes_nothing() {
    let files = vec![fi("b.rs", 5), fi("a.rs", 1), fi("c.md", 1), fi("d.rs", 99)];
    let cfg = Config {
        include_exts: vec!["rs".into()],
        max_size_bytes: Some(10),
        max_files: Some(5),
        ..Default::default()
    };
    let once = filter_files(&files, &cfg).unwrap();
    let twice = filter_files(&once, &cfg).unwrap();
    assert_eq!(format!("{:?}", once), format!("{:?}", twice));
    assert_eq!(once.len(), 2);
}

#[test]
fn rules_do_not_depend_on_order() {
    let a = build_exclude_dir_rules(&["x".into(), "p/q".into(), "x".into()]).unwrap();
    let b = build_exclude_dir_rules(&["p\\q".into(), "x".into()]).unwrap();
    for p in ["x", "a/x", "p/q", "p", "q", "p/q/r"] {
        assert_eq!(a.matches_dir(p), b.matches_dir(p), "{p}");
    }
    assert!(build_exclude_dir_rules(&["x".into(), "..".into()]).is_err());
    assert!(build_exclude_dir_rules(&["..".into(), "x".into()]).is_err());
}

#[test]
fn excluded_directories_by_name_or_exact_path() {
    let rules = build_exclude_dir_rules(&["build".into(), "src/gen".into()]).unwrap();
    assert!(rules.matches_dir("build"));
    assert!(rules.matches_dir("deep/down/build"));
    assert!(rules.matches_dir("src/gen"));
    assert!(rules.matches_dir("./src//gen/"));
    assert!(!rules.matches_dir("other/src/gen"));
    assert!(!rules.matches_dir("gen"));
    assert!(!rules.matches_dir("src/../src/gen"));
}

#[test]
fn normalised_exact_path_is_stable() {
    match parse_exclude_dir_rule("a\\b//c/").unwrap() {
        ExcludeDirRule::ExactPath(p) => {
            assert_eq!(p, "a/b/c");
            match parse_exclude_dir_rule(&p).unwrap() {
                ExcludeDirRule::ExactPath(q) => assert_eq!(q, p),
                _ => panic!("expected a path"),
            }
        }
        _ => panic!("expected a path"),
    }
}

#[test]
fn tree_has_one_line_per_entry() {
    let root = dir(
        "proj",
        ".",
        vec![
            dir("a", "a", vec![leaf("x", "a/x"), dir("e", "a/e", vec![])]),
            leaf("b", "b"),
        ],
    );
    let out = render_tree(&root, "/p", &Config::default(), &Palette::new(true), None);
    assert_eq!(out.matches('\n').count(), 1 + 4);
    let allowed: Vec<String> = vec!["a/x".into()];
    let out = render_tree(&root, "/p", &Config::default(), &Palette::new(false), Some(&allowed));
    assert_eq!(out, "proj/\n└── a/\n    └── x\n");
}

#[test]
fn normalize_exact_dir_path_shapes_and_is_stable() {
    let s = normalize_exact_dir_path("a\\b//c/").unwrap();
    assert_eq!(s, "a/b/c");
    assert_eq!(normalize_exact_dir_path(&s).unwrap(), s);
    assert_eq!(
        normalize_exact_dir_path("/x").unwrap_err(),
        "invalid exclude-dir value \"/x\": absolute paths are not allowed"
    );
    assert_eq!(
        normalize_exact_dir_path("a/./b").unwrap_err(),
        "invalid exclude-dir value \"a/./b\": '.' segments are not allowed"
    );
}

#[test]
fn relative_tree_ignores_root_path_text() {
    let root = dir("proj", ".", vec![leaf("b", "b")]);
    let out = render_tree(&root, "/odd\npath", &Config::default(), &Palette::new(false), None);
    assert_eq!(out, "proj/\n└── b\n");
    assert_eq!(out.matches('\n').count(), 2);
}
