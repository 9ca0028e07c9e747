use treecat::assemble::{collect_walk, walk_exclude_rules, WalkEntry};
use treecat::config::{ColorMode, Config};
use treecat::render::Palette;
use treecat::run::{
    clipboard_warning, collect_run_data, color_enabled, copy_outcome, explicit_abs_path,
    explicit_file_info, render_output, run_plan, select_files, ExplicitLookup, RunData,
};
use treecat::settings::{check_cli_flags, finish_config, CliArgs, FileConfig};
use treecat::size::parse_size_arg;

const ROOT: &str = "/work/basic";

fn entry(path: &str, is_dir: bool, size: u64) -> WalkEntry {
    let name = path.rsplit('/').next().unwrap().to_string();
    let depth = path.split('/').count();
    WalkEntry {
        path: path.to_string(),
        name,
        is_dir,
        is_symlink: false,
        depth,
        size,
    }
}

fn fixture() -> Vec<(WalkEntry, Option<&'static [u8]>)> {
    vec![
        (entry("root.txt", false, 10), Some(b"root file\n".as_slice())),
        (entry("sub", true, 0), None),
        (entry("sub/nested.txt", false, 7), Some(b"nested\n".as_slice())),
    ]
}

fn cli(root: &str) -> CliArgs {
    CliArgs {
        root: root.to_string(),
        root_from_command_line: true,
        files: vec![],
        config: None,
        no_config: false,
        tree_only: false,
        files_only: false,
        include_glob: vec![],
        include_ext: vec![],
        exclude_glob: vec![],
        exclude_ext: vec![],
        exclude_dir: vec![],
        max_size: None,
        max_files: None,
        max_depth: None,
        follow_symlinks: false,
        relative: false,
        absolute: false,
        color: ColorMode::Auto,
        color_from_command_line: false,
        copy: false,
    }
}

fn lookup(files: &[(WalkEntry, Option<&'static [u8]>)], abs: &str) -> ExplicitLookup {
    for (e, _) in files {
        if format!("{}/{}", ROOT, e.path) == abs {
            return ExplicitLookup::Found { is_dir: e.is_dir, size: e.size };
        }
    }
    ExplicitLookup::NotFound
}

fn bytes_of(files: &[(WalkEntry, Option<&'static [u8]>)], path: &str) -> Option<Vec<u8>> {
    for (e, b) in files {
        if e.path == path {
            return b.map(|x| x.to_vec());
        }
    }
    None
}

fn gather(cfg: &Config, files: &[(WalkEntry, Option<&'static [u8]>)]) -> Result<RunData, String> {
    let rules = walk_exclude_rules(&cfg.exclude_dirs)?;
    let entries: Vec<WalkEntry> = files.iter().map(|(e, _)| e.clone()).collect();
    let (tree, walked) = collect_walk("basic", &entries, cfg.max_depth, &rules);
    let mut explicit = Vec::new();
    for p in &cfg.explicit_files {
        let abs = explicit_abs_path(ROOT, p);
        let found = lookup(files, &abs);
        explicit.push(explicit_file_info(p, ROOT, found).map_err(|e| e.message())?);
    }
    let (content_files, tree_allowed_files) =
        select_files(cfg, &walked, &explicit).map_err(|e| e.message())?;
    let contents = content_files.iter().map(|f| bytes_of(files, &f.path)).collect();
    Ok(RunData {
        tree,
        content_files,
        contents,
        tree_allowed_files,
        root_abs: ROOT.to_string(),
    })
}

fn run_with(args: &CliArgs, file_cfg: Option<FileConfig>, terminal: bool) -> Result<String, String> {
    check_cli_flags(args)?;
    let cfg = finish_config(args, file_cfg)?;
    let data = gather(&cfg, &fixture())?;
    let palette = Palette::new(color_enabled(cfg.color_mode, false, terminal));
    Ok(render_output(&data, &cfg, &palette))
}

fn has_ansi(s: &str) -> bool {
    s.contains("\u{1b}[")
}

#[test]
fn renders_tree_and_contents() {
    let out = run_with(&cli(ROOT), None, false).unwrap();
    assert!(out.contains("root.txt"));
    assert!(out.contains("sub/"));
    assert!(out.contains("sub/nested.txt"));
    assert!(out.contains("# root.txt"));
    assert!(out.contains("# sub/nested.txt"));
    assert!(out.contains("root file"));
    assert!(out.contains("nested"));
}

#[test]
fn renders_whole_output_exactly() {
    let out = run_with(&cli(ROOT), None, false).unwrap();
    let expected = "basic/\n├── root.txt\n└── sub/\n    └── nested.txt\n\n# root.txt\n```text\nroot file\n```\n\n# sub/nested.txt\n```text\nnested\n```\n";
    assert_eq!(out, expected);
}

#[test]
fn explicit_files_bypass_includes() {
    let mut args = cli(ROOT);
    args.files = vec!["root.txt".to_string()];
    args.include_ext = vec!["md".to_string()];
    args.files_only = true;
    let out = run_with(&args, None, false).unwrap();
    assert!(out.contains("# root.txt"));
    assert!(out.contains("root file"));
}

#[test]
fn missing_explicit_file_has_clear_error() {
    let mut args = cli(ROOT);
    args.files = vec!["missing.txt".to_string()];
    let err = run_with(&args, None, false).unwrap_err();
    assert!(err.contains("explicit file not found"));
    assert!(err.contains("missing.txt"));
    assert_eq!(err, "explicit file not found: missing.txt (looked for /work/basic/missing.txt)");
}

#[test]
fn explicit_directory_is_refused() {
    let mut args = cli(ROOT);
    args.files = vec!["sub".to_string()];
    let err = run_with(&args, None, false).unwrap_err();
    assert_eq!(err, "explicit path is a directory (expected file): sub (/work/basic/sub)");
}

#[test]
fn explicit_lookup_failure_is_reported() {
    let r = explicit_file_info("a.txt", ROOT, ExplicitLookup::Failed("permission denied".to_string()));
    let err = r.unwrap_err().message();
    assert_eq!(err, "failed to read explicit file a.txt (/work/basic/a.txt): permission denied");
}

#[test]
fn explicit_paths_are_made_relative_to_root() {
    let f = explicit_file_info("sub/nested.txt", ROOT, ExplicitLookup::Found { is_dir: false, size: 7 }).unwrap();
    assert_eq!(f.path, "sub/nested.txt");
    assert_eq!(f.size, 7);
    assert!(!f.is_symlink);
    let g = explicit_file_info("/elsewhere/x.txt", ROOT, ExplicitLookup::Found { is_dir: false, size: 1 }).unwrap();
    assert_eq!(g.path, "/elsewhere/x.txt");
    let h = explicit_file_info("/work/basic/root.txt", ROOT, ExplicitLookup::Found { is_dir: false, size: 1 }).unwrap();
    assert_eq!(h.path, "root.txt");
    assert_eq!(explicit_abs_path(ROOT, "a/b.txt"), "/work/basic/a/b.txt");
    assert_eq!(explicit_abs_path("/r/", "x"), "/r/x");
    assert_eq!(explicit_abs_path(ROOT, "/abs/x"), "/abs/x");
}

#[test]
fn color_always_includes_ansi_even_when_piped() {
    let mut args = cli(ROOT);
    args.files_only = true;
    args.color = ColorMode::Always;
    args.color_from_command_line = true;
    let out = run_with(&args, None, false).unwrap();
    assert!(has_ansi(&out));
}

#[test]
fn color_never_suppresses_ansi() {
    let mut args = cli(ROOT);
    args.files_only = true;
    args.color = ColorMode::Never;
    args.color_from_command_line = true;
    let out = run_with(&args, None, true).unwrap();
    assert!(!has_ansi(&out));
}

#[test]
fn color_auto_follows_terminal_and_no_color() {
    assert!(color_enabled(ColorMode::Auto, false, true));
    assert!(!color_enabled(ColorMode::Auto, true, true));
    assert!(!color_enabled(ColorMode::Auto, false, false));
    assert!(color_enabled(ColorMode::Always, true, false));
    assert!(!color_enabled(ColorMode::Never, false, true));
}

#[test]
fn clipboard_failure_warns_but_output_succeeds() {
    let mut args = cli(ROOT);
    args.files_only = true;
    args.copy = true;
    let cfg = finish_config(&args, None).unwrap();
    let data = gather(&cfg, &fixture()).unwrap();
    let (out, clip) = run_plan(&data, &cfg, true);
    assert!(out.contains("# "));
    assert!(out.contains("root.txt"));
    assert!(clip.is_some());
    let failing_copy: Result<(), String> = Err("clipboard unavailable".to_string());
    let warning = copy_outcome(failing_copy).unwrap();
    assert!(warning.contains("warning: failed to copy output to clipboard"));
    assert_eq!(warning, "warning: failed to copy output to clipboard: clipboard unavailable");
    assert!(!out.contains("warning"));
    assert_eq!(copy_outcome(Ok(())), None);
    assert_eq!(clipboard_warning("x"), "warning: failed to copy output to clipboard: x");
}

#[test]
fn clipboard_text_has_no_ansi_sequences() {
    let mut args = cli(ROOT);
    args.files_only = true;
    args.copy = true;
    args.color = ColorMode::Always;
    args.color_from_command_line = true;
    let cfg = finish_config(&args, None).unwrap();
    let data = gather(&cfg, &fixture()).unwrap();
    let mut copied = String::new();
    let (terminal_output, clip) =
        run_plan(&data, &cfg, color_enabled(cfg.color_mode, false, false));
    if let Some(text) = clip {
        let mut recorder = |t: &str| -> Result<(), String> {
            copied = t.to_string();
            Ok(())
        };
        assert_eq!(copy_outcome(recorder(&text)), None);
    }
    assert!(terminal_output.contains("\u{1b}["));
    assert!(copied.contains("# root.txt"));
    assert!(copied.contains("root file"));
    assert!(!copied.contains("\u{1b}["));
}

#[test]
fn no_clipboard_text_without_copy() {
    let cfg = finish_config(&cli(ROOT), None).unwrap();
    let data = gather(&cfg, &fixture()).unwrap();
    let (out, clip) = run_plan(&data, &cfg, false);
    assert!(clip.is_none());
    assert_eq!(out, render_output(&data, &cfg, &Palette::new(false)));
}

#[test]
fn run_data_keeps_the_walked_tree_with_explicit_files() {
    let mut args = cli(ROOT);
    args.files = vec!["root.txt".to_string()];
    args.max_files = Some(3);
    let cfg = finish_config(&args, None).unwrap();
    let rules = walk_exclude_rules(&cfg.exclude_dirs).unwrap();
    let entries: Vec<WalkEntry> = fixture().iter().map(|(e, _)| e.clone()).collect();
    let (tree, walked) = collect_walk("basic", &entries, cfg.max_depth, &rules);
    let tree_text = format!("{:?}", tree);
    let explicit = vec![explicit_file_info("root.txt", ROOT, ExplicitLookup::Found { is_dir: false, size: 10 }).unwrap()];
    let data = collect_run_data(&cfg, tree, &walked, &explicit, ROOT.to_string()).unwrap();
    assert_eq!(format!("{:?}", data.tree), tree_text);
    assert_eq!(data.content_files.len(), 1);
    assert_eq!(data.content_files[0].path, "root.txt");
    assert!(data.tree_allowed_files.is_none());
    assert!(data.contents.is_empty());
    assert_eq!(data.root_abs, ROOT);
}

#[test]
fn cli_root_overrides_config_root() {
    let file_cfg = FileConfig {
        root_path: Some("/from/config".to_string()),
        files_only: Some(true),
        ..Default::default()
    };
    let cfg = finish_config(&cli("/from/cli"), Some(file_cfg.clone())).unwrap();
    assert_eq!(cfg.root_path, "/from/cli");
    assert!(cfg.files_only);
    let mut not_given = cli(".");
    not_given.root_from_command_line = false;
    let cfg2 = finish_config(&not_given, Some(file_cfg)).unwrap();
    assert_eq!(cfg2.root_path, "/from/config");
}

#[test]
fn tree_respects_include_filters() {
    let mut args = cli(ROOT);
    args.tree_only = true;
    args.include_glob = vec!["root.*".to_string()];
    let out = run_with(&args, None, false).unwrap();
    assert!(out.contains("root.txt"));
    assert!(!out.contains("nested.txt"));
    assert!(!out.contains("sub/"));
}

#[test]
fn tree_respects_exclude_filters() {
    let mut args = cli(ROOT);
    args.tree_only = true;
    args.exclude_glob = vec!["nested.*".to_string()];
    let out = run_with(&args, None, false).unwrap();
    assert!(out.contains("root.txt"));
    assert!(!out.contains("nested.txt"));
}

#[test]
fn max_size_accepts_suffixes() {
    let mut args = cli(ROOT);
    args.files_only = true;
    args.max_size = Some(parse_size_arg("8").unwrap());
    let out = run_with(&args, None, false).unwrap();
    assert!(out.contains("# sub/nested.txt"));
    assert!(!out.contains("# root.txt"));
    assert_eq!(parse_size_arg("2K").unwrap(), 2048);
}

#[test]
fn invalid_max_size_suffix_fails() {
    let err = parse_size_arg("10Q").unwrap_err();
    assert!(err.contains("unsupported size suffix"));
    assert_eq!(err, "unsupported size suffix \"q\"; use B, K, M, G, or T");
}

#[test]
fn tree_without_file_filters_keeps_empty_directories() {
    let mut files = fixture();
    files.push((entry("empty", true, 0), None));
    let mut args = cli(ROOT);
    args.tree_only = true;
    let cfg = finish_config(&args, None).unwrap();
    let data = gather(&cfg, &files).unwrap();
    let out = render_output(&data, &cfg, &Palette::new(false));
    assert!(out.contains("empty/"));
}

#[test]
fn file_filters_drop_empty_directories_from_tree() {
    let mut files = fixture();
    files.push((entry("empty", true, 0), None));
    let mut args = cli(ROOT);
    args.tree_only = true;
    args.include_ext = vec!["txt".to_string()];
    let cfg = finish_config(&args, None).unwrap();
    let data = gather(&cfg, &files).unwrap();
    let out = render_output(&data, &cfg, &Palette::new(false));
    assert!(!out.contains("empty/"));
    assert!(out.contains("sub/"));
}

#[test]
fn conflicting_flags_are_refused() {
    let mut args = cli(ROOT);
    args.tree_only = true;
    args.files_only = true;
    assert_eq!(run_with(&args, None, false).unwrap_err(), "cannot use --tree-only and --files-only together");
    let mut args = cli(ROOT);
    args.relative = true;
    args.absolute = true;
    assert_eq!(run_with(&args, None, false).unwrap_err(), "cannot use --relative and --absolute together");
}

#[test]
fn absolute_mode_shows_absolute_paths() {
    let mut args = cli(ROOT);
    args.absolute = true;
    let out = run_with(&args, None, false).unwrap();
    assert!(out.starts_with("/work/basic/\n"));
    assert!(out.contains("└── /work/basic/sub/\n"));
    assert!(out.contains("# /work/basic/root.txt\n"));
}

#[test]
fn max_files_limits_content_not_tree() {
    let mut args = cli(ROOT);
    args.max_files = Some(1);
    args.include_ext = vec!["txt".to_string()];
    let out = run_with(&args, None, false).unwrap();
    assert!(out.contains("# root.txt"));
    assert!(!out.contains("# sub/nested.txt"));
    assert!(out.contains("    └── nested.txt"));
}

#[test]
fn content_files_are_shown_in_tree() {
    let mut args = cli(ROOT);
    args.exclude_glob = vec!["root.*".to_string()];
    args.max_size = Some(100);
    let cfg = finish_config(&args, None).unwrap();
    let data = gather(&cfg, &fixture()).unwrap();
    let allowed = data.tree_allowed_files.clone().unwrap();
    assert_eq!(allowed, vec!["sub/nested.txt".to_string()]);
    assert_eq!(data.content_files.len(), 1);
    for f in &data.content_files {
        assert!(allowed.contains(&f.path));
    }
}
