use treecat::config::{ColorMode, Config};
use treecat::settings::{
    apply_cli_overrides, apply_file_config, built_in_defaults, default_config_path, finish_config,
    missing_config_error, normalize_and_validate_config, resolve_config_path, split_multi, CliArgs,
    ConfigEnv, FileConfig,
};
use treecat::size::parse_size_arg;

fn cli() -> CliArgs {
    CliArgs {
        root: ".".to_string(),
        root_from_command_line: false,
        files: vec![],
        config: None,
        no_config: false,
        tree_only: false,
        files_only: false,
        include_glob: vec![],
        include_ext: vec![],
        exclude_glob: vec![],
        exclude_ext: vec![],
        exclude_dir: vec![],
        max_size: None,
        max_files: None,
        max_depth: None,
        follow_symlinks: false,
        relative: false,
        absolute: false,
        color: ColorMode::Auto,
        color_from_command_line: false,
        copy: false,
    }
}

fn env(cfg: Option<&str>, xdg: Option<&str>, home: Option<&str>) -> ConfigEnv {
    ConfigEnv {
        treecat_config: cfg.map(|s| s.to_string()),
        xdg_config_home: xdg.map(|s| s.to_string()),
        home: home.map(|s| s.to_string()),
    }
}

#[test]
fn splits_comma_lists() {
    let out = split_multi(&vec!["rs, md".to_string(), ",,go ,".to_string(), " ".to_string()]);
    assert_eq!(out, vec!["rs", "md", "go"]);
}

#[test]
fn built_in_defaults_are_relative_and_auto() {
    let d = built_in_defaults();
    assert_eq!(d.root_path, ".");
    assert!(!d.relative_paths && !d.absolute_paths);
    let cfg = finish_config(&cli(), None).unwrap();
    assert!(cfg.relative_paths && !cfg.absolute_paths);
    assert_eq!(d.color_mode, ColorMode::Auto);
    assert!(d.exclude_dirs.is_empty() && d.max_files.is_none());
}

#[test]
fn file_config_sets_what_it_names() {
    let mut cfg = built_in_defaults();
    let f = FileConfig {
        include_exts: Some(vec!["rs,md".to_string()]),
        max_size_bytes: Some(100),
        color_mode: Some(ColorMode::Never),
        absolute_paths: Some(true),
        ..Default::default()
    };
    apply_file_config(&mut cfg, f);
    assert_eq!(cfg.include_exts, vec!["rs", "md"]);
    assert_eq!(cfg.max_size_bytes, Some(100));
    assert_eq!(cfg.color_mode, ColorMode::Never);
    assert!(cfg.absolute_paths && !cfg.relative_paths);
    assert_eq!(cfg.root_path, ".");
}

#[test]
fn cli_overrides_switch_modes() {
    let mut cfg = Config {
        relative_paths: true,
        include_globs: vec!["a".to_string()],
        ..Default::default()
    };
    let mut c = cli();
    c.absolute = true;
    c.exclude_ext = vec!["A, b".to_string()];
    c.max_depth = Some(2);
    c.copy = true;
    apply_cli_overrides(&mut cfg, &c);
    assert!(cfg.absolute_paths && !cfg.relative_paths);
    assert_eq!(cfg.include_globs, vec!["a"]);
    assert_eq!(cfg.exclude_exts, vec!["A", "b"]);
    assert_eq!(cfg.max_depth, Some(2));
    assert!(cfg.copy_to_clipboard);
    assert_eq!(cfg.root_path, "");
}

#[test]
fn validation_errors_and_settling() {
    let mut cfg = Config {
        tree_only: true,
        files_only: true,
        ..Default::default()
    };
    assert_eq!(
        normalize_and_validate_config(&mut cfg).unwrap_err(),
        "cannot use --tree-only and --files-only together"
    );
    let mut cfg = Config {
        relative_paths: true,
        absolute_paths: true,
        ..Default::default()
    };
    assert_eq!(
        normalize_and_validate_config(&mut cfg).unwrap_err(),
        "cannot use both relative_paths and absolute_paths in config"
    );
    let mut cfg = Config {
        exclude_dirs: vec!["/abs".to_string()],
        ..Default::default()
    };
    assert_eq!(
        normalize_and_validate_config(&mut cfg).unwrap_err(),
        "invalid exclude-dir value \"/abs\": absolute paths are not allowed"
    );
    let mut cfg = Config::default();
    assert!(!cfg.relative_paths);
    normalize_and_validate_config(&mut cfg).unwrap();
    assert!(cfg.relative_paths);
}

#[test]
fn config_precedence_cli_over_file_over_defaults() {
    let f = FileConfig {
        max_files: Some(5),
        max_depth: Some(3),
        tree_only: Some(true),
        ..Default::default()
    };
    let mut c = cli();
    c.max_files = Some(9);
    let cfg = finish_config(&c, Some(f)).unwrap();
    assert_eq!(cfg.max_files, Some(9));
    assert_eq!(cfg.max_depth, Some(3));
    assert!(cfg.tree_only);
    assert_eq!(cfg.max_size_bytes, None);
    assert_eq!(cfg.root_path, ".");
}

#[test]
fn loads_default_config_from_home_path() {
    let e = env(None, None, Some("/home/u"));
    let (path, required) = resolve_config_path(&cli(), &e).unwrap();
    assert_eq!(path, Some("/home/u/.config/treecat/config.toml".to_string()));
    assert!(!required);
    let f = FileConfig {
        root_path: Some("/data".to_string()),
        files_only: Some(true),
        ..Default::default()
    };
    let cfg = finish_config(&cli(), Some(f)).unwrap();
    assert!(cfg.files_only);
    assert_eq!(cfg.root_path, "/data");
}

#[test]
fn config_discovery_order() {
    assert_eq!(
        default_config_path(&env(None, Some("/x"), Some("/h"))),
        Some("/x/treecat/config.toml".to_string())
    );
    assert_eq!(
        default_config_path(&env(None, Some(""), Some("/h/"))),
        Some("/h/.config/treecat/config.toml".to_string())
    );
    assert_eq!(default_config_path(&env(None, None, Some(""))), None);
    let mut c = cli();
    c.config = Some("my.toml".to_string());
    assert_eq!(
        resolve_config_path(&c, &env(Some("env.toml"), None, None)).unwrap(),
        (Some("my.toml".to_string()), true)
    );
    assert_eq!(
        resolve_config_path(&cli(), &env(Some("env.toml"), None, None)).unwrap(),
        (Some("env.toml".to_string()), true)
    );
    assert_eq!(
        resolve_config_path(&cli(), &env(Some(""), None, None)).unwrap_err(),
        "TREECAT_CONFIG is set but empty"
    );
    assert_eq!(missing_config_error("c.toml"), "config file not found: c.toml");
}

#[test]
fn no_config_ignores_invalid_config_file() {
    let mut c = cli();
    c.no_config = true;
    c.files_only = true;
    let (path, required) =
        resolve_config_path(&c, &env(Some("bad.toml"), None, Some("/h"))).unwrap();
    assert_eq!(path, None);
    assert!(!required);
    let cfg = finish_config(&c, None).unwrap();
    assert!(cfg.files_only);
}

#[test]
fn parses_sizes_with_units() {
    assert_eq!(parse_size_arg("200K").unwrap(), 204_800);
    assert_eq!(parse_size_arg(" 10 mib ").unwrap(), 10_485_760);
    assert_eq!(parse_size_arg("3b").unwrap(), 3);
    assert_eq!(parse_size_arg("1T").unwrap(), 1_099_511_627_776);
    assert_eq!(parse_size_arg("12K").unwrap(), 12 * 1024);
    assert_eq!(parse_size_arg("18446744073709551615").unwrap(), u64::MAX);
}

#[test]
fn size_errors() {
    assert_eq!(parse_size_arg("  ").unwrap_err(), "size cannot be empty");
    assert_eq!(parse_size_arg("K").unwrap_err(), "size must start with digits");
    assert_eq!(
        parse_size_arg("99999999999999999999").unwrap_err(),
        "invalid size number \"99999999999999999999\": number too large to fit in target type"
    );
    assert_eq!(
        parse_size_arg("20000000T").unwrap_err(),
        "size \"20000000T\" is too large"
    );
    assert_eq!(
        parse_size_arg("5 X").unwrap_err(),
        "unsupported size suffix \"x\"; use B, K, M, G, or T"
    );
}

#[test]
fn config_absolute_paths_overrides_relative_default() {
    let f = FileConfig {
        absolute_paths: Some(true),
        ..Default::default()
    };
    let cfg = finish_config(&cli(), Some(f)).unwrap();
    assert!(cfg.absolute_paths && !cfg.relative_paths);
    let both = FileConfig {
        absolute_paths: Some(true),
        relative_paths: Some(true),
        ..Default::default()
    };
    assert_eq!(
        finish_config(&cli(), Some(both)).unwrap_err(),
        "cannot use both relative_paths and absolute_paths in config"
    );
    let mut c = cli();
    c.relative = true;
    let f = FileConfig {
        absolute_paths: Some(true),
        ..Default::default()
    };
    let cfg = finish_config(&c, Some(f)).unwrap();
    assert!(cfg.relative_paths && !cfg.absolute_paths);
}

#[test]
fn split_multi_works_value_by_value() {
    let a = vec!["rs, md".to_string()];
    let b = vec![" go ,,".to_string(), "x".to_string()];
    let mut ab = a.clone();
    ab.extend(b.clone());
    let mut expected = split_multi(&a);
    expected.extend(split_multi(&b));
    assert_eq!(split_multi(&ab), expected);
    assert_eq!(split_multi(&ab), vec!["rs", "md", "go", "x"]);
}

#[test]
fn file_config_leaves_unnamed_keys() {
    let mut cfg = Config {
        relative_paths: true,
        max_files: Some(4),
        ..Default::default()
    };
    let before = format!("{:?}", cfg);
    apply_file_config(&mut cfg, FileConfig::default());
    assert_eq!(format!("{:?}", cfg), before);
    apply_file_config(
        &mut cfg,
        FileConfig {
            absolute_paths: Some(true),
            ..Default::default()
        },
    );
    assert!(cfg.relative_paths && cfg.absolute_paths);
    assert_eq!(cfg.max_files, Some(4));
}
