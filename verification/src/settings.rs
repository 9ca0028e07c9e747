//! Building the run configuration from built-in defaults, a config file and
//! the command line.
use vstd::prelude::*;
use crate::text::{trim, chars_of, trim_chars, string_from_chars, lemma_trim_idempotent};
use crate::paths::{split, split_chars, path_join, path_join_chars, views};
use crate::config::{Config, ColorMode, strings_view, build_exclude_dir_rules, build_rules,
    exclude_dir_message, ExcludeDirProblem, problem_reason};
use crate::text::debug_quoted;
use crate::run::clone_strings;

verus! {

/// The values a config file may set; absent keys are `None`.
#[derive(Debug, Clone, Default)]
pub struct FileConfig {
    pub root_path: Option<String>,
    pub explicit_files: Option<Vec<String>>,
    pub tree_only: Option<bool>,
    pub files_only: Option<bool>,
    pub include_globs: Option<Vec<String>>,
    pub include_exts: Option<Vec<String>>,
    pub exclude_globs: Option<Vec<String>>,
    pub exclude_exts: Option<Vec<String>>,
    pub exclude_dirs: Option<Vec<String>>,
    pub max_size_bytes: Option<u64>,
    pub max_files: Option<usize>,
    pub max_depth: Option<usize>,
    pub follow_symlinks: Option<bool>,
    pub relative_paths: Option<bool>,
    pub absolute_paths: Option<bool>,
    pub color_mode: Option<ColorMode>,
    pub copy_to_clipboard: Option<bool>,
}

/// The command-line arguments, as parsed. `root_from_command_line` and
/// `color_from_command_line` tell whether those values were given on the
/// command line rather than taken from their defaults.
#[derive(Debug, Clone)]
pub struct CliArgs {
    pub root: String,
    pub root_from_command_line: bool,
    pub files: Vec<String>,
    pub config: Option<String>,
    pub no_config: bool,
    pub tree_only: bool,
    pub files_only: bool,
    pub include_glob: Vec<String>,
    pub include_ext: Vec<String>,
    pub exclude_glob: Vec<String>,
    pub exclude_ext: Vec<String>,
    pub exclude_dir: Vec<String>,
    pub max_size: Option<u64>,
    pub max_files: Option<usize>,
    pub max_depth: Option<usize>,
    pub follow_symlinks: bool,
    pub relative: bool,
    pub absolute: bool,
    pub color: ColorMode,
    pub color_from_command_line: bool,
    pub copy: bool,
}

/// The environment variables that config discovery reads.
#[derive(Debug, Clone)]
pub struct ConfigEnv {
    pub treecat_config: Option<String>,
    pub xdg_config_home: Option<String>,
    pub home: Option<String>,
}

/// The trimmed, non-empty pieces.
pub open spec fn nonempty_trimmed(parts: Seq<Seq<char>>) -> Seq<Seq<char>>
    decreases parts.len(),
{
    if parts.len() == 0 {
        Seq::empty()
    } else {
        let rest = nonempty_trimmed(parts.drop_last());
        let t = trim(parts.last());
        if t.len() > 0 {
            rest.push(t)
        } else {
            rest
        }
    }
}

/// Every value split at commas, each piece trimmed, empty pieces dropped.
pub open spec fn split_multi_spec(values: Seq<Seq<char>>) -> Seq<Seq<char>>
    decreases values.len(),
{
    if values.len() == 0 {
        Seq::empty()
    } else {
        split_multi_spec(values.drop_last()) + nonempty_trimmed(split(values.last(), ','))
    }
}

fn pieces_of(v: &String) -> (r: Vec<String>)
    ensures
        strings_view(r@) == nonempty_trimmed(split(v@, ',')),
{
    let cs = chars_of(v.as_str());
    let parts = split_chars(cs.as_slice(), ',');
    let ghost pv = split(v@, ',');
    let mut out: Vec<String> = Vec::new();
    let mut i: usize = 0;
    while i < parts.len()
        invariant
            i <= parts@.len(),
            views(parts@) == pv,
            strings_view(out@) == nonempty_trimmed(pv.take(i as int)),
        decreases parts@.len() - i,
    {
        let t = trim_chars(parts[i].as_slice());
        assert(pv.take(i + 1).drop_last() =~= pv.take(i as int));
        assert(pv.take(i + 1).last() == parts@[i as int]@);
        if t.len() > 0 {
            let ghost before = strings_view(out@);
            out.push(string_from_chars(t.as_slice()));
            assert(strings_view(out@) =~= before.push(t@));
        }
        i = i + 1;
    }
    assert(pv.take(parts@.len() as int) =~= pv);
    out
}

/// Splits comma-separated values into trimmed, non-empty pieces.
pub fn split_multi(values: &Vec<String>) -> (r: Vec<String>)
    ensures
        strings_view(r@) == split_multi_spec(strings_view(values@)),
{
    let mut out: Vec<String> = Vec::new();
    let mut i: usize = 0;
    while i < values.len()
        invariant
            i <= values@.len(),
            strings_view(out@) == split_multi_spec(strings_view(values@).take(i as int)),
        decreases values@.len() - i,
    {
        let pieces = pieces_of(&values[i]);
        let ghost before = strings_view(out@);
        let mut j: usize = 0;
        while j < pieces.len()
            invariant
                j <= pieces@.len(),
                strings_view(out@) == before + strings_view(pieces@).take(j as int),
            decreases pieces@.len() - j,
        {
            let ghost prev = out@;
            let piece = pieces[j].clone();
            assert(piece@ == pieces@[j as int]@);
            out.push(piece);
            assert(strings_view(out@) =~= strings_view(prev).push(pieces@[j as int]@));
            assert(strings_view(pieces@).take(j + 1) =~= strings_view(pieces@).take(j as int).push(
                pieces@[j as int]@,
            ));
            assert(strings_view(out@) =~= before + strings_view(pieces@).take(j + 1));
            j = j + 1;
        }
        assert(strings_view(pieces@).take(pieces@.len() as int) =~= strings_view(pieces@));
        assert(strings_view(values@).take(i + 1).drop_last() =~= strings_view(values@).take(
            i as int,
        ));
        assert(strings_view(values@).take(i + 1).last() == values@[i as int]@);
        i = i + 1;
    }
    assert(strings_view(values@).take(values@.len() as int) =~= strings_view(values@));
    out
}

/// The built-in defaults: root `.`, color `Auto`, everything else empty,
/// false or absent. Neither path mode is set: when nothing sets one, the
/// check of the finished configuration settles on relative paths, so a
/// config file or command line that asks for absolute paths alone wins.
pub open spec fn is_builtin_default(c: Config) -> bool {
    &&& c.root_path@ == "."@
    &&& c.explicit_files@.len() == 0
    &&& !c.tree_only
    &&& !c.files_only
    &&& c.include_globs@.len() == 0
    &&& c.include_exts@.len() == 0
    &&& c.exclude_globs@.len() == 0
    &&& c.exclude_exts@.len() == 0
    &&& c.exclude_dirs@.len() == 0
    &&& c.max_size_bytes is None
    &&& c.max_files is None
    &&& c.max_depth is None
    &&& !c.follow_symlinks
    &&& !c.relative_paths
    &&& !c.absolute_paths
    &&& !c.show_version
    &&& c.color_mode == ColorMode::Auto
    &&& !c.copy_to_clipboard
}

/// The built-in defaults.
pub fn built_in_defaults() -> (r: Config)
    ensures
        is_builtin_default(r),
{
    Config {
        root_path: String::from_str("."),
        explicit_files: Vec::new(),
        tree_only: false,
        files_only: false,
        include_globs: Vec::new(),
        include_exts: Vec::new(),
        exclude_globs: Vec::new(),
        exclude_exts: Vec::new(),
        exclude_dirs: Vec::new(),
        max_size_bytes: None,
        max_files: None,
        max_depth: None,
        follow_symlinks: false,
        relative_paths: false,
        absolute_paths: false,
        show_version: false,
        color_mode: ColorMode::Auto,
        copy_to_clipboard: false,
    }
}

pub open spec fn or_strings(v: Option<Vec<String>>, d: Seq<Seq<char>>) -> Seq<Seq<char>> {
    match v {
        Some(x) => strings_view(x@),
        None => d,
    }
}

pub open spec fn or_split(v: Option<Vec<String>>, d: Seq<Seq<char>>) -> Seq<Seq<char>> {
    match v {
        Some(x) => split_multi_spec(strings_view(x@)),
        None => d,
    }
}

pub open spec fn or_else<T>(v: Option<T>, d: T) -> T {
    match v {
        Some(x) => x,
        None => d,
    }
}

/// Every value the file sets replaces the current one; extension lists are
/// split at commas; what the file does not set stays as it was.
pub open spec fn file_applied(old: Config, f: FileConfig, new: Config) -> bool {
    &&& new.root_path@ == match f.root_path {
        Some(x) => x@,
        None => old.root_path@,
    }
    &&& strings_view(new.explicit_files@) == or_strings(f.explicit_files, strings_view(old.explicit_files@))
    &&& new.tree_only == or_else(f.tree_only, old.tree_only)
    &&& new.files_only == or_else(f.files_only, old.files_only)
    &&& strings_view(new.include_globs@) == or_strings(f.include_globs, strings_view(old.include_globs@))
    &&& strings_view(new.include_exts@) == or_split(f.include_exts, strings_view(old.include_exts@))
    &&& strings_view(new.exclude_globs@) == or_strings(f.exclude_globs, strings_view(old.exclude_globs@))
    &&& strings_view(new.exclude_exts@) == or_split(f.exclude_exts, strings_view(old.exclude_exts@))
    &&& strings_view(new.exclude_dirs@) == or_strings(f.exclude_dirs, strings_view(old.exclude_dirs@))
    &&& new.max_size_bytes == match f.max_size_bytes {
        Some(v) => Some(v),
        None => old.max_size_bytes,
    }
    &&& new.max_files == match f.max_files {
        Some(v) => Some(v),
        None => old.max_files,
    }
    &&& new.max_depth == match f.max_depth {
        Some(v) => Some(v),
        None => old.max_depth,
    }
    &&& new.follow_symlinks == or_else(f.follow_symlinks, old.follow_symlinks)
    &&& new.relative_paths == or_else(f.relative_paths, old.relative_paths)
    &&& new.absolute_paths == or_else(f.absolute_paths, old.absolute_paths)
    &&& new.show_version == old.show_version
    &&& new.color_mode == or_else(f.color_mode, old.color_mode)
    &&& new.copy_to_clipboard == or_else(f.copy_to_clipboard, old.copy_to_clipboard)
}

/// Applies the values a config file sets.
pub fn apply_file_config(cfg: &mut Config, file_cfg: FileConfig)
    ensures
        file_applied(*old(cfg), file_cfg, *final(cfg)),
{
    let FileConfig {
        root_path,
        explicit_files,
        tree_only,
        files_only,
        include_globs,
        include_exts,
        exclude_globs,
        exclude_exts,
        exclude_dirs,
        max_size_bytes,
        max_files,
        max_depth,
        follow_symlinks,
        relative_paths,
        absolute_paths,
        color_mode,
        copy_to_clipboard,
    } = file_cfg;
    set_string(&mut cfg.root_path, root_path);
    set_strings(&mut cfg.explicit_files, explicit_files);
    set_value(&mut cfg.tree_only, tree_only);
    set_value(&mut cfg.files_only, files_only);
    set_strings(&mut cfg.include_globs, include_globs);
    set_split(&mut cfg.include_exts, include_exts);
    set_strings(&mut cfg.exclude_globs, exclude_globs);
    set_split(&mut cfg.exclude_exts, exclude_exts);
    set_strings(&mut cfg.exclude_dirs, exclude_dirs);
    set_option(&mut cfg.max_size_bytes, max_size_bytes);
    set_option(&mut cfg.max_files, max_files);
    set_option(&mut cfg.max_depth, max_depth);
    set_value(&mut cfg.follow_symlinks, follow_symlinks);
    set_value(&mut cfg.relative_paths, relative_paths);
    set_value(&mut cfg.absolute_paths, absolute_paths);
    set_value(&mut cfg.color_mode, color_mode);
    set_value(&mut cfg.copy_to_clipboard, copy_to_clipboard);
}

fn set_string(dst: &mut String, v: Option<String>)
    ensures
        final(dst)@ == match v {
            Some(x) => x@,
            None => old(dst)@,
        },
{
    if let Some(x) = v {
        *dst = x;
    }
}

fn set_strings(dst: &mut Vec<String>, v: Option<Vec<String>>)
    ensures
        strings_view(final(dst)@) == or_strings(v, strings_view(old(dst)@)),
{
    if let Some(x) = v {
        *dst = x;
    }
}

fn set_split(dst: &mut Vec<String>, v: Option<Vec<String>>)
    ensures
        strings_view(final(dst)@) == or_split(v, strings_view(old(dst)@)),
{
    if let Some(x) = v {
        *dst = split_multi(&x);
    }
}

fn set_value<T>(dst: &mut T, v: Option<T>)
    ensures
        *final(dst) == or_else(v, *old(dst)),
{
    if let Some(x) = v {
        *dst = x;
    }
}

fn set_option<T>(dst: &mut Option<T>, v: Option<T>)
    ensures
        *final(dst) == match v {
            Some(x) => Some(x),
            None => *old(dst),
        },
{
    if let Some(x) = v {
        *dst = Some(x);
    }
}

pub open spec fn nonempty_or(v: Seq<String>, d: Seq<Seq<char>>) -> Seq<Seq<char>> {
    if v.len() > 0 {
        strings_view(v)
    } else {
        d
    }
}

/// What the command line overrides: values given there replace the current
/// ones; flags only switch on; `--relative`/`--absolute` switch the other
/// off; the root and the color only when given on the command line.
pub open spec fn cli_applied(old: Config, cli: CliArgs, new: Config) -> bool {
    &&& new.root_path@ == if cli.root_from_command_line {
        cli.root@
    } else {
        old.root_path@
    }
    &&& strings_view(new.explicit_files@) == nonempty_or(cli.files@, strings_view(old.explicit_files@))
    &&& new.tree_only == (old.tree_only || cli.tree_only)
    &&& new.files_only == (old.files_only || cli.files_only)
    &&& strings_view(new.include_globs@) == nonempty_or(cli.include_glob@, strings_view(old.include_globs@))
    &&& strings_view(new.include_exts@) == if cli.include_ext@.len() > 0 {
        split_multi_spec(strings_view(cli.include_ext@))
    } else {
        strings_view(old.include_exts@)
    }
    &&& strings_view(new.exclude_globs@) == nonempty_or(cli.exclude_glob@, strings_view(old.exclude_globs@))
    &&& strings_view(new.exclude_exts@) == if cli.exclude_ext@.len() > 0 {
        split_multi_spec(strings_view(cli.exclude_ext@))
    } else {
        strings_view(old.exclude_exts@)
    }
    &&& strings_view(new.exclude_dirs@) == nonempty_or(cli.exclude_dir@, strings_view(old.exclude_dirs@))
    &&& new.max_size_bytes == match cli.max_size {
        Some(v) => Some(v),
        None => old.max_size_bytes,
    }
    &&& new.max_files == match cli.max_files {
        Some(v) => Some(v),
        None => old.max_files,
    }
    &&& new.max_depth == match cli.max_depth {
        Some(v) => Some(v),
        None => old.max_depth,
    }
    &&& new.follow_symlinks == (old.follow_symlinks || cli.follow_symlinks)
    &&& new.relative_paths == if cli.absolute {
        false
    } else if cli.relative {
        true
    } else {
        old.relative_paths
    }
    &&& new.absolute_paths == if cli.absolute {
        true
    } else if cli.relative {
        false
    } else {
        old.absolute_paths
    }
    &&& new.show_version == old.show_version
    &&& new.color_mode == if cli.color_from_command_line {
        cli.color
    } else {
        old.color_mode
    }
    &&& new.copy_to_clipboard == (old.copy_to_clipboard || cli.copy)
}

/// Applies the command-line overrides.
pub fn apply_cli_overrides(cfg: &mut Config, cli: &CliArgs)
    ensures
        cli_applied(*old(cfg), *cli, *final(cfg)),
{
    override_string(&mut cfg.root_path, &cli.root, cli.root_from_command_line);
    override_strings(&mut cfg.explicit_files, &cli.files);
    switch_on(&mut cfg.tree_only, cli.tree_only);
    switch_on(&mut cfg.files_only, cli.files_only);
    override_strings(&mut cfg.include_globs, &cli.include_glob);
    override_split(&mut cfg.include_exts, &cli.include_ext);
    override_strings(&mut cfg.exclude_globs, &cli.exclude_glob);
    override_split(&mut cfg.exclude_exts, &cli.exclude_ext);
    override_strings(&mut cfg.exclude_dirs, &cli.exclude_dir);
    set_option(&mut cfg.max_size_bytes, cli.max_size);
    set_option(&mut cfg.max_files, cli.max_files);
    set_option(&mut cfg.max_depth, cli.max_depth);
    switch_on(&mut cfg.follow_symlinks, cli.follow_symlinks);
    set_path_mode(&mut cfg.relative_paths, &mut cfg.absolute_paths, cli.relative, cli.absolute);
    override_value(&mut cfg.color_mode, cli.color, cli.color_from_command_line);
    switch_on(&mut cfg.copy_to_clipboard, cli.copy);
}

fn set_path_mode(rel: &mut bool, abs: &mut bool, relative: bool, absolute: bool)
    ensures
        *final(rel) == if absolute {
            false
        } else if relative {
            true
        } else {
            *old(rel)
        },
        *final(abs) == if absolute {
            true
        } else if relative {
            false
        } else {
            *old(abs)
        },
{
    if relative {
        *rel = true;
        *abs = false;
    }
    if absolute {
        *abs = true;
        *rel = false;
    }
}

fn override_value<T>(dst: &mut T, v: T, given: bool)
    ensures
        *final(dst) == if given {
            v
        } else {
            *old(dst)
        },
{
    if given {
        *dst = v;
    }
}

fn override_string(dst: &mut String, v: &String, given: bool)
    ensures
        final(dst)@ == if given {
            v@
        } else {
            old(dst)@
        },
{
    if given {
        *dst = v.clone();
    }
}

fn override_strings(dst: &mut Vec<String>, v: &Vec<String>)
    ensures
        strings_view(final(dst)@) == nonempty_or(v@, strings_view(old(dst)@)),
{
    if v.len() > 0 {
        *dst = clone_strings(v);
    }
}

fn override_split(dst: &mut Vec<String>, v: &Vec<String>)
    ensures
        strings_view(final(dst)@) == if v@.len() > 0 {
            split_multi_spec(strings_view(v@))
        } else {
            strings_view(old(dst)@)
        },
{
    if v.len() > 0 {
        *dst = split_multi(v);
    }
}

fn switch_on(dst: &mut bool, flag: bool)
    ensures
        *final(dst) == (*old(dst) || flag),
{
    if flag {
        *dst = true;
    }
}

/// The outcome of checking a configuration: the conflicting flags, then the
/// exclude-dir values; when it passes, relative paths are switched on if
/// neither relative nor absolute paths are.
pub open spec fn validation_result(cfg: Config) -> Result<(), Seq<char>> {
    if cfg.tree_only && cfg.files_only {
        Err("cannot use --tree-only and --files-only together"@)
    } else if cfg.relative_paths && cfg.absolute_paths {
        Err("cannot use both relative_paths and absolute_paths in config"@)
    } else {
        match build_rules(strings_view(cfg.exclude_dirs@)) {
            Err((raw, p)) => Err(exclude_dir_message(p, raw)),
            Ok(_) => Ok(()),
        }
    }
}

/// Checks a configuration and settles the path mode.
pub fn normalize_and_validate_config(cfg: &mut Config) -> (r: Result<(), String>)
    ensures
        match validation_result(*old(cfg)) {
            Err(e) => r matches Err(m) && m@ == e && *final(cfg) == *old(cfg),
            Ok(()) => r is Ok && *final(cfg) == (Config {
                relative_paths: old(cfg).relative_paths || !old(cfg).absolute_paths,
                ..*old(cfg)
            }),
        },
{
    if cfg.tree_only && cfg.files_only {
        return Err(String::from_str("cannot use --tree-only and --files-only together"));
    }
    if cfg.relative_paths && cfg.absolute_paths {
        return Err(String::from_str("cannot use both relative_paths and absolute_paths in config"));
    }
    match build_exclude_dir_rules(cfg.exclude_dirs.as_slice()) {
        Err(e) => {
            return Err(e);
        },
        Ok(_) => {},
    }
    if !cfg.relative_paths && !cfg.absolute_paths {
        cfg.relative_paths = true;
    }
    Ok(())
}

/// The flags that cannot be combined on the command line.
pub fn check_cli_flags(cli: &CliArgs) -> (r: Result<(), String>)
    ensures
        cli.tree_only && cli.files_only ==> (r matches Err(m) && m@
            == "cannot use --tree-only and --files-only together"@),
        !(cli.tree_only && cli.files_only) && cli.relative && cli.absolute ==> (r matches Err(m)
            && m@ == "cannot use --relative and --absolute together"@),
        !(cli.tree_only && cli.files_only) && !(cli.relative && cli.absolute) ==> r is Ok,
{
    if cli.tree_only && cli.files_only {
        return Err(String::from_str("cannot use --tree-only and --files-only together"));
    }
    if cli.relative && cli.absolute {
        return Err(String::from_str("cannot use --relative and --absolute together"));
    }
    Ok(())
}

/// The default config file: under `$XDG_CONFIG_HOME` when it is set and not
/// empty, else under `$HOME/.config`, else none.
pub open spec fn default_config_path_spec(env: ConfigEnv) -> Option<Seq<char>> {
    match env.xdg_config_home {
        Some(x) if x@.len() > 0 => Some(path_join(path_join(x@, "treecat"@), "config.toml"@)),
        _ => match env.home {
            Some(h) if h@.len() > 0 => Some(
                path_join(path_join(path_join(h@, ".config"@), "treecat"@), "config.toml"@),
            ),
            _ => None,
        },
    }
}

fn join_str(a: &str, b: &str) -> (r: String)
    ensures
        r@ == path_join(a@, b@),
{
    let x = chars_of(a);
    let y = chars_of(b);
    let j = path_join_chars(x.as_slice(), y.as_slice());
    string_from_chars(j.as_slice())
}

/// The default config file path.
pub fn default_config_path(env: &ConfigEnv) -> (r: Option<String>)
    ensures
        match default_config_path_spec(*env) {
            Some(p) => r matches Some(s) && s@ == p,
            None => r is None,
        },
{
    if let Some(x) = &env.xdg_config_home {
        let xc = chars_of(x.as_str());
        if xc.len() > 0 {
            let a = join_str(x.as_str(), "treecat");
            return Some(join_str(a.as_str(), "config.toml"));
        }
    }
    if let Some(h) = &env.home {
        let hc = chars_of(h.as_str());
        if hc.len() > 0 {
            let a = join_str(h.as_str(), ".config");
            let b = join_str(a.as_str(), "treecat");
            return Some(join_str(b.as_str(), "config.toml"));
        }
    }
    None
}

/// Which config file to load and whether it must exist: none with
/// `--no-config`; `--config` (required); `TREECAT_CONFIG` (required, and an
/// error when empty); otherwise the default path (optional).
pub fn resolve_config_path(cli: &CliArgs, env: &ConfigEnv) -> (r: Result<(Option<String>, bool), String>)
    ensures
        cli.no_config ==> r matches Ok((None, false)),
        !cli.no_config && cli.config is Some ==> (r matches Ok((Some(p), true)) && p@ == cli.config->0@),
        !cli.no_config && cli.config is None && env.treecat_config is Some ==> (if env.treecat_config->0@.len() == 0 {
            r matches Err(m) && m@ == "TREECAT_CONFIG is set but empty"@
        } else {
            r matches Ok((Some(p), true)) && p@ == env.treecat_config->0@
        }),
        !cli.no_config && cli.config is None && env.treecat_config is None ==> (r matches Ok((p, false))
            && match default_config_path_spec(*env) {
            Some(d) => p matches Some(s) && s@ == d,
            None => p is None,
        }),
{
    if cli.no_config {
        return Ok((None, false));
    }
    if let Some(p) = &cli.config {
        return Ok((Some(p.clone()), true));
    }
    if let Some(p) = &env.treecat_config {
        let pc = chars_of(p.as_str());
        if pc.len() == 0 {
            return Err(String::from_str("TREECAT_CONFIG is set but empty"));
        }
        return Ok((Some(p.clone()), true));
    }
    Ok((default_config_path(env), false))
}

/// The error for a required config file that does not exist.
pub fn missing_config_error(path: &str) -> (r: String)
    ensures
        r@ == "config file not found: "@ + path@,
{
    let mut m = String::from_str("config file not found: ");
    m.append(path);
    m
}

proof fn lemma_path_mode_message_distinct()
    ensures
        "cannot use both relative_paths and absolute_paths in config"@
            != "cannot use --tree-only and --files-only together"@,
        forall|p: ExcludeDirProblem, raw: Seq<char>|
            exclude_dir_message(p, raw)
                != "cannot use both relative_paths and absolute_paths in config"@,
{
    reveal_strlit("cannot use both relative_paths and absolute_paths in config");
    reveal_strlit("cannot use --tree-only and --files-only together");
    reveal_strlit("invalid exclude-dir value \"\": value cannot be empty");
    reveal_strlit("invalid exclude-dir value ");
    let both = "cannot use both relative_paths and absolute_paths in config"@;
    assert(both[11] != "cannot use --tree-only and --files-only together"@[11]);
    assert forall|p: ExcludeDirProblem, raw: Seq<char>|
        exclude_dir_message(p, raw) != both by {
        let m = exclude_dir_message(p, raw);
        if p == ExcludeDirProblem::Empty {
            assert(m[0] != both[0]);
        } else {
            let pre = "invalid exclude-dir value "@;
            assert(m == pre + debug_quoted(raw) + ": "@ + problem_reason(p));
            assert(m[0] == pre[0]);
            assert(m[0] != both[0]);
        }
    }
}

/// The configuration from the built-in defaults, the config file's values
/// (when one was loaded) and the command line, checked.
pub fn finish_config(cli: &CliArgs, file_cfg: Option<FileConfig>) -> (r: Result<Config, String>)
    ensures
        exists|d: Config, with_file: Config, with_cli: Config|
            {
                &&& is_builtin_default(d)
                &&& match file_cfg {
                    Some(f) => file_applied(d, f, with_file),
                    None => with_file == d,
                }
                &&& cli_applied(with_file, *cli, with_cli)
                &&& match validation_result(with_cli) {
                    Err(e) => r matches Err(m) && m@ == e,
                    Ok(()) => r matches Ok(c) && c == (Config {
                        relative_paths: with_cli.relative_paths || !with_cli.absolute_paths,
                        ..with_cli
                    }),
                }
            },
        match file_cfg {
            Some(f) => (f.absolute_paths == Some(true) && f.relative_paths is None && !cli.relative)
                ==> (!(r matches Err(m) && m@
                == "cannot use both relative_paths and absolute_paths in config"@) && (r matches Ok(
                c,
            ) ==> c.absolute_paths && !c.relative_paths)),
            None => true,
        },
        !cli.relative && !cli.absolute && (match file_cfg {
            Some(f) => f.relative_paths is None && f.absolute_paths is None,
            None => true,
        }) ==> (r matches Ok(c) ==> c.relative_paths && !c.absolute_paths),
        match file_cfg {
            Some(f) => (f.absolute_paths == Some(true) && f.relative_paths == Some(true)
                && !cli.relative && !cli.absolute && !((cli.tree_only || f.tree_only == Some(true))
                && (cli.files_only || f.files_only == Some(true)))) ==> (r matches Err(m) && m@
                == "cannot use both relative_paths and absolute_paths in config"@),
            None => true,
        },
{
    let mut cfg = built_in_defaults();
    let ghost d = cfg;
    match file_cfg {
        Some(f) => apply_file_config(&mut cfg, f),
        None => {},
    }
    let ghost with_file = cfg;
    apply_cli_overrides(&mut cfg, cli);
    let ghost with_cli = cfg;
    proof {
        lemma_path_mode_message_distinct();
    }
    match normalize_and_validate_config(&mut cfg) {
        Ok(()) => Ok(cfg),
        Err(e) => Err(e),
    }
}


/// Law: a value given on the command line wins over the config file, and a
/// value set in the config file wins over the built-in default.
pub proof fn law_config_precedence(
    d: Config,
    f: FileConfig,
    with_file: Config,
    cli: CliArgs,
    with_cli: Config,
)
    requires
        is_builtin_default(d),
        file_applied(d, f, with_file),
        cli_applied(with_file, cli, with_cli),
    ensures
        with_cli.root_path@ == if cli.root_from_command_line {
            cli.root@
        } else {
            match f.root_path {
                Some(x) => x@,
                None => "."@,
            }
        },
        strings_view(with_cli.explicit_files@) == nonempty_or(
            cli.files@,
            or_strings(f.explicit_files, Seq::empty()),
        ),
        with_cli.tree_only == (cli.tree_only || or_else(f.tree_only, false)),
        with_cli.files_only == (cli.files_only || or_else(f.files_only, false)),
        strings_view(with_cli.include_globs@) == nonempty_or(
            cli.include_glob@,
            or_strings(f.include_globs, Seq::empty()),
        ),
        strings_view(with_cli.include_exts@) == if cli.include_ext@.len() > 0 {
            split_multi_spec(strings_view(cli.include_ext@))
        } else {
            or_split(f.include_exts, Seq::empty())
        },
        strings_view(with_cli.exclude_globs@) == nonempty_or(
            cli.exclude_glob@,
            or_strings(f.exclude_globs, Seq::empty()),
        ),
        strings_view(with_cli.exclude_exts@) == if cli.exclude_ext@.len() > 0 {
            split_multi_spec(strings_view(cli.exclude_ext@))
        } else {
            or_split(f.exclude_exts, Seq::empty())
        },
        strings_view(with_cli.exclude_dirs@) == nonempty_or(
            cli.exclude_dir@,
            or_strings(f.exclude_dirs, Seq::empty()),
        ),
        with_cli.max_size_bytes == match cli.max_size {
            Some(v) => Some(v),
            None => f.max_size_bytes,
        },
        with_cli.max_files == match cli.max_files {
            Some(v) => Some(v),
            None => f.max_files,
        },
        with_cli.max_depth == match cli.max_depth {
            Some(v) => Some(v),
            None => f.max_depth,
        },
        with_cli.follow_symlinks == (cli.follow_symlinks || or_else(f.follow_symlinks, false)),
        with_cli.relative_paths == if cli.absolute {
            false
        } else if cli.relative {
            true
        } else {
            or_else(f.relative_paths, false)
        },
        with_cli.absolute_paths == if cli.absolute {
            true
        } else if cli.relative {
            false
        } else {
            or_else(f.absolute_paths, false)
        },
        with_cli.color_mode == if cli.color_from_command_line {
            cli.color
        } else {
            or_else(f.color_mode, ColorMode::Auto)
        },
        with_cli.copy_to_clipboard == (cli.copy || or_else(f.copy_to_clipboard, false)),
{
    assert(strings_view(d.explicit_files@) =~= Seq::<Seq<char>>::empty());
    assert(strings_view(d.include_globs@) =~= Seq::<Seq<char>>::empty());
    assert(strings_view(d.include_exts@) =~= Seq::<Seq<char>>::empty());
    assert(strings_view(d.exclude_globs@) =~= Seq::<Seq<char>>::empty());
    assert(strings_view(d.exclude_exts@) =~= Seq::<Seq<char>>::empty());
    assert(strings_view(d.exclude_dirs@) =~= Seq::<Seq<char>>::empty());
}


/// Law: splitting multi-values is done value by value: the pieces of two
/// lists put together are the pieces of the first followed by those of the
/// second.
pub proof fn law_split_multi_concat(a: Seq<Seq<char>>, b: Seq<Seq<char>>)
    ensures
        split_multi_spec(a + b) == split_multi_spec(a) + split_multi_spec(b),
    decreases b.len(),
{
    if b.len() == 0 {
        assert(a + b =~= a);
        assert(split_multi_spec(a) + split_multi_spec(b) =~= split_multi_spec(a));
    } else {
        law_split_multi_concat(a, b.drop_last());
        assert((a + b).drop_last() =~= a + b.drop_last());
        assert((a + b).last() == b.last());
        let t = nonempty_trimmed(split(b.last(), ','));
        assert(split_multi_spec(a) + split_multi_spec(b) =~= split_multi_spec(a)
            + split_multi_spec(b.drop_last()) + t);
    }
}

/// Law: every piece of a split multi-value is trimmed and not empty.
pub proof fn law_split_multi_pieces_trimmed(values: Seq<Seq<char>>)
    ensures
        forall|i: int|
            0 <= i < split_multi_spec(values).len() ==> (#[trigger] split_multi_spec(values)[i]).len()
                > 0 && split_multi_spec(values)[i] == trim(split_multi_spec(values)[i]),
    decreases values.len(),
{
    if values.len() > 0 {
        law_split_multi_pieces_trimmed(values.drop_last());
        lemma_nonempty_trimmed(split(values.last(), ','));
        let a = split_multi_spec(values.drop_last());
        let t = nonempty_trimmed(split(values.last(), ','));
        assert forall|i: int| 0 <= i < (a + t).len() implies (#[trigger] (a + t)[i]).len() > 0
            && (a + t)[i] == trim((a + t)[i]) by {
            if i < a.len() {
                assert((a + t)[i] == a[i]);
            } else {
                assert((a + t)[i] == t[i - a.len()]);
            }
        }
    }
}

proof fn lemma_nonempty_trimmed(parts: Seq<Seq<char>>)
    ensures
        forall|i: int|
            0 <= i < nonempty_trimmed(parts).len() ==> (#[trigger] nonempty_trimmed(parts)[i]).len()
                > 0 && nonempty_trimmed(parts)[i] == trim(nonempty_trimmed(parts)[i]),
    decreases parts.len(),
{
    if parts.len() > 0 {
        lemma_nonempty_trimmed(parts.drop_last());
        lemma_trim_idempotent(parts.last());
        let rest = nonempty_trimmed(parts.drop_last());
        let r = nonempty_trimmed(parts);
        assert forall|i: int| 0 <= i < r.len() implies (#[trigger] r[i]).len() > 0 && r[i] == trim(
            r[i],
        ) by {
            if i < rest.len() {
                assert(r[i] == rest[i]);
            } else {
                assert(r[i] == trim(parts.last()));
            }
        }
    }
}

} // verus!
