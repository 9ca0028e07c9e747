//! The decisions of a run: which files go to the content section and the
//! tree, whether color is on, and the assembled output.
use vstd::prelude::*;
use crate::config::{Config, ColorMode, strings_view};
use crate::fswalk::{TreeNode, FileInfo, node_view, path_set};
use crate::paths::{opt_string, path_join, path_join_chars, stripped_path, strip_path_prefix};
use crate::text::{chars_of, string_from_chars};
use crate::filter::{filter_files, filter_result, keeps, kept, excluded, within_size, ext_keys, file_ext,
    law_rules_alone_decide, law_filter_output};
use crate::render::{Palette, palette_of, render_tree, render_contents,
    render_tree_spec, render_contents_spec};

verus! {

/// An error of a run, with its message.
#[derive(Debug, Clone)]
pub enum TreecatError {
    Message(String),
}

impl TreecatError {
    /// The error's message.
    pub fn message(&self) -> (r: String)
        ensures
            match self {
                TreecatError::Message(m) => r@ == m@,
            },
    {
        match self {
            TreecatError::Message(m) => m.clone(),
        }
    }
}

/// What a run has gathered before rendering: the tree, the content files
/// with the bytes read from each (`None` when not read), the file paths the
/// tree may show (`None`: all), and the absolute root path.
pub struct RunData {
    pub tree: TreeNode,
    pub content_files: Vec<FileInfo>,
    pub contents: Vec<Option<Vec<u8>>>,
    pub tree_allowed_files: Option<Vec<String>>,
    pub root_abs: String,
}

pub fn clone_strings(v: &Vec<String>) -> (r: Vec<String>)
    ensures
        r@ == v@,
{
    let mut out: Vec<String> = Vec::new();
    let mut i: usize = 0;
    while i < v.len()
        invariant
            i <= v@.len(),
            out@ == v@.take(i as int),
        decreases v@.len() - i,
    {
        out.push(v[i].clone());
        assert(out@ =~= v@.take(i + 1));
        i = i + 1;
    }
    assert(v@.take(v@.len() as int) =~= v@);
    out
}

/// Whether file include/exclude filters are set (they then shape the tree too).
pub open spec fn has_file_filters(cfg: Config) -> bool {
    cfg.include_globs@.len() > 0 || cfg.include_exts@.len() > 0 || cfg.exclude_globs@.len() > 0
        || cfg.exclude_exts@.len() > 0
}

/// Whether file include/exclude filters are set.
pub fn has_tree_file_filters(cfg: &Config) -> (r: bool)
    ensures
        r == has_file_filters(*cfg),
{
    cfg.include_globs.len() > 0 || cfg.include_exts.len() > 0 || cfg.exclude_globs.len() > 0
        || cfg.exclude_exts.len() > 0
}

/// The configuration the content section is filtered with: explicit files
/// bypass the include filters.
pub open spec fn content_config_ok(cfg: Config, c: Config) -> bool {
    &&& c.exclude_globs@ == cfg.exclude_globs@
    &&& c.exclude_exts@ == cfg.exclude_exts@
    &&& c.max_size_bytes == cfg.max_size_bytes
    &&& c.max_files == cfg.max_files
    &&& if cfg.explicit_files@.len() == 0 {
        c.include_globs@ == cfg.include_globs@ && c.include_exts@ == cfg.include_exts@
    } else {
        c.include_globs@.len() == 0 && c.include_exts@.len() == 0
    }
}

/// The configuration the tree is filtered with: no size or count limit.
pub open spec fn tree_config_ok(cfg: Config, c: Config) -> bool {
    &&& c.exclude_globs@ == cfg.exclude_globs@
    &&& c.exclude_exts@ == cfg.exclude_exts@
    &&& c.include_globs@ == cfg.include_globs@
    &&& c.include_exts@ == cfg.include_exts@
    &&& c.max_size_bytes is None
    &&& c.max_files is None
}

fn selection_config(
    cfg: &Config,
    clear_includes: bool,
    drop_limits: bool,
) -> (r: Config)
    ensures
        r.exclude_globs@ == cfg.exclude_globs@,
        r.exclude_exts@ == cfg.exclude_exts@,
        clear_includes ==> r.include_globs@.len() == 0 && r.include_exts@.len() == 0,
        !clear_includes ==> r.include_globs@ == cfg.include_globs@ && r.include_exts@
            == cfg.include_exts@,
        drop_limits ==> r.max_size_bytes is None && r.max_files is None,
        !drop_limits ==> r.max_size_bytes == cfg.max_size_bytes && r.max_files == cfg.max_files,
{
    Config {
        root_path: cfg.root_path.clone(),
        explicit_files: clone_strings(&cfg.explicit_files),
        tree_only: cfg.tree_only,
        files_only: cfg.files_only,
        include_globs: if clear_includes {
            Vec::new()
        } else {
            clone_strings(&cfg.include_globs)
        },
        include_exts: if clear_includes {
            Vec::new()
        } else {
            clone_strings(&cfg.include_exts)
        },
        exclude_globs: clone_strings(&cfg.exclude_globs),
        exclude_exts: clone_strings(&cfg.exclude_exts),
        exclude_dirs: clone_strings(&cfg.exclude_dirs),
        max_size_bytes: if drop_limits {
            None
        } else {
            cfg.max_size_bytes
        },
        max_files: if drop_limits {
            None
        } else {
            cfg.max_files
        },
        max_depth: cfg.max_depth,
        follow_symlinks: cfg.follow_symlinks,
        relative_paths: cfg.relative_paths,
        absolute_paths: cfg.absolute_paths,
        show_version: cfg.show_version,
        color_mode: cfg.color_mode,
        copy_to_clipboard: cfg.copy_to_clipboard,
    }
}

/// The paths of the files.
pub open spec fn paths_of(files: Seq<FileInfo>) -> Seq<Seq<char>> {
    files.map_values(|f: FileInfo| f.path@)
}

fn paths(files: &Vec<FileInfo>) -> (r: Vec<String>)
    ensures
        strings_view(r@) == paths_of(files@),
{
    let mut out: Vec<String> = Vec::new();
    let mut i: usize = 0;
    while i < files.len()
        invariant
            i <= files@.len(),
            strings_view(out@) == paths_of(files@.take(i as int)),
        decreases files@.len() - i,
    {
        let ghost before = out@;
        out.push(files[i].path.clone());
        assert(files@.take(i + 1) =~= files@.take(i as int).push(files@[i as int]));
        assert(paths_of(files@.take(i + 1)) =~= paths_of(files@.take(i as int)).push(files@[i as int].path@));
        assert(strings_view(out@) =~= strings_view(before).push(files@[i as int].path@));
        i = i + 1;
    }
    assert(files@.take(files@.len() as int) =~= files@);
    out
}

/// What the selection gives for the given content and tree configurations:
/// the content files (from the explicit files when any are configured, else
/// from the walked files), and the file paths the tree may show (`None`:
/// all, when no file filter is set); or the first filter error.
pub open spec fn selected(
    cfg: Config,
    content_cfg: Config,
    tree_cfg: Config,
    walked: Seq<FileInfo>,
    explicit: Seq<FileInfo>,
) -> Result<(Seq<FileInfo>, Option<Seq<Seq<char>>>), Seq<char>> {
    match filter_result(
        content_cfg,
        if cfg.explicit_files@.len() == 0 {
            walked
        } else {
            explicit
        },
    ) {
        Err(e) => Err(e),
        Ok(content) => if !has_file_filters(cfg) {
            Ok((content, None))
        } else {
            match filter_result(tree_cfg, walked) {
                Err(e) => Err(e),
                Ok(t) => Ok((content, Some(paths_of(t)))),
            }
        },
    }
}

/// Chooses the content files and the files the tree may show. The content
/// candidates are the explicit files when any are configured (then include
/// filters are bypassed), otherwise the walked files; they go through
/// `filter_files`. When file filters are set, the tree shows only the walked
/// files that pass them, ignoring the size and count limits; otherwise it
/// shows all. The first filter error is returned.
pub fn select_files(cfg: &Config, walked: &Vec<FileInfo>, explicit: &Vec<FileInfo>) -> (r: Result<
    (Vec<FileInfo>, Option<Vec<String>>),
    TreecatError,
>)
    ensures
        exists|content_cfg: Config, tree_cfg: Config|
            {
                &&& content_config_ok(*cfg, content_cfg)
                &&& tree_config_ok(*cfg, tree_cfg)
                &&& match selected(*cfg, content_cfg, tree_cfg, walked@, explicit@) {
                    Err(e) => r matches Err(TreecatError::Message(m)) && m@ == e,
                    Ok((content, allowed)) => r matches Ok((c, a)) && c@ == content && match allowed {
                        None => a is None,
                        Some(ps) => a matches Some(v) && strings_view(v@) == ps,
                    },
                }
            },
{
    let explicit_mode = cfg.explicit_files.len() > 0;
    let content_cfg = selection_config(cfg, explicit_mode, false);
    let tree_cfg = selection_config(cfg, false, true);
    let candidates: &Vec<FileInfo> = if explicit_mode {
        explicit
    } else {
        walked
    };
    let content = match filter_files(candidates.as_slice(), &content_cfg) {
        Ok(c) => c,
        Err(e) => {
            assert(content_config_ok(*cfg, content_cfg));
            assert(tree_config_ok(*cfg, tree_cfg));
            return Err(TreecatError::Message(e));
        },
    };
    if !has_tree_file_filters(cfg) {
        assert(content_config_ok(*cfg, content_cfg));
        assert(tree_config_ok(*cfg, tree_cfg));
        return Ok((content, None));
    }
    match filter_files(walked.as_slice(), &tree_cfg) {
        Ok(t) => {
            let allowed = paths(&t);
            assert(content_config_ok(*cfg, content_cfg));
            assert(tree_config_ok(*cfg, tree_cfg));
            Ok((content, Some(allowed)))
        },
        Err(e) => {
            assert(content_config_ok(*cfg, content_cfg));
            assert(tree_config_ok(*cfg, tree_cfg));
            Err(TreecatError::Message(e))
        },
    }
}

/// Whether output is colored: always or never as asked; in `Auto` mode only
/// when `NO_COLOR` is not set and standard output is a terminal.
pub fn color_enabled(mode: ColorMode, no_color_set: bool, stdout_is_terminal: bool) -> (r: bool)
    ensures
        r == match mode {
            ColorMode::Always => true,
            ColorMode::Never => false,
            ColorMode::Auto => !no_color_set && stdout_is_terminal,
        },
{
    match mode {
        ColorMode::Always => true,
        ColorMode::Never => false,
        ColorMode::Auto => !no_color_set && stdout_is_terminal,
    }
}

/// The whole output: the tree section unless `files_only`; the content
/// section unless `tree_only`, after a blank line when both sections are
/// printed and there are content files.
pub open spec fn render_output_spec(data: RunData, cfg: Config, p: Palette) -> Seq<char> {
    let tree = if !cfg.files_only {
        render_tree_spec(
            node_view(data.tree),
            data.root_abs@,
            cfg.absolute_paths,
            p,
            match data.tree_allowed_files {
                Some(a) => Some(path_set(a@)),
                None => None,
            },
        )
    } else {
        Seq::empty()
    };
    let contents = if !cfg.tree_only {
        (if !cfg.files_only && data.content_files@.len() > 0 {
            seq!['\n']
        } else {
            Seq::<char>::empty()
        }) + render_contents_spec(
            data.content_files@,
            data.contents@,
            data.root_abs@,
            cfg.absolute_paths,
            p,
        )
    } else {
        Seq::empty()
    };
    tree + contents
}

/// Renders the whole output for the gathered data.
pub fn render_output(data: &RunData, cfg: &Config, palette: &Palette) -> (r: String)
    ensures
        r@ == render_output_spec(*data, *cfg, *palette),
{
    let mut out = String::new();
    if !cfg.files_only {
        let allowed: Option<&Vec<String>> = match &data.tree_allowed_files {
            Some(a) => Some(a),
            None => None,
        };
        let t = render_tree(&data.tree, data.root_abs.as_str(), cfg, palette, allowed);
        out.append(t.as_str());
    }
    if !cfg.tree_only {
        if !cfg.files_only && data.content_files.len() > 0 {
            out.append("\n");
            proof {
                reveal_strlit("\n");
            }
        }
        let c = render_contents(
            data.content_files.as_slice(),
            &data.contents,
            cfg,
            data.root_abs.as_str(),
            palette,
        );
        out.append(c.as_str());
    }
    assert(out@ =~= render_output_spec(*data, *cfg, *palette));
    out
}

/// The warning printed when copying to the clipboard fails.
pub fn clipboard_warning(err: &str) -> (r: String)
    ensures
        r@ == "warning: failed to copy output to clipboard: "@ + err@,
{
    let mut msg = String::from_str("warning: failed to copy output to clipboard: ");
    msg.append(err);
    msg
}


/// What looking up an explicit file gave: no such file, another failure
/// (with its description), or the file's kind and size.
pub enum ExplicitLookup {
    NotFound,
    Failed(String),
    Found { is_dir: bool, size: u64 },
}

pub open spec fn not_found_message(p: Seq<char>, abs: Seq<char>) -> Seq<char> {
    "explicit file not found: "@ + p + " (looked for "@ + abs + ")"@
}

pub open spec fn read_failed_message(p: Seq<char>, abs: Seq<char>, e: Seq<char>) -> Seq<char> {
    "failed to read explicit file "@ + p + " ("@ + abs + "): "@ + e
}

pub open spec fn directory_message(p: Seq<char>, abs: Seq<char>) -> Seq<char> {
    "explicit path is a directory (expected file): "@ + p + " ("@ + abs + ")"@
}

/// Where an explicit file is looked for: the path itself when absolute,
/// otherwise the path under the root.
pub fn explicit_abs_path(root_abs: &str, p: &str) -> (r: String)
    ensures
        r@ == path_join(root_abs@, p@),
{
    let a = chars_of(root_abs);
    let b = chars_of(p);
    let j = path_join_chars(a.as_slice(), b.as_slice());
    string_from_chars(j.as_slice())
}

/// The file record of explicit file `p` (looked for at `abs`), given the
/// lookup and `stripped`, what is left of `abs` after the root: an error
/// for a missing file, a failed lookup or a directory; otherwise the file
/// with its size, its path relative to the root when it lies under it and
/// `abs` itself when not.
pub fn explicit_entry(p: &str, abs: &str, lookup: ExplicitLookup, stripped: Option<String>) -> (r:
    Result<FileInfo, TreecatError>)
    ensures
        match lookup {
            ExplicitLookup::NotFound => r matches Err(TreecatError::Message(m)) && m@
                == not_found_message(p@, abs@),
            ExplicitLookup::Failed(e) => r matches Err(TreecatError::Message(m)) && m@
                == read_failed_message(p@, abs@, e@),
            ExplicitLookup::Found { is_dir, size } => if is_dir {
                r matches Err(TreecatError::Message(m)) && m@ == directory_message(p@, abs@)
            } else {
                r matches Ok(f) && f.size == size && !f.is_symlink && f.path@ == match opt_string(
                    stripped,
                ) {
                    Some(s) => s,
                    None => abs@,
                }
            },
        },
{
    match lookup {
        ExplicitLookup::NotFound => {
            let mut m = String::from_str("explicit file not found: ");
            m.append(p);
            m.append(" (looked for ");
            m.append(abs);
            m.append(")");
            Err(TreecatError::Message(m))
        },
        ExplicitLookup::Failed(e) => {
            let mut m = String::from_str("failed to read explicit file ");
            m.append(p);
            m.append(" (");
            m.append(abs);
            m.append("): ");
            m.append(e.as_str());
            Err(TreecatError::Message(m))
        },
        ExplicitLookup::Found { is_dir, size } => {
            if is_dir {
                let mut m = String::from_str("explicit path is a directory (expected file): ");
                m.append(p);
                m.append(" (");
                m.append(abs);
                m.append(")");
                Err(TreecatError::Message(m))
            } else {
                let path = match stripped {
                    Some(s) => s,
                    None => abs.to_owned(),
                };
                Ok(FileInfo { path, size, is_symlink: false })
            }
        },
    }
}

/// The file record of explicit file `p` given its lookup (see
/// `explicit_entry`), with the path looked at and the rest after the root
/// computed here.
pub fn explicit_file_info(p: &str, root_abs: &str, lookup: ExplicitLookup) -> (r: Result<
    FileInfo,
    TreecatError,
>)
    ensures
        ({
            let abs = path_join(root_abs@, p@);
            match lookup {
                ExplicitLookup::NotFound => r matches Err(TreecatError::Message(m)) && m@
                    == not_found_message(p@, abs),
                ExplicitLookup::Failed(e) => r matches Err(TreecatError::Message(m)) && m@
                    == read_failed_message(p@, abs, e@),
                ExplicitLookup::Found { is_dir, size } => if is_dir {
                    r matches Err(TreecatError::Message(m)) && m@ == directory_message(p@, abs)
                } else {
                    r matches Ok(f) && f.size == size && !f.is_symlink && f.path@ == match stripped_path(
                        abs,
                        root_abs@,
                    ) {
                        Some(s) => s,
                        None => abs,
                    }
                },
            }
        }),
{
    let abs = explicit_abs_path(root_abs, p);
    let stripped = strip_path_prefix(abs.as_str(), root_abs);
    explicit_entry(p, abs.as_str(), lookup, stripped)
}


/// Law: the size and count limits do not shape the tree. For two
/// configurations that differ at most in `max_size_bytes` and `max_files`,
/// the files the tree may show are selected alike.
pub proof fn law_tree_ignores_limits(
    cfg1: Config,
    cfg2: Config,
    tree1: Config,
    tree2: Config,
    walked: Seq<FileInfo>,
)
    requires
        cfg1.include_globs@ == cfg2.include_globs@,
        cfg1.include_exts@ == cfg2.include_exts@,
        cfg1.exclude_globs@ == cfg2.exclude_globs@,
        cfg1.exclude_exts@ == cfg2.exclude_exts@,
        tree_config_ok(cfg1, tree1),
        tree_config_ok(cfg2, tree2),
    ensures
        has_file_filters(cfg1) == has_file_filters(cfg2),
        filter_result(tree1, walked) == filter_result(tree2, walked),
{
    law_rules_alone_decide(tree1, tree2, walked);
}

/// Law: with explicit files the include rules are bypassed while the
/// exclude rules and the size limit still apply: a content file passes
/// exactly when no exclude rule refuses it and it is within the size limit.
pub proof fn law_explicit_files_bypass_includes(cfg: Config, content: Config, f: FileInfo)
    requires
        cfg.explicit_files@.len() > 0,
        content_config_ok(cfg, content),
    ensures
        keeps(content, f) == (!excluded(cfg, f) && within_size(cfg, f)),
{
    assert(strings_view(content.include_exts@) =~= Seq::<Seq<char>>::empty());
    assert(strings_view(content.include_globs@) =~= Seq::<Seq<char>>::empty());
    assert(ext_keys(strings_view(content.include_exts@)).len() == 0);
}


proof fn lemma_in_kept(cfg: Config, files: Seq<FileInfo>, f: FileInfo)
    requires
        files.contains(f),
        keeps(cfg, f),
    ensures
        kept(cfg, files).contains(f),
    decreases files.len(),
{
    if files.last() == f {
        assert(kept(cfg, files).last() == f);
        assert(kept(cfg, files)[kept(cfg, files).len() - 1] == f);
    } else {
        let k = choose|k: int| 0 <= k < files.len() && files[k] == f;
        assert(files.drop_last()[k] == f);
        lemma_in_kept(cfg, files.drop_last(), f);
        let prev = kept(cfg, files.drop_last());
        let q = choose|q: int| 0 <= q < prev.len() && prev[q] == f;
        assert(kept(cfg, files)[q] == f);
    }
}

/// Law: without explicit files, the same rules pick the tree and the
/// content: every file of the content section is one the tree shows.
pub proof fn law_content_files_shown_in_tree(
    cfg: Config,
    content_cfg: Config,
    tree_cfg: Config,
    walked: Seq<FileInfo>,
    content: Seq<FileInfo>,
    tree: Seq<FileInfo>,
)
    requires
        cfg.explicit_files@.len() == 0,
        content_config_ok(cfg, content_cfg),
        tree_config_ok(cfg, tree_cfg),
        filter_result(content_cfg, walked) == Ok::<Seq<FileInfo>, Seq<char>>(content),
        filter_result(tree_cfg, walked) == Ok::<Seq<FileInfo>, Seq<char>>(tree),
    ensures
        forall|i: int| 0 <= i < content.len() ==> tree.contains(#[trigger] content[i]),
{
    broadcast use vstd::seq_lib::group_to_multiset_ensures;
    law_filter_output(content_cfg, walked);
    law_filter_output(tree_cfg, walked);
    assert forall|i: int| 0 <= i < content.len() implies tree.contains(#[trigger] content[i]) by {
        let f = content[i];
        assert(keeps(content_cfg, f) && walked.contains(f));
        assert(keeps(tree_cfg, f));
        lemma_in_kept(tree_cfg, walked, f);
        let kp = kept(tree_cfg, walked);
        assert(kp.to_multiset().count(f) > 0);
        assert(tree.to_multiset().count(f) > 0);
    }
}


/// Gathers what a run renders from the walk's tree and files, the explicit
/// files and the absolute root: the tree is the walked tree itself (explicit
/// files never change it); the content files and the tree's allowed paths
/// are what `select_files` chooses. The file contents are left empty, to be
/// read for the chosen content files.
pub fn collect_run_data(
    cfg: &Config,
    tree: TreeNode,
    walked: &Vec<FileInfo>,
    explicit: &Vec<FileInfo>,
    root_abs: String,
) -> (r: Result<RunData, TreecatError>)
    ensures
        exists|content_cfg: Config, tree_cfg: Config|
            {
                &&& content_config_ok(*cfg, content_cfg)
                &&& tree_config_ok(*cfg, tree_cfg)
                &&& match selected(*cfg, content_cfg, tree_cfg, walked@, explicit@) {
                    Err(e) => r matches Err(TreecatError::Message(m)) && m@ == e,
                    Ok((content, allowed)) => r matches Ok(d) && d.tree == tree && d.root_abs
                        == root_abs && d.contents@.len() == 0 && d.content_files@ == content
                        && match allowed {
                        None => d.tree_allowed_files is None,
                        Some(ps) => d.tree_allowed_files matches Some(v) && strings_view(v@) == ps,
                    },
                }
            },
{
    match select_files(cfg, walked, explicit) {
        Ok((content_files, tree_allowed_files)) => Ok(
            RunData { tree, content_files, contents: Vec::new(), tree_allowed_files, root_abs },
        ),
        Err(e) => Err(e),
    }
}

/// The decisions of a run's output: the terminal text rendered with the
/// palette `color` asks for, and, only when copying to the clipboard is
/// configured, the clipboard text rendered without colors.
pub fn run_plan(data: &RunData, cfg: &Config, color: bool) -> (r: (String, Option<String>))
    ensures
        r.0@ == render_output_spec(*data, *cfg, palette_of(color)),
        r.1 is Some <==> cfg.copy_to_clipboard,
        r.1 matches Some(c) ==> c@ == render_output_spec(*data, *cfg, palette_of(false)),
{
    let terminal = render_output(data, cfg, &Palette::new(color));
    let clipboard = if cfg.copy_to_clipboard {
        Some(render_output(data, cfg, &Palette::new(false)))
    } else {
        None
    };
    (terminal, clipboard)
}

/// What a copy to the clipboard leaves to report: nothing when it worked,
/// otherwise the warning (for standard error; the run still succeeds).
pub fn copy_outcome(res: Result<(), String>) -> (w: Option<String>)
    ensures
        res is Ok <==> w is None,
        res matches Err(e) ==> w matches Some(m) && m@ == "warning: failed to copy output to clipboard: "@
            + e@,
{
    match res {
        Ok(()) => None,
        Err(e) => Some(clipboard_warning(e.as_str())),
    }
}


/// Law: when any file filter is set (include globs, include extensions,
/// exclude globs or exclude extensions), the tree shows only an explicit
/// list of paths, and no walked file whose lower-cased extension is an
/// excluded one is in that list.
pub proof fn law_file_filters_shape_tree(
    cfg: Config,
    content_cfg: Config,
    tree_cfg: Config,
    walked: Seq<FileInfo>,
    explicit: Seq<FileInfo>,
    content: Seq<FileInfo>,
    allowed: Option<Seq<Seq<char>>>,
)
    requires
        content_config_ok(cfg, content_cfg),
        tree_config_ok(cfg, tree_cfg),
        cfg.include_globs@.len() > 0 || cfg.include_exts@.len() > 0 || cfg.exclude_globs@.len() > 0
            || cfg.exclude_exts@.len() > 0,
        selected(cfg, content_cfg, tree_cfg, walked, explicit) == Ok::<
            (Seq<FileInfo>, Option<Seq<Seq<char>>>),
            Seq<char>,
        >((content, allowed)),
    ensures
        allowed is Some,
        forall|i: int|
            0 <= i < walked.len() && ext_keys(strings_view(cfg.exclude_exts@)).contains(
                file_ext((#[trigger] walked[i]).path@),
            ) ==> !allowed->0.contains(walked[i].path@),
{
    let t = filter_result(tree_cfg, walked)->Ok_0;
    law_filter_output(tree_cfg, walked);
    assert forall|i: int|
        0 <= i < walked.len() && ext_keys(strings_view(cfg.exclude_exts@)).contains(
            file_ext((#[trigger] walked[i]).path@),
        ) implies !allowed->0.contains(walked[i].path@) by {
        if allowed->0.contains(walked[i].path@) {
            let k = choose|k: int| 0 <= k < allowed->0.len() && allowed->0[k] == walked[i].path@;
            assert(allowed->0 == paths_of(t));
            assert(paths_of(t)[k] == t[k].path@);
            assert(keeps(tree_cfg, t[k]));
        }
    }
}

} // verus!
