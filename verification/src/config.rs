//! The run configuration and the rules that exclude directories.
use vstd::prelude::*;
use crate::text::{chars_of, chars_eq, string_from_chars, debug_quote, debug_quoted};
use crate::paths::{split, join, views, is_absolute, file_name, split_chars, join_chars,
    lemma_split_no_sep, lemma_split_join, lemma_join_starts, lemma_split_avoids, lemma_join_avoids,
    lemma_join_ends,
    file_name_chars};

verus! {

/// Color handling for output.
#[derive(Debug, Clone, Copy, PartialEq, Eq, Structural)]
pub enum ColorMode {
    Auto,
    Always,
    Never,
}

impl Default for ColorMode {
    fn default() -> (r: ColorMode)
        ensures
            r == ColorMode::Auto,
    {
        ColorMode::Auto
    }
}

/// Configuration for a treecat run.
#[derive(Debug, Clone)]
pub struct Config {
    /// Root path to scan; the current directory when empty.
    pub root_path: String,
    /// Explicit file paths for the content section.
    pub explicit_files: Vec<String>,
    /// Only render the tree.
    pub tree_only: bool,
    /// Only render file contents.
    pub files_only: bool,
    /// Include globs (matched against basenames).
    pub include_globs: Vec<String>,
    /// Include extensions (without dot).
    pub include_exts: Vec<String>,
    /// Exclude globs (matched against basenames).
    pub exclude_globs: Vec<String>,
    /// Exclude extensions (without dot).
    pub exclude_exts: Vec<String>,
    /// Excluded directory basenames or exact root-relative directory paths.
    pub exclude_dirs: Vec<String>,
    /// Max file size (bytes) for the content section.
    pub max_size_bytes: Option<u64>,
    /// Max number of files in the content section.
    pub max_files: Option<usize>,
    /// Max traversal depth.
    pub max_depth: Option<usize>,
    /// Follow directory symlinks.
    pub follow_symlinks: bool,
    /// Paths shown relative to the root.
    pub relative_paths: bool,
    /// Paths shown absolute.
    pub absolute_paths: bool,
    /// Show the version and exit.
    pub show_version: bool,
    /// Color handling.
    pub color_mode: ColorMode,
    /// Copy the rendered output to the clipboard.
    pub copy_to_clipboard: bool,
}

impl Config {
    /// All fields empty, false or absent, and the color mode `Auto`.
    pub open spec fn is_default(&self) -> bool {
        &&& self.root_path@.len() == 0
        &&& self.explicit_files@.len() == 0
        &&& !self.tree_only
        &&& !self.files_only
        &&& self.include_globs@.len() == 0
        &&& self.include_exts@.len() == 0
        &&& self.exclude_globs@.len() == 0
        &&& self.exclude_exts@.len() == 0
        &&& self.exclude_dirs@.len() == 0
        &&& self.max_size_bytes is None
        &&& self.max_files is None
        &&& self.max_depth is None
        &&& !self.follow_symlinks
        &&& !self.relative_paths
        &&& !self.absolute_paths
        &&& !self.show_version
        &&& self.color_mode == ColorMode::Auto
        &&& !self.copy_to_clipboard
    }
}

impl Default for Config {
    fn default() -> (r: Config)
        ensures
            r.is_default(),
    {
        Config {
            root_path: String::new(),
            explicit_files: Vec::new(),
            tree_only: false,
            files_only: false,
            include_globs: Vec::new(),
            include_exts: Vec::new(),
            exclude_globs: Vec::new(),
            exclude_exts: Vec::new(),
            exclude_dirs: Vec::new(),
            max_size_bytes: None,
            max_files: None,
            max_depth: None,
            follow_symlinks: false,
            relative_paths: false,
            absolute_paths: false,
            show_version: false,
            color_mode: ColorMode::Auto,
            copy_to_clipboard: false,
        }
    }
}

/// The texts of a vector of strings.
pub open spec fn strings_view(v: Seq<String>) -> Seq<Seq<char>> {
    v.map_values(|s: String| s@)
}

/// Directory exclusion rules: basenames that match anywhere, and exact
/// root-relative directory paths.
#[derive(Debug, Clone)]
pub struct ExcludeDirRules {
    basename_rules: Vec<String>,
    exact_path_rules: Vec<String>,
}

/// Why an exclude-dir value is refused.
#[derive(Debug, Clone, Copy, PartialEq, Eq, Structural)]
pub enum ExcludeDirProblem {
    Empty,
    Dot,
    DotDot,
    Absolute,
    DotSegment,
    DotDotSegment,
    RootOnly,
}

/// What an exclude-dir value stands for: a basename or an exact path.
pub enum ExcludeDirRule {
    Basename(String),
    ExactPath(String),
}

/// The text after `invalid exclude-dir value <value>: ` for each problem.
pub open spec fn problem_reason(p: ExcludeDirProblem) -> Seq<char> {
    match p {
        ExcludeDirProblem::Empty => "value cannot be empty"@,
        ExcludeDirProblem::Dot => "'.' is not allowed"@,
        ExcludeDirProblem::DotDot => "'..' is not allowed"@,
        ExcludeDirProblem::Absolute => "absolute paths are not allowed"@,
        ExcludeDirProblem::DotSegment => "'.' segments are not allowed"@,
        ExcludeDirProblem::DotDotSegment => "'..' segments are not allowed"@,
        ExcludeDirProblem::RootOnly => "path cannot resolve to the root directory"@,
    }
}

/// The error message for a refused exclude-dir value.
pub open spec fn exclude_dir_message(p: ExcludeDirProblem, raw: Seq<char>) -> Seq<char> {
    if p == ExcludeDirProblem::Empty {
        "invalid exclude-dir value \"\": value cannot be empty"@
    } else {
        "invalid exclude-dir value "@ + debug_quoted(raw) + ": "@ + problem_reason(p)
    }
}

/// Backslashes turned into slashes.
pub open spec fn slashes(s: Seq<char>) -> Seq<char> {
    s.map_values(|c: char| if c == '\\' { '/' } else { c })
}

/// Reads the pieces of an exact path from the front: empty pieces are
/// skipped, the first `.` or `..` piece is an error.
pub open spec fn scan_exact(segs: Seq<Seq<char>>) -> Result<Seq<Seq<char>>, ExcludeDirProblem>
    decreases segs.len(),
{
    if segs.len() == 0 {
        Ok(Seq::empty())
    } else if segs[0].len() == 0 {
        scan_exact(segs.drop_first())
    } else if segs[0] == seq!['.'] {
        Err(ExcludeDirProblem::DotSegment)
    } else if segs[0] == seq!['.', '.'] {
        Err(ExcludeDirProblem::DotDotSegment)
    } else {
        match scan_exact(segs.drop_first()) {
            Ok(rest) => Ok(seq![segs[0]] + rest),
            Err(e) => Err(e),
        }
    }
}

/// The exact-path normalisation of an exclude-dir value that holds a separator.
pub open spec fn normalize_exact(raw: Seq<char>) -> Result<Seq<char>, ExcludeDirProblem> {
    if raw.len() > 0 && (raw[0] == '/' || raw[0] == '\\') {
        Err(ExcludeDirProblem::Absolute)
    } else {
        match scan_exact(split(slashes(raw), '/')) {
            Err(e) => Err(e),
            Ok(parts) => if parts.len() == 0 {
                Err(ExcludeDirProblem::RootOnly)
            } else {
                Ok(join(parts, '/'))
            },
        }
    }
}

pub open spec fn has_separator(raw: Seq<char>) -> bool {
    raw.contains('/') || raw.contains('\\')
}

/// How one exclude-dir value is read: `Ok((true, p))` is an exact path `p`,
/// `Ok((false, n))` a basename `n`.
pub open spec fn parse_rule(raw: Seq<char>) -> Result<(bool, Seq<char>), ExcludeDirProblem> {
    if raw.len() == 0 {
        Err(ExcludeDirProblem::Empty)
    } else if has_separator(raw) {
        match normalize_exact(raw) {
            Ok(p) => Ok((true, p)),
            Err(e) => Err(e),
        }
    } else if raw == seq!['.'] {
        Err(ExcludeDirProblem::Dot)
    } else if raw == seq!['.', '.'] {
        Err(ExcludeDirProblem::DotDot)
    } else {
        Ok((false, raw))
    }
}

/// The rule sets built from the values, or the first refused value with its problem.
pub open spec fn build_rules(values: Seq<Seq<char>>) -> Result<
    (Set<Seq<char>>, Set<Seq<char>>),
    (Seq<char>, ExcludeDirProblem),
>
    decreases values.len(),
{
    if values.len() == 0 {
        Ok((Set::empty(), Set::empty()))
    } else {
        match build_rules(values.drop_last()) {
            Err(e) => Err(e),
            Ok((names, paths)) => match parse_rule(values.last()) {
                Err(p) => Err((values.last(), p)),
                Ok((true, p)) => Ok((names, paths.insert(p))),
                Ok((false, n)) => Ok((names.insert(n), paths)),
            },
        }
    }
}

/// Reads the pieces of a relative directory path: empty and `.` pieces are
/// skipped, a `..` piece makes the path unusable.
pub open spec fn scan_relative(segs: Seq<Seq<char>>) -> Option<Seq<Seq<char>>>
    decreases segs.len(),
{
    if segs.len() == 0 {
        Some(Seq::empty())
    } else if segs[0].len() == 0 || segs[0] == seq!['.'] {
        scan_relative(segs.drop_first())
    } else if segs[0] == seq!['.', '.'] {
        None
    } else {
        match scan_relative(segs.drop_first()) {
            Some(rest) => Some(seq![segs[0]] + rest),
            None => None,
        }
    }
}

/// The normal components of a relative path joined by `/`; `None` for an
/// absolute path, a path with `..`, or one with no normal component.
pub open spec fn normalize_relative(s: Seq<char>) -> Option<Seq<char>> {
    if is_absolute(s) {
        None
    } else {
        match scan_relative(split(s, '/')) {
            None => None,
            Some(parts) => if parts.len() == 0 {
                None
            } else {
                Some(join(parts, '/'))
            },
        }
    }
}

/// The directory basenames that are always excluded.
pub open spec fn default_exclude_names() -> Seq<Seq<char>> {
    seq![".git"@, ".hg"@, ".svn"@, ".idea"@, ".vscode"@, "node_modules"@, "__pycache__"@, ".venv"@]
}

pub(crate) fn contains_text(v: &Vec<String>, s: &[char]) -> (r: bool)
    ensures
        r == strings_view(v@).contains(s@),
{
    let mut i: usize = 0;
    while i < v.len()
        invariant
            i <= v@.len(),
            forall|j: int| 0 <= j < i ==> v@[j]@ != s@,
        decreases v@.len() - i,
    {
        let t = chars_of(v[i].as_str());
        if chars_eq(t.as_slice(), s) {
            assert(strings_view(v@)[i as int] == s@);
            return true;
        }
        i = i + 1;
    }
    assert forall|j: int| 0 <= j < strings_view(v@).len() implies strings_view(v@)[j] != s@ by {
        assert(v@[j]@ != s@);
    }
    false
}

impl ExcludeDirRules {
    /// The basenames that exclude a directory wherever it is.
    pub closed spec fn basenames(&self) -> Set<Seq<char>> {
        strings_view(self.basename_rules@).to_set()
    }

    /// The exact root-relative paths that exclude a directory.
    pub closed spec fn exact_paths(&self) -> Set<Seq<char>> {
        strings_view(self.exact_path_rules@).to_set()
    }

    /// No rules.
    pub fn new() -> (r: ExcludeDirRules)
        ensures
            r.basenames() == Set::<Seq<char>>::empty(),
            r.exact_paths() == Set::<Seq<char>>::empty(),
    {
        let r = ExcludeDirRules { basename_rules: Vec::new(), exact_path_rules: Vec::new() };
        assert(r.basenames() =~= Set::<Seq<char>>::empty());
        assert(r.exact_paths() =~= Set::<Seq<char>>::empty());
        r
    }

    /// Adds basename rules.
    pub fn extend_basenames(&mut self, values: Vec<String>)
        ensures
            final(self).basenames() == old(self).basenames() + strings_view(values@).to_set(),
            final(self).exact_paths() == old(self).exact_paths(),
    {
        let mut i: usize = 0;
        let ghost start = self.basename_rules@;
        while i < values.len()
            invariant
                i <= values@.len(),
                self.exact_path_rules@ == old(self).exact_path_rules@,
                self.basename_rules@ == old(self).basename_rules@ + values@.take(i as int),
            decreases values@.len() - i,
        {
            let v = values[i].clone();
            self.basename_rules.push(v);
            assert(values@.take(i + 1) =~= values@.take(i as int).push(values@[i as int]));
            assert(self.basename_rules@ =~= old(self).basename_rules@ + values@.take(i + 1));
            i = i + 1;
        }
        assert(values@.take(values@.len() as int) =~= values@);
        assert(strings_view(self.basename_rules@) =~= strings_view(old(self).basename_rules@)
            + strings_view(values@));
        proof {
            lemma_concat_to_set(strings_view(old(self).basename_rules@), strings_view(values@));
        }
    }

    /// Whether the rules exclude the directory at root-relative path `p`: its
    /// file name is a basename rule, or its normal components joined by `/`
    /// are an exact-path rule.
    pub open spec fn excludes_dir(&self, p: Seq<char>) -> bool {
        ||| (file_name(p) matches Some(n) && self.basenames().contains(n))
        ||| (normalize_relative(p) matches Some(q) && self.exact_paths().contains(q))
    }

    /// Whether a root-relative directory path is excluded.
    pub fn matches_dir(&self, rel_path: &str) -> (r: bool)
        ensures
            r == self.excludes_dir(rel_path@),
    {
        let chars = chars_of(rel_path);
        let by_name = match file_name_chars(chars.as_slice()) {
            Some(n) => contains_text(&self.basename_rules, n.as_slice()),
            None => false,
        };
        if by_name {
            return true;
        }
        match normalize_relative_chars(chars.as_slice()) {
            Some(p) => contains_text(&self.exact_path_rules, p.as_slice()),
            None => false,
        }
    }

    fn add_basename(&mut self, name: String)
        ensures
            final(self).basenames() == old(self).basenames().insert(name@),
            final(self).exact_paths() == old(self).exact_paths(),
    {
        let ghost before = strings_view(self.basename_rules@);
        self.basename_rules.push(name);
        assert(strings_view(self.basename_rules@) =~= before.push(name@));
        proof {
            lemma_push_to_set(before, name@);
        }
    }

    fn add_exact_path(&mut self, path: String)
        ensures
            final(self).exact_paths() == old(self).exact_paths().insert(path@),
            final(self).basenames() == old(self).basenames(),
    {
        let ghost before = strings_view(self.exact_path_rules@);
        self.exact_path_rules.push(path);
        assert(strings_view(self.exact_path_rules@) =~= before.push(path@));
        proof {
            lemma_push_to_set(before, path@);
        }
    }
}

impl Default for ExcludeDirRules {
    fn default() -> (r: ExcludeDirRules)
        ensures
            r.basenames() == Set::<Seq<char>>::empty(),
            r.exact_paths() == Set::<Seq<char>>::empty(),
    {
        ExcludeDirRules::new()
    }
}

proof fn lemma_concat_to_set(a: Seq<Seq<char>>, b: Seq<Seq<char>>)
    ensures
        (a + b).to_set() == a.to_set() + b.to_set(),
{
    assert forall|x: Seq<char>| (a + b).to_set().contains(x) <==> (a.to_set() + b.to_set()).contains(
        x,
    ) by {
        if (a + b).contains(x) {
            let k = choose|k: int| 0 <= k < (a + b).len() && (a + b)[k] == x;
            if k < a.len() {
                assert(a[k] == x);
                assert(a.contains(x));
            } else {
                assert(b[k - a.len()] == x);
                assert(b.contains(x));
            }
        }
        if a.contains(x) {
            let k = choose|k: int| 0 <= k < a.len() && a[k] == x;
            assert((a + b)[k] == x);
        }
        if b.contains(x) {
            let k = choose|k: int| 0 <= k < b.len() && b[k] == x;
            assert((a + b)[k + a.len()] == x);
        }
    }
    assert((a + b).to_set() =~= a.to_set() + b.to_set());
}

proof fn lemma_push_to_set(s: Seq<Seq<char>>, x: Seq<char>)
    ensures
        s.push(x).to_set() == s.to_set().insert(x),
{
    assert forall|y: Seq<char>| s.push(x).to_set().contains(y) <==> s.to_set().insert(x).contains(
        y,
    ) by {
        if s.push(x).contains(y) {
            let k = choose|k: int| 0 <= k < s.push(x).len() && s.push(x)[k] == y;
            if k < s.len() {
                assert(s[k] == y);
            }
        }
        if s.contains(y) {
            let k = choose|k: int| 0 <= k < s.len() && s[k] == y;
            assert(s.push(x)[k] == y);
        }
        if y == x {
            assert(s.push(x)[s.len() as int] == y);
        }
    }
    assert(s.push(x).to_set() =~= s.to_set().insert(x));
}

pub(crate) fn is_dot(s: &[char]) -> (r: bool)
    ensures
        r == (s@ == seq!['.']),
{
    let d: [char; 1] = ['.'];
    assert(d@ =~= seq!['.']);
    chars_eq(s, &d)
}

fn is_dotdot(s: &[char]) -> (r: bool)
    ensures
        r == (s@ == seq!['.', '.']),
{
    let d: [char; 2] = ['.', '.'];
    assert(d@ =~= seq!['.', '.']);
    chars_eq(s, &d)
}

proof fn lemma_scan_relative_step(segs: Seq<Seq<char>>, i: int)
    requires
        0 <= i < segs.len(),
    ensures
        scan_relative(segs.skip(i)) == (if segs[i].len() == 0 || segs[i] == seq!['.'] {
            scan_relative(segs.skip(i + 1))
        } else if segs[i] == seq!['.', '.'] {
            None
        } else {
            match scan_relative(segs.skip(i + 1)) {
                Some(rest) => Some(seq![segs[i]] + rest),
                None => None,
            }
        }),
{
    assert(segs.skip(i).drop_first() =~= segs.skip(i + 1));
    assert(segs.skip(i)[0] == segs[i]);
}

/// `normalize_relative` on characters.
pub fn normalize_relative_chars(s: &[char]) -> (r: Option<Vec<char>>)
    ensures
        match r {
            Some(v) => normalize_relative(s@) == Some(v@),
            None => normalize_relative(s@) is None,
        },
{
    if s.len() > 0 && s[0] == '/' {
        return None;
    }
    let segs = split_chars(s, '/');
    let ghost sv = split(s@, '/');
    let mut parts: Vec<Vec<char>> = Vec::new();
    let mut i: usize = 0;
    assert(sv.skip(0) =~= sv);
    while i < segs.len()
        invariant
            i <= segs@.len(),
            !is_absolute(s@),
            sv == split(s@, '/'),
            views(segs@) == sv,
            scan_relative(sv) == (match scan_relative(sv.skip(i as int)) {
                Some(rest) => Some(views(parts@) + rest),
                None => None::<Seq<Seq<char>>>,
            }),
        decreases segs@.len() - i,
    {
        proof {
            lemma_scan_relative_step(sv, i as int);
        }
        let seg = &segs[i];
        assert(seg@ == sv[i as int]);
        if seg.len() == 0 || is_dot(seg.as_slice()) {
        } else if is_dotdot(seg.as_slice()) {
            assert(scan_relative(sv.skip(i as int)) is None);
            assert(scan_relative(sv) is None);
            return None;
        } else {
            let ghost before = views(parts@);
            parts.push(seg.clone());
            proof {
                assert(views(parts@) =~= before.push(sv[i as int]));
                assert forall|rest: Seq<Seq<char>>|
                    #![auto]
                    before + (seq![sv[i as int]] + rest) == views(parts@) + rest by {
                    assert(before + (seq![sv[i as int]] + rest) =~= views(parts@) + rest);
                }
            }
        }
        i = i + 1;
    }
    assert(sv.skip(segs@.len() as int) =~= Seq::<Seq<char>>::empty());
    assert(views(parts@) + Seq::<Seq<char>>::empty() =~= views(parts@));
    if parts.len() == 0 {
        None
    } else {
        Some(join_chars(&parts, '/'))
    }
}

proof fn lemma_scan_exact_step(segs: Seq<Seq<char>>, i: int)
    requires
        0 <= i < segs.len(),
    ensures
        scan_exact(segs.skip(i)) == (if segs[i].len() == 0 {
            scan_exact(segs.skip(i + 1))
        } else if segs[i] == seq!['.'] {
            Err(ExcludeDirProblem::DotSegment)
        } else if segs[i] == seq!['.', '.'] {
            Err(ExcludeDirProblem::DotDotSegment)
        } else {
            match scan_exact(segs.skip(i + 1)) {
                Ok(rest) => Ok(seq![segs[i]] + rest),
                Err(e) => Err(e),
            }
        }),
{
    assert(segs.skip(i).drop_first() =~= segs.skip(i + 1));
    assert(segs.skip(i)[0] == segs[i]);
}

fn slashes_chars(s: &[char]) -> (r: Vec<char>)
    ensures
        r@ == slashes(s@),
{
    let mut out: Vec<char> = Vec::new();
    let mut i: usize = 0;
    while i < s.len()
        invariant
            i <= s@.len(),
            out@ == slashes(s@.take(i as int)),
        decreases s@.len() - i,
    {
        let c = s[i];
        out.push(if c == '\\' { '/' } else { c });
        assert(slashes(s@.take(i + 1)) =~= slashes(s@.take(i as int)).push(
            if c == '\\' { '/' } else { c },
        ));
        i = i + 1;
    }
    assert(s@.take(s@.len() as int) =~= s@);
    out
}

fn normalize_exact_chars(raw: &[char]) -> (r: Result<Vec<char>, ExcludeDirProblem>)
    ensures
        match r {
            Ok(v) => normalize_exact(raw@) == Ok::<Seq<char>, ExcludeDirProblem>(v@),
            Err(e) => normalize_exact(raw@) == Err::<Seq<char>, ExcludeDirProblem>(e),
        },
{
    if raw.len() > 0 && (raw[0] == '/' || raw[0] == '\\') {
        return Err(ExcludeDirProblem::Absolute);
    }
    let replaced = slashes_chars(raw);
    let segs = split_chars(replaced.as_slice(), '/');
    let ghost sv = split(slashes(raw@), '/');
    let mut parts: Vec<Vec<char>> = Vec::new();
    let mut i: usize = 0;
    assert(sv.skip(0) =~= sv);
    while i < segs.len()
        invariant
            i <= segs@.len(),
            !(raw@.len() > 0 && (raw@[0] == '/' || raw@[0] == '\\')),
            sv == split(slashes(raw@), '/'),
            views(segs@) == sv,
            scan_exact(sv) == (match scan_exact(sv.skip(i as int)) {
                Ok(rest) => Ok(views(parts@) + rest),
                Err(e) => Err::<Seq<Seq<char>>, ExcludeDirProblem>(e),
            }),
        decreases segs@.len() - i,
    {
        proof {
            lemma_scan_exact_step(sv, i as int);
        }
        let seg = &segs[i];
        assert(seg@ == sv[i as int]);
        if seg.len() == 0 {
        } else if is_dot(seg.as_slice()) {
            assert(scan_exact(sv.skip(i as int)) == Err::<Seq<Seq<char>>, ExcludeDirProblem>(ExcludeDirProblem::DotSegment));
            assert(scan_exact(sv) == Err::<Seq<Seq<char>>, ExcludeDirProblem>(ExcludeDirProblem::DotSegment));
            return Err(ExcludeDirProblem::DotSegment);
        } else if is_dotdot(seg.as_slice()) {
            assert(scan_exact(sv) == Err::<Seq<Seq<char>>, ExcludeDirProblem>(ExcludeDirProblem::DotDotSegment));
            return Err(ExcludeDirProblem::DotDotSegment);
        } else {
            let ghost before = views(parts@);
            parts.push(seg.clone());
            proof {
                assert(views(parts@) =~= before.push(sv[i as int]));
                assert forall|rest: Seq<Seq<char>>|
                    #![auto]
                    before + (seq![sv[i as int]] + rest) == views(parts@) + rest by {
                    assert(before + (seq![sv[i as int]] + rest) =~= views(parts@) + rest);
                }
            }
        }
        i = i + 1;
    }
    assert(sv.skip(segs@.len() as int) =~= Seq::<Seq<char>>::empty());
    assert(views(parts@) + Seq::<Seq<char>>::empty() =~= views(parts@));
    if parts.len() == 0 {
        Err(ExcludeDirProblem::RootOnly)
    } else {
        Ok(join_chars(&parts, '/'))
    }
}

fn has_separator_chars(raw: &[char]) -> (r: bool)
    ensures
        r == has_separator(raw@),
{
    let mut i: usize = 0;
    while i < raw.len()
        invariant
            i <= raw@.len(),
            forall|j: int| 0 <= j < i ==> raw@[j] != '/' && raw@[j] != '\\',
        decreases raw@.len() - i,
    {
        if raw[i] == '/' || raw[i] == '\\' {
            assert(raw@[i as int] == '/' ==> raw@.contains('/'));
            assert(raw@[i as int] == '\\' ==> raw@.contains('\\'));
            return true;
        }
        i = i + 1;
    }
    false
}

/// Reads one exclude-dir value.
pub fn parse_exclude_dir_rule(raw: &str) -> (r: Result<ExcludeDirRule, ExcludeDirProblem>)
    ensures
        match r {
            Ok(ExcludeDirRule::Basename(n)) => parse_rule(raw@) == Ok::<
                (bool, Seq<char>),
                ExcludeDirProblem,
            >((false, n@)),
            Ok(ExcludeDirRule::ExactPath(p)) => parse_rule(raw@) == Ok::<
                (bool, Seq<char>),
                ExcludeDirProblem,
            >((true, p@)),
            Err(e) => parse_rule(raw@) == Err::<(bool, Seq<char>), ExcludeDirProblem>(e),
        },
{
    let chars = chars_of(raw);
    if chars.len() == 0 {
        return Err(ExcludeDirProblem::Empty);
    }
    if has_separator_chars(chars.as_slice()) {
        return match normalize_exact_chars(chars.as_slice()) {
            Ok(p) => Ok(ExcludeDirRule::ExactPath(string_from_chars(p.as_slice()))),
            Err(e) => Err(e),
        };
    }
    if is_dot(chars.as_slice()) {
        return Err(ExcludeDirProblem::Dot);
    }
    if is_dotdot(chars.as_slice()) {
        return Err(ExcludeDirProblem::DotDot);
    }
    Ok(ExcludeDirRule::Basename(string_from_chars(chars.as_slice())))
}

/// The error message for a refused exclude-dir value.
pub fn exclude_dir_error(problem: ExcludeDirProblem, raw: &str) -> (r: String)
    ensures
        r@ == exclude_dir_message(problem, raw@),
{
    if problem == ExcludeDirProblem::Empty {
        return String::from_str("invalid exclude-dir value \"\": value cannot be empty");
    }
    let mut msg = String::from_str("invalid exclude-dir value ");
    let q = debug_quote(raw);
    msg.append(q.as_str());
    msg.append(": ");
    let reason = match problem {
        ExcludeDirProblem::Empty => "value cannot be empty",
        ExcludeDirProblem::Dot => "'.' is not allowed",
        ExcludeDirProblem::DotDot => "'..' is not allowed",
        ExcludeDirProblem::Absolute => "absolute paths are not allowed",
        ExcludeDirProblem::DotSegment => "'.' segments are not allowed",
        ExcludeDirProblem::DotDotSegment => "'..' segments are not allowed",
        ExcludeDirProblem::RootOnly => "path cannot resolve to the root directory",
    };
    msg.append(reason);
    msg
}

/// Normalises an exact-path exclude-dir value: backslashes read as `/`,
/// empty pieces dropped, the rest joined by `/`; absolute values, `.` or
/// `..` pieces and values with no piece left are refused with their message.
pub fn normalize_exact_dir_path(raw: &str) -> (r: Result<String, String>)
    ensures
        match normalize_exact(raw@) {
            Ok(p) => r matches Ok(s) && s@ == p,
            Err(e) => r matches Err(m) && m@ == exclude_dir_message(e, raw@),
        },
{
    let chars = chars_of(raw);
    match normalize_exact_chars(chars.as_slice()) {
        Ok(p) => Ok(string_from_chars(p.as_slice())),
        Err(e) => Err(exclude_dir_error(e, raw)),
    }
}

/// Builds the exclusion rules from exclude-dir values. Values with a `/` or
/// `\` are exact root-relative paths; others are basenames. The first
/// refused value gives the error.
pub fn build_exclude_dir_rules(values: &[String]) -> (r: Result<ExcludeDirRules, String>)
    ensures
        match build_rules(strings_view(values@)) {
            Ok((names, paths)) => r matches Ok(rules) && rules.basenames() == names
                && rules.exact_paths() == paths,
            Err((raw, p)) => r matches Err(msg) && msg@ == exclude_dir_message(p, raw),
        },
{
    let mut rules = ExcludeDirRules::new();
    let mut i: usize = 0;
    while i < values.len()
        invariant
            i <= values@.len(),
            build_rules(strings_view(values@).take(i as int)) == Ok::<
                (Set<Seq<char>>, Set<Seq<char>>),
                (Seq<char>, ExcludeDirProblem),
            >((rules.basenames(), rules.exact_paths())),
        decreases values@.len() - i,
    {
        let value = &values[i];
        assert(strings_view(values@).take(i + 1).drop_last() =~= strings_view(values@).take(
            i as int,
        ));
        assert(strings_view(values@).take(i + 1).last() == value@);
        match parse_exclude_dir_rule(value.as_str()) {
            Ok(ExcludeDirRule::Basename(n)) => {
                rules.add_basename(n);
            },
            Ok(ExcludeDirRule::ExactPath(p)) => {
                rules.add_exact_path(p);
            },
            Err(e) => {
                proof {
                    lemma_build_rules_error_prefix(strings_view(values@), i as int + 1);
                }
                return Err(exclude_dir_error(e, value.as_str()));
            },
        }
        i = i + 1;
    }
    assert(strings_view(values@).take(values@.len() as int) =~= strings_view(values@));
    Ok(rules)
}

/// An error on a prefix of the values is the error on all of them.
proof fn lemma_build_rules_error_prefix(values: Seq<Seq<char>>, k: int)
    requires
        0 <= k <= values.len(),
        build_rules(values.take(k)) is Err,
    ensures
        build_rules(values) == build_rules(values.take(k)),
    decreases values.len() - k,
{
    if k < values.len() {
        assert(values.take(k + 1).drop_last() =~= values.take(k));
        lemma_build_rules_error_prefix(values, k + 1);
    } else {
        assert(values.take(k) =~= values);
    }
}

/// The directory basenames that are always excluded.
pub fn default_excludes() -> (r: Vec<String>)
    ensures
        strings_view(r@) == default_exclude_names(),
{
    let mut v: Vec<String> = Vec::new();
    v.push(String::from_str(".git"));
    v.push(String::from_str(".hg"));
    v.push(String::from_str(".svn"));
    v.push(String::from_str(".idea"));
    v.push(String::from_str(".vscode"));
    v.push(String::from_str("node_modules"));
    v.push(String::from_str("__pycache__"));
    v.push(String::from_str(".venv"));
    assert(strings_view(v@) =~= default_exclude_names());
    v
}


proof fn lemma_scan_exact_parts(segs: Seq<Seq<char>>)
    requires
        scan_exact(segs) is Ok,
    ensures
        forall|i: int|
            0 <= i < scan_exact(segs)->Ok_0.len() ==> {
                let q = #[trigger] scan_exact(segs)->Ok_0[i];
                &&& q.len() > 0
                &&& q != seq!['.']
                &&& q != seq!['.', '.']
                &&& segs.contains(q)
            },
    decreases segs.len(),
{
    if segs.len() > 0 {
        lemma_scan_exact_parts(segs.drop_first());
        let parts = scan_exact(segs)->Ok_0;
        let rest = scan_exact(segs.drop_first())->Ok_0;
        assert forall|i: int| 0 <= i < parts.len() implies {
            let q = #[trigger] parts[i];
            &&& q.len() > 0
            &&& q != seq!['.']
            &&& q != seq!['.', '.']
            &&& segs.contains(q)
        } by {
            if segs[0].len() == 0 {
                assert(parts == rest);
                let k = choose|k: int| 0 <= k < segs.drop_first().len() && segs.drop_first()[k] == parts[i];
                assert(segs[k + 1] == parts[i]);
            } else if i == 0 {
                assert(parts[0] == segs[0]);
            } else {
                assert(parts[i] == rest[i - 1]);
                let k = choose|k: int| 0 <= k < segs.drop_first().len() && segs.drop_first()[k] == rest[i - 1];
                assert(segs[k + 1] == parts[i]);
            }
        }
    }
}

proof fn lemma_scan_relative_clean(ps: Seq<Seq<char>>)
    requires
        forall|i: int|
            0 <= i < ps.len() ==> (#[trigger] ps[i]).len() > 0 && ps[i] != seq!['.'] && ps[i]
                != seq!['.', '.'],
    ensures
        scan_relative(ps) == Some(ps),
    decreases ps.len(),
{
    if ps.len() > 0 {
        assert(ps[0].len() > 0 && ps[0] != seq!['.'] && ps[0] != seq!['.', '.']);
        assert forall|i: int| 0 <= i < ps.drop_first().len() implies (#[trigger] ps.drop_first()[i]).len()
            > 0 && ps.drop_first()[i] != seq!['.'] && ps.drop_first()[i] != seq!['.', '.'] by {
            assert(ps.drop_first()[i] == ps[i + 1]);
        }
        lemma_scan_relative_clean(ps.drop_first());
        assert(seq![ps[0]] + ps.drop_first() =~= ps);
    }
}

/// Law: the path an exact exclude-dir value stands for is already normal:
/// normalising it as a walked directory path gives it back, so the rule
/// excludes the directory at that root-relative path.
pub proof fn law_exact_rule_matches_its_path(raw: Seq<char>, q: Seq<char>, rules: ExcludeDirRules)
    requires
        normalize_exact(raw) == Ok::<Seq<char>, ExcludeDirProblem>(q),
        rules.exact_paths().contains(q),
    ensures
        normalize_relative(q) == Some(q),
        rules.excludes_dir(q),
{
    let segs = split(slashes(raw), '/');
    let parts = scan_exact(segs)->Ok_0;
    lemma_scan_exact_parts(segs);
    lemma_split_no_sep(slashes(raw), '/');
    assert forall|i: int| 0 <= i < parts.len() implies !(#[trigger] parts[i]).contains('/') by {
        let k = choose|k: int| 0 <= k < segs.len() && segs[k] == parts[i];
        assert(!segs[k].contains('/'));
    }
    assert(q == join(parts, '/'));
    lemma_split_join(parts, '/');
    lemma_join_starts(parts, '/');
    assert(parts[0].len() > 0);
    assert(parts[0][0] != '/') by {
        if parts[0][0] == '/' {
            assert(parts[0].contains('/'));
        }
    }
    assert(q[0] == parts[0][0]);
    assert(!is_absolute(q));
    lemma_scan_relative_clean(parts);
}

/// Law: every exact-path value among the exclude-dir values ends up in the
/// built rules, and the rules then exclude the directory at that path.
pub proof fn law_path_values_exclude_their_directory(
    values: Seq<Seq<char>>,
    i: int,
    q: Seq<char>,
    rules: ExcludeDirRules,
)
    requires
        0 <= i < values.len(),
        build_rules(values) matches Ok((names, paths)) && rules.exact_paths() == paths,
        parse_rule(values[i]) == Ok::<(bool, Seq<char>), ExcludeDirProblem>((true, q)),
    ensures
        rules.exact_paths().contains(q),
        rules.excludes_dir(q),
{
    lemma_rule_in_paths(values, i, q);
    assert(normalize_exact(values[i]) == Ok::<Seq<char>, ExcludeDirProblem>(q));
    law_exact_rule_matches_its_path(values[i], q, rules);
}

proof fn lemma_rule_in_paths(values: Seq<Seq<char>>, i: int, q: Seq<char>)
    requires
        0 <= i < values.len(),
        build_rules(values) is Ok,
        parse_rule(values[i]) == Ok::<(bool, Seq<char>), ExcludeDirProblem>((true, q)),
    ensures
        build_rules(values)->Ok_0.1.contains(q),
    decreases values.len(),
{
    if i < values.len() - 1 {
        assert(values.drop_last()[i] == values[i]);
        lemma_rule_in_paths(values.drop_last(), i, q);
    }
}


/// Whether value `i` is read as the basename `n`.
pub open spec fn names_basename(values: Seq<Seq<char>>, n: Seq<char>) -> bool {
    exists|i: int| 0 <= i < values.len() && parse_rule(#[trigger] values[i]) == Ok::<
        (bool, Seq<char>),
        ExcludeDirProblem,
    >((false, n))
}

/// Whether some value is read as the exact path `q`.
pub open spec fn names_path(values: Seq<Seq<char>>, q: Seq<char>) -> bool {
    exists|i: int| 0 <= i < values.len() && parse_rule(#[trigger] values[i]) == Ok::<
        (bool, Seq<char>),
        ExcludeDirProblem,
    >((true, q))
}

/// Law: the rules build exactly when every value is accepted, and then the
/// basename rules are the values read as basenames and the exact-path rules
/// the values read as paths.
pub proof fn law_rules_of_values(values: Seq<Seq<char>>)
    ensures
        (build_rules(values) is Ok) == (forall|i: int|
            0 <= i < values.len() ==> parse_rule(#[trigger] values[i]) is Ok),
        build_rules(values) matches Ok((names, paths)) ==> (forall|n: Seq<char>|
            #[trigger] names.contains(n) <==> names_basename(values, n)) && (forall|q: Seq<char>|
            #[trigger] paths.contains(q) <==> names_path(values, q)),
    decreases values.len(),
{
    if values.len() > 0 {
        let dl = values.drop_last();
        let v = values.last();
        law_rules_of_values(dl);
        assert(values[values.len() - 1] == v);
        assert forall|i: int| 0 <= i < dl.len() implies #[trigger] dl[i] == values[i] by {}
        if build_rules(values) is Ok {
            assert forall|i: int| 0 <= i < values.len() implies parse_rule(#[trigger] values[i]) is Ok by {
                if i < dl.len() {
                    assert(dl[i] == values[i]);
                }
            }
            let (names, paths) = build_rules(values)->Ok_0;
            let (n0, p0) = build_rules(dl)->Ok_0;
            assert forall|n: Seq<char>| #[trigger] names.contains(n) <==> names_basename(values, n) by {
                if names.contains(n) {
                    if n0.contains(n) {
                        let i = choose|i: int| 0 <= i < dl.len() && parse_rule(#[trigger] dl[i]) == Ok::<
                            (bool, Seq<char>),
                            ExcludeDirProblem,
                        >((false, n));
                        assert(values[i] == dl[i]);
                    } else {
                        assert(parse_rule(values[values.len() - 1]) == Ok::<
                            (bool, Seq<char>),
                            ExcludeDirProblem,
                        >((false, n)));
                    }
                }
                if names_basename(values, n) {
                    let i = choose|i: int| 0 <= i < values.len() && parse_rule(#[trigger] values[i]) == Ok::<
                        (bool, Seq<char>),
                        ExcludeDirProblem,
                    >((false, n));
                    if i < dl.len() {
                        assert(dl[i] == values[i]);
                        assert(names_basename(dl, n));
                    }
                }
            }
            assert forall|q: Seq<char>| #[trigger] paths.contains(q) <==> names_path(values, q) by {
                if paths.contains(q) {
                    if p0.contains(q) {
                        let i = choose|i: int| 0 <= i < dl.len() && parse_rule(#[trigger] dl[i]) == Ok::<
                            (bool, Seq<char>),
                            ExcludeDirProblem,
                        >((true, q));
                        assert(values[i] == dl[i]);
                    } else {
                        assert(parse_rule(values[values.len() - 1]) == Ok::<
                            (bool, Seq<char>),
                            ExcludeDirProblem,
                        >((true, q)));
                    }
                }
                if names_path(values, q) {
                    let i = choose|i: int| 0 <= i < values.len() && parse_rule(#[trigger] values[i]) == Ok::<
                        (bool, Seq<char>),
                        ExcludeDirProblem,
                    >((true, q));
                    if i < dl.len() {
                        assert(dl[i] == values[i]);
                        assert(names_path(dl, q));
                    }
                }
            }
        } else {
            if build_rules(dl) is Ok {
                assert(parse_rule(values[values.len() - 1]) is Err);
            } else {
                let i = choose|i: int| 0 <= i < dl.len() && parse_rule(#[trigger] dl[i]) is Err;
                assert(values[i] == dl[i]);
            }
        }
    }
}


/// Law: the rules built from accepted values exclude a directory exactly
/// when its file name is one of the values without a separator, or its
/// normalised path is the normalised form of one of the values with one.
pub proof fn law_excludes_dir_from_values(values: Seq<Seq<char>>, rules: ExcludeDirRules, p: Seq<char>)
    requires
        build_rules(values) matches Ok((names, paths)) && rules.basenames() == names
            && rules.exact_paths() == paths,
    ensures
        rules.excludes_dir(p) == ((file_name(p) matches Some(n) && exists|i: int|
            0 <= i < values.len() && #[trigger] values[i] == n && !has_separator(n)) || (
        normalize_relative(p) matches Some(q) && exists|i: int|
            0 <= i < values.len() && has_separator(#[trigger] values[i]) && normalize_exact(
                values[i],
            ) == Ok::<Seq<char>, ExcludeDirProblem>(q))),
{
    law_rules_of_values(values);
    if let Some(n) = file_name(p) {
        if rules.basenames().contains(n) {
            let i = choose|i: int| 0 <= i < values.len() && parse_rule(#[trigger] values[i]) == Ok::<
                (bool, Seq<char>),
                ExcludeDirProblem,
            >((false, n));
            assert(values[i] == n && !has_separator(n));
        }
        if exists|i: int| 0 <= i < values.len() && #[trigger] values[i] == n && !has_separator(n) {
            let i = choose|i: int| 0 <= i < values.len() && #[trigger] values[i] == n && !has_separator(n);
            assert(parse_rule(values[i]) is Ok);
            assert(names_basename(values, n));
        }
    }
    if let Some(q) = normalize_relative(p) {
        if rules.exact_paths().contains(q) {
            let i = choose|i: int| 0 <= i < values.len() && parse_rule(#[trigger] values[i]) == Ok::<
                (bool, Seq<char>),
                ExcludeDirProblem,
            >((true, q));
            assert(has_separator(values[i]));
        }
        if exists|i: int|
            0 <= i < values.len() && has_separator(#[trigger] values[i]) && normalize_exact(values[i])
                == Ok::<Seq<char>, ExcludeDirProblem>(q) {
            let i = choose|i: int|
                0 <= i < values.len() && has_separator(#[trigger] values[i]) && normalize_exact(
                    values[i],
                ) == Ok::<Seq<char>, ExcludeDirProblem>(q);
            assert(parse_rule(values[i]) is Ok);
            assert(names_path(values, q));
        }
    }
}

/// Law: the rules do not depend on the order or repetition of the values:
/// values with the same set of texts are accepted alike and give the same
/// rule sets.
pub proof fn law_rules_order_free(v1: Seq<Seq<char>>, v2: Seq<Seq<char>>)
    requires
        v1.to_set() == v2.to_set(),
    ensures
        (build_rules(v1) is Ok) == (build_rules(v2) is Ok),
        build_rules(v1) is Ok ==> build_rules(v1) == build_rules(v2),
{
    law_rules_of_values(v1);
    law_rules_of_values(v2);
    assert forall|x: Seq<char>| v1.contains(x) <==> v2.contains(x) by {
        assert(v1.to_set().contains(x) == v1.contains(x));
        assert(v2.to_set().contains(x) == v2.contains(x));
    }
    if build_rules(v1) is Ok {
        lemma_all_accepted_same(v1, v2);
    }
    if build_rules(v2) is Ok {
        lemma_all_accepted_same(v2, v1);
    }
    if build_rules(v1) is Ok {
        let (n1, p1) = build_rules(v1)->Ok_0;
        let (n2, p2) = build_rules(v2)->Ok_0;
        assert forall|n: Seq<char>| names_basename(v1, n) <==> names_basename(v2, n) by {
            if names_basename(v1, n) {
                let i = choose|i: int| 0 <= i < v1.len() && parse_rule(#[trigger] v1[i]) == Ok::<
                    (bool, Seq<char>),
                    ExcludeDirProblem,
                >((false, n));
                assert(v1.contains(v1[i]));
                let j = choose|j: int| 0 <= j < v2.len() && v2[j] == v1[i];
                assert(parse_rule(v2[j]) == parse_rule(v1[i]));
            }
            if names_basename(v2, n) {
                let i = choose|i: int| 0 <= i < v2.len() && parse_rule(#[trigger] v2[i]) == Ok::<
                    (bool, Seq<char>),
                    ExcludeDirProblem,
                >((false, n));
                assert(v2.contains(v2[i]));
                let j = choose|j: int| 0 <= j < v1.len() && v1[j] == v2[i];
                assert(parse_rule(v1[j]) == parse_rule(v2[i]));
            }
        }
        assert forall|q: Seq<char>| names_path(v1, q) <==> names_path(v2, q) by {
            if names_path(v1, q) {
                let i = choose|i: int| 0 <= i < v1.len() && parse_rule(#[trigger] v1[i]) == Ok::<
                    (bool, Seq<char>),
                    ExcludeDirProblem,
                >((true, q));
                assert(v1.contains(v1[i]));
                let j = choose|j: int| 0 <= j < v2.len() && v2[j] == v1[i];
                assert(parse_rule(v2[j]) == parse_rule(v1[i]));
            }
            if names_path(v2, q) {
                let i = choose|i: int| 0 <= i < v2.len() && parse_rule(#[trigger] v2[i]) == Ok::<
                    (bool, Seq<char>),
                    ExcludeDirProblem,
                >((true, q));
                assert(v2.contains(v2[i]));
                let j = choose|j: int| 0 <= j < v1.len() && v1[j] == v2[i];
                assert(parse_rule(v1[j]) == parse_rule(v2[i]));
            }
        }
        assert(n1 =~= n2);
        assert(p1 =~= p2);
    }
}

proof fn lemma_all_accepted_same(v1: Seq<Seq<char>>, v2: Seq<Seq<char>>)
    requires
        forall|x: Seq<char>| v1.contains(x) <==> v2.contains(x),
        forall|i: int| 0 <= i < v1.len() ==> parse_rule(#[trigger] v1[i]) is Ok,
    ensures
        forall|i: int| 0 <= i < v2.len() ==> parse_rule(#[trigger] v2[i]) is Ok,
{
    assert forall|i: int| 0 <= i < v2.len() implies parse_rule(#[trigger] v2[i]) is Ok by {
        assert(v2.contains(v2[i]));
        let j = choose|j: int| 0 <= j < v1.len() && v1[j] == v2[i];
        assert(parse_rule(v1[j]) is Ok);
    }
}


proof fn lemma_scan_exact_clean(ps: Seq<Seq<char>>)
    requires
        forall|i: int|
            0 <= i < ps.len() ==> (#[trigger] ps[i]).len() > 0 && ps[i] != seq!['.'] && ps[i]
                != seq!['.', '.'],
    ensures
        scan_exact(ps) == Ok::<Seq<Seq<char>>, ExcludeDirProblem>(ps),
    decreases ps.len(),
{
    if ps.len() > 0 {
        assert(ps[0].len() > 0 && ps[0] != seq!['.'] && ps[0] != seq!['.', '.']);
        assert forall|i: int| 0 <= i < ps.drop_first().len() implies (#[trigger] ps.drop_first()[i]).len()
            > 0 && ps.drop_first()[i] != seq!['.'] && ps.drop_first()[i] != seq!['.', '.'] by {
            assert(ps.drop_first()[i] == ps[i + 1]);
        }
        lemma_scan_exact_clean(ps.drop_first());
        assert(seq![ps[0]] + ps.drop_first() =~= ps);
        assert(scan_exact(ps) == Ok::<Seq<Seq<char>>, ExcludeDirProblem>(
            seq![ps[0]] + ps.drop_first(),
        ));
    } else {
        assert(ps =~= Seq::<Seq<char>>::empty());
    }
}

pub open spec fn nonempty_piece(s: Seq<char>) -> bool {
    s.len() > 0
}

proof fn lemma_scan_exact_filter(segs: Seq<Seq<char>>)
    requires
        scan_exact(segs) is Ok,
    ensures
        scan_exact(segs)->Ok_0 == segs.filter(|s: Seq<char>| nonempty_piece(s)),
    decreases segs.len(),
{
    let pred = |s: Seq<char>| nonempty_piece(s);
    if segs.len() == 0 {
        reveal(Seq::filter);
    } else {
        lemma_scan_exact_filter(segs.drop_first());
        assert(segs =~= seq![segs[0]] + segs.drop_first());
        Seq::filter_distributes_over_add(seq![segs[0]], segs.drop_first(), pred);
        reveal_with_fuel(Seq::filter, 2);
        assert(seq![segs[0]].drop_last() =~= Seq::<Seq<char>>::empty());
        if segs[0].len() == 0 {
            assert(seq![segs[0]].filter(pred) =~= Seq::<Seq<char>>::empty());
            assert(segs.filter(pred) =~= segs.drop_first().filter(pred));
        } else {
            assert(seq![segs[0]].filter(pred) =~= seq![segs[0]]);
        }
    }
}

/// Law: an exact-path value normalises to a non-empty `/`-joined path of
/// its non-empty pieces (backslashes read as `/`) that holds no backslash,
/// neither starts nor ends with `/`, and has no empty, `.` or `..` piece;
/// normalising that path again gives it back.
pub proof fn law_normalized_exact_path(raw: Seq<char>, q: Seq<char>)
    requires
        normalize_exact(raw) == Ok::<Seq<char>, ExcludeDirProblem>(q),
    ensures
        q.len() > 0,
        !q.contains('\\'),
        q[0] != '/',
        q.last() != '/',
        split(q, '/') == split(slashes(raw), '/').filter(|s: Seq<char>| nonempty_piece(s)),
        forall|i: int|
            0 <= i < split(q, '/').len() ==> (#[trigger] split(q, '/')[i]).len() > 0 && split(q, '/')[i]
                != seq!['.'] && split(q, '/')[i] != seq!['.', '.'],
        normalize_exact(q) == Ok::<Seq<char>, ExcludeDirProblem>(q),
{
    let sr = slashes(raw);
    let segs = split(sr, '/');
    let parts = scan_exact(segs)->Ok_0;
    lemma_scan_exact_parts(segs);
    lemma_scan_exact_filter(segs);
    lemma_split_no_sep(sr, '/');
    assert(!sr.contains('\\')) by {
        if sr.contains('\\') {
            let k = choose|k: int| 0 <= k < sr.len() && sr[k] == '\\';
            assert(sr[k] == (if raw[k] == '\\' { '/' } else { raw[k] }));
        }
    }
    lemma_split_avoids(sr, '/', '\\');
    assert forall|i: int| 0 <= i < parts.len() implies !(#[trigger] parts[i]).contains('/')
        && !parts[i].contains('\\') by {
        let k = choose|k: int| 0 <= k < segs.len() && segs[k] == parts[i];
        assert(!segs[k].contains('/'));
        assert(!segs[k].contains('\\'));
    }
    assert(q == join(parts, '/'));
    lemma_split_join(parts, '/');
    lemma_join_starts(parts, '/');
    lemma_join_avoids(parts, '/', '\\');
    assert(parts[0].len() > 0);
    assert(q[0] == parts[0][0]);
    assert(parts[0][0] != '/' && parts[0][0] != '\\') by {
        if parts[0][0] == '/' {
            assert(parts[0].contains('/'));
        }
        if parts[0][0] == '\\' {
            assert(parts[0].contains('\\'));
        }
    }
    assert(parts.last() == parts[parts.len() - 1]);
    lemma_join_ends(parts, '/');
    assert(parts.last().last() != '/') by {
        let l = parts[parts.len() - 1];
        if l.last() == '/' {
            assert(l[l.len() - 1] == '/');
            assert(l.contains('/'));
        }
    }
    assert(slashes(q) =~= q) by {
        assert forall|k: int| 0 <= k < q.len() implies q[k] != '\\' by {
            if q[k] == '\\' {
                assert(q.contains('\\'));
            }
        }
    }
    lemma_scan_exact_clean(parts);
}

} // verus!
