//! Rendering of the tree section and the content section as text.
use vstd::prelude::*;
use crate::text::{chars_of, string_from_chars};
use crate::paths::{is_absolute, path_join, path_join_chars};
use crate::fswalk::{TreeNode, TreeView, FileInfo, node_view, nodes_view, filter_views, keep_view, path_set,
    filter_tree_children, lemma_nodes_view_index, lemma_nodes_view_len};
use crate::config::Config;
use crate::classify::{FileKind, classify, classify_path};
use crate::lang::{language_of, lower_extension, language_for_path};
use crate::size::{format_size_spec, format_size};

verus! {

/// The terminal colors the palette uses.
#[derive(Debug, Clone, Copy, PartialEq, Eq, Structural)]
pub enum TermColor {
    Cyan,
    Yellow,
}

/// A text style: an optional foreground color and boldness.
#[derive(Debug, Clone, Copy, PartialEq, Eq, Structural)]
pub struct TextStyle {
    pub fg: Option<TermColor>,
    pub bold: bool,
}

/// The digit of a color in its ANSI foreground code `3<digit>`.
pub open spec fn color_digit(c: TermColor) -> char {
    match c {
        TermColor::Cyan => '6',
        TermColor::Yellow => '3',
    }
}

/// The ANSI codes `anstyle` writes for a style: bold first, then the foreground.
pub open spec fn style_code(s: TextStyle) -> Seq<char> {
    (if s.bold {
        seq!['\x1b', '[', '1', 'm']
    } else {
        Seq::<char>::empty()
    }) + match s.fg {
        Some(c) => seq!['\x1b', '[', '3', color_digit(c), 'm'],
        None => Seq::<char>::empty(),
    }
}

/// The ANSI reset code.
pub open spec fn reset_code() -> Seq<char> {
    seq!['\x1b', '[', '0', 'm']
}

/// The ANSI codes of a style, written by `anstyle`: the style is built with
/// `Style::new().fg_color(..).effects(..)` and rendered with `Style::render`.
/// As `anstyle`'s source shows, the bold effect renders as `ESC[1m` before the
/// foreground color `ESC[3Xm` (X is 6 for cyan, 3 for yellow).
#[verifier::external_body]
pub fn style_prefix(s: TextStyle) -> (r: String)
    ensures
        r@ == style_code(s),
{
    let fg = match s.fg {
        Some(TermColor::Cyan) => Some(anstyle::Color::Ansi(anstyle::AnsiColor::Cyan)),
        Some(TermColor::Yellow) => Some(anstyle::Color::Ansi(anstyle::AnsiColor::Yellow)),
        None => None,
    };
    let effects = anstyle::Effects::new().set(anstyle::Effects::BOLD, s.bold);
    anstyle::Style::new().fg_color(fg).effects(effects).render().to_string()
}

/// `anstyle::Reset` rendered: `ESC[0m`, as its source shows.
#[verifier::external_body]
pub fn reset_text() -> (r: String)
    ensures
        r@ == reset_code(),
{
    anstyle::Reset.render().to_string()
}

/// Colors for directories, files, content headers and binary stubs, used
/// only when `enabled`.
#[derive(Debug, Clone, Copy)]
pub struct Palette {
    pub enabled: bool,
    pub dir: TextStyle,
    pub file: TextStyle,
    pub header: TextStyle,
    pub stub: TextStyle,
}

/// Text in a style: wrapped in the style's codes and a reset when the
/// palette is enabled, unchanged otherwise.
pub open spec fn styled(p: Palette, s: TextStyle, text: Seq<char>) -> Seq<char> {
    if p.enabled {
        style_code(s) + text + reset_code()
    } else {
        text
    }
}

/// The palette `Palette::new` gives: bold cyan directories and headers,
/// plain files, yellow stubs; styles apply only when `enabled`.
pub open spec fn palette_of(enabled: bool) -> Palette {
    Palette {
        enabled,
        dir: TextStyle { fg: Some(TermColor::Cyan), bold: true },
        file: TextStyle { fg: None, bold: false },
        header: TextStyle { fg: Some(TermColor::Cyan), bold: true },
        stub: TextStyle { fg: Some(TermColor::Yellow), bold: false },
    }
}

impl Palette {
    /// The palette: bold cyan directories and headers, plain files, yellow stubs.
    pub fn new(enabled: bool) -> (r: Palette)
        ensures
            r == palette_of(enabled),
            r.enabled == enabled,
            r.dir == (TextStyle { fg: Some(TermColor::Cyan), bold: true }),
            r.file == (TextStyle { fg: None, bold: false }),
            r.header == (TextStyle { fg: Some(TermColor::Cyan), bold: true }),
            r.stub == (TextStyle { fg: Some(TermColor::Yellow), bold: false }),
    {
        Palette {
            enabled,
            dir: TextStyle { fg: Some(TermColor::Cyan), bold: true },
            file: TextStyle { fg: None, bold: false },
            header: TextStyle { fg: Some(TermColor::Cyan), bold: true },
            stub: TextStyle { fg: Some(TermColor::Yellow), bold: false },
        }
    }

    fn apply(&self, style: TextStyle, text: &str) -> (r: String)
        ensures
            r@ == styled(*self, style, text@),
    {
        if !self.enabled {
            return String::from_str(text);
        }
        let mut out = style_prefix(style);
        out.append(text);
        let reset = reset_text();
        out.append(reset.as_str());
        out
    }

    /// Text in the directory style.
    pub fn dir(&self, text: &str) -> (r: String)
        ensures
            r@ == styled(*self, self.dir, text@),
    {
        self.apply(self.dir, text)
    }

    /// Text in the file style.
    pub fn file(&self, text: &str) -> (r: String)
        ensures
            r@ == styled(*self, self.file, text@),
    {
        self.apply(self.file, text)
    }

    /// Text in the header style.
    pub fn header(&self, text: &str) -> (r: String)
        ensures
            r@ == styled(*self, self.header, text@),
    {
        self.apply(self.header, text)
    }

    /// Text in the stub style.
    pub fn stub(&self, text: &str) -> (r: String)
        ensures
            r@ == styled(*self, self.stub, text@),
    {
        self.apply(self.stub, text)
    }
}

/// The label of a tree entry: its name (or the root-joined path when paths
/// are absolute), with a `/` after directories.
pub open spec fn entry_label(p: Palette, c: TreeView, root_abs: Seq<char>, absolute: bool) -> Seq<char> {
    let text = if absolute {
        path_join(root_abs, c.path)
    } else {
        c.name
    };
    if c.is_dir {
        styled(p, p.dir, text.push('/'))
    } else {
        styled(p, p.file, text)
    }
}

/// The lines of the entries `children[i..]`, each prefixed by `prefix` and a
/// connector, with the entries of each directory below it.
pub open spec fn render_list(
    children: Seq<TreeView>,
    i: int,
    prefix: Seq<char>,
    p: Palette,
    root_abs: Seq<char>,
    absolute: bool,
) -> Seq<char>
    decreases children, children.len() - i,
{
    if i < 0 || i >= children.len() {
        Seq::empty()
    } else {
        let c = children[i];
        let last = i == children.len() - 1;
        let connector = if last {
            "└── "@
        } else {
            "├── "@
        };
        let next_prefix = prefix + if last {
            "    "@
        } else {
            "│   "@
        };
        let line = prefix + connector + entry_label(p, c, root_abs, absolute) + seq!['\n'];
        let below = if c.is_dir {
            render_list(c.children, 0, next_prefix, p, root_abs, absolute)
        } else {
            Seq::empty()
        };
        line + below + render_list(children, i + 1, prefix, p, root_abs, absolute)
    }
}

/// The tree section: the root line, then the (filtered) entries.
pub open spec fn render_tree_spec(
    root: TreeView,
    root_abs: Seq<char>,
    absolute: bool,
    p: Palette,
    allowed: Option<Set<Seq<char>>>,
) -> Seq<char> {
    let label = if absolute {
        styled(p, p.dir, root_abs)
    } else {
        styled(p, p.dir, root.name)
    };
    let children = match allowed {
        Some(a) => filter_views(root.children, a),
        None => root.children,
    };
    label + seq!['/', '\n'] + render_list(children, 0, Seq::empty(), p, root_abs, absolute)
}

fn push_str(out: &mut Vec<char>, s: &str)
    ensures
        final(out)@ == old(out)@ + s@,
{
    let cs = chars_of(s);
    let mut i: usize = 0;
    while i < cs.len()
        invariant
            i <= cs@.len(),
            cs@ == s@,
            out@ == old(out)@ + cs@.take(i as int),
        decreases cs@.len() - i,
    {
        out.push(cs[i]);
        assert(cs@.take(i + 1) =~= cs@.take(i as int).push(cs@[i as int]));
        assert(out@ =~= old(out)@ + cs@.take(i + 1));
        i = i + 1;
    }
    assert(cs@.take(cs@.len() as int) =~= cs@);
}

fn push_chars(out: &mut Vec<char>, s: &[char])
    ensures
        final(out)@ == old(out)@ + s@,
{
    let mut i: usize = 0;
    while i < s.len()
        invariant
            i <= s@.len(),
            out@ == old(out)@ + s@.take(i as int),
        decreases s@.len() - i,
    {
        out.push(s[i]);
        assert(s@.take(i + 1) =~= s@.take(i as int).push(s@[i as int]));
        assert(out@ =~= old(out)@ + s@.take(i + 1));
        i = i + 1;
    }
    assert(s@.take(s@.len() as int) =~= s@);
}

fn entry_label_text(p: &Palette, c: &TreeNode, root_abs: &str, absolute: bool) -> (r: String)
    ensures
        r@ == entry_label(*p, node_view(*c), root_abs@, absolute),
{
    let mut text: Vec<char> = if absolute {
        let a = chars_of(root_abs);
        let b = chars_of(c.path.as_str());
        path_join_chars(a.as_slice(), b.as_slice())
    } else {
        chars_of(c.name.as_str())
    };
    if c.is_dir {
        text.push('/');
        let t = crate::text::string_from_chars(text.as_slice());
        p.dir(t.as_str())
    } else {
        let t = crate::text::string_from_chars(text.as_slice());
        p.file(t.as_str())
    }
}

/// The line of entry `i` of a list.
pub open spec fn entry_line(
    children: Seq<TreeView>,
    i: int,
    prefix: Seq<char>,
    p: Palette,
    root_abs: Seq<char>,
    absolute: bool,
) -> Seq<char> {
    let connector = if i == children.len() - 1 {
        "└── "@
    } else {
        "├── "@
    };
    prefix + connector + entry_label(p, children[i], root_abs, absolute) + seq!['\n']
}

pub open spec fn child_prefix(children: Seq<TreeView>, i: int, prefix: Seq<char>) -> Seq<char> {
    prefix + if i == children.len() - 1 {
        "    "@
    } else {
        "│   "@
    }
}

proof fn lemma_render_list_step(
    children: Seq<TreeView>,
    i: int,
    prefix: Seq<char>,
    p: Palette,
    root_abs: Seq<char>,
    absolute: bool,
)
    requires
        0 <= i < children.len(),
    ensures
        render_list(children, i, prefix, p, root_abs, absolute) == entry_line(
            children,
            i,
            prefix,
            p,
            root_abs,
            absolute,
        ) + (if children[i].is_dir {
            render_list(
                children[i].children,
                0,
                child_prefix(children, i, prefix),
                p,
                root_abs,
                absolute,
            )
        } else {
            Seq::empty()
        }) + render_list(children, i + 1, prefix, p, root_abs, absolute),
{
}

fn render_children(
    children: &Vec<TreeNode>,
    i: usize,
    prefix: &Vec<char>,
    p: &Palette,
    root_abs: &str,
    absolute: bool,
    out: &mut Vec<char>,
)
    requires
        i <= children@.len(),
    ensures
        final(out)@ == old(out)@ + render_list(nodes_view(children@), i as int, prefix@, *p, root_abs@, absolute),
    decreases nodes_view(children@), children@.len() - i,
{
    let ghost views = nodes_view(children@);
    proof {
        lemma_nodes_view_len(children@);
    }
    if i >= children.len() {
        assert(old(out)@ + Seq::<char>::empty() =~= old(out)@);
        return;
    }
    let c = &children[i];
    proof {
        lemma_nodes_view_index(children@, i as int);
        lemma_render_list_step(views, i as int, prefix@, *p, root_abs@, absolute);
    }
    let last = i == children.len() - 1;
    let mut line: Vec<char> = Vec::new();
    push_chars(&mut line, prefix.as_slice());
    if last {
        push_str(&mut line, "└── ");
    } else {
        push_str(&mut line, "├── ");
    }
    let label = entry_label_text(p, c, root_abs, absolute);
    push_str(&mut line, label.as_str());
    line.push('\n');
    assert(line@ =~= entry_line(views, i as int, prefix@, *p, root_abs@, absolute));
    push_chars(out, line.as_slice());
    let ghost after_line = out@;
    if c.is_dir {
        let mut next_prefix: Vec<char> = Vec::new();
        push_chars(&mut next_prefix, prefix.as_slice());
        if last {
            push_str(&mut next_prefix, "    ");
        } else {
            push_str(&mut next_prefix, "│   ");
        }
        assert(next_prefix@ =~= child_prefix(views, i as int, prefix@));
        assert(decreases_to!(nodes_view(children@) => nodes_view(children@)[i as int].children));
        render_children(&c.children, 0, &next_prefix, p, root_abs, absolute, out);
    }
    let ghost after_below = out@;
    render_children(children, i + 1, prefix, p, root_abs, absolute, out);
    assert(out@ =~= old(out)@ + render_list(views, i as int, prefix@, *p, root_abs@, absolute));
}

/// The tree section: the root directory (its absolute path when paths are
/// absolute, else its name) followed by `/`, then the entries below it with
/// `├──`/`└──` connectors and `│   `/`    ` indentation. When `allowed` is
/// given, only those file paths are shown and directories with nothing shown
/// inside are left out.
pub fn render_tree(
    root: &TreeNode,
    root_abs: &str,
    cfg: &Config,
    palette: &Palette,
    allowed: Option<&Vec<String>>,
) -> (r: String)
    ensures
        r@ == render_tree_spec(
            node_view(*root),
            root_abs@,
            cfg.absolute_paths,
            *palette,
            match allowed {
                Some(a) => Some(path_set(a@)),
                None => None,
            },
        ),
{
    let label = if cfg.absolute_paths {
        palette.dir(root_abs)
    } else {
        palette.dir(root.name.as_str())
    };
    let mut out: Vec<char> = chars_of(label.as_str());
    out.push('/');
    out.push('\n');
    let empty: Vec<char> = Vec::new();
    match allowed {
        Some(a) => {
            let children = filter_tree_children(&root.children, a);
            render_children(&children, 0, &empty, palette, root_abs, cfg.absolute_paths, &mut out);
        },
        None => {
            render_children(&root.children, 0, &empty, palette, root_abs, cfg.absolute_paths, &mut out);
        },
    }
    string_from_chars(out.as_slice())
}

/// What `String::from_utf8_lossy` makes of bytes.
pub uninterp spec fn utf8_lossy_text(bytes: Seq<u8>) -> Seq<char>;

/// `String::from_utf8_lossy`. Its result is named by `utf8_lossy_text`; as its
/// documentation says, valid UTF-8 is decoded unchanged. How invalid
/// sequences are replaced is not stated.
#[verifier::external_body]
pub fn utf8_lossy(bytes: &[u8]) -> (r: String)
    ensures
        r@ == utf8_lossy_text(bytes@),
        vstd::utf8::valid_utf8(bytes@) ==> r@ == vstd::utf8::decode_utf8(bytes@),
{
    String::from_utf8_lossy(bytes).into_owned()
}

/// The path a content file is read from: the path itself when absolute,
/// otherwise the path joined to the root.
pub open spec fn content_path(root_abs: Seq<char>, path: Seq<char>) -> Seq<char> {
    if is_absolute(path) {
        path
    } else {
        path_join(root_abs, path)
    }
}

/// The content read for file `i` (`None` when there is none).
pub open spec fn content_at(contents: Seq<Option<Vec<u8>>>, i: int) -> Option<Seq<u8>> {
    if 0 <= i < contents.len() {
        match contents[i] {
            Some(v) => Some(v@),
            None => None,
        }
    } else {
        None
    }
}

/// The header line of a content block: `# ` and the shown path.
pub open spec fn content_header(f: FileInfo, root_abs: Seq<char>, absolute: bool, p: Palette) -> Seq<char> {
    let display = if absolute {
        content_path(root_abs, f.path@)
    } else {
        f.path@
    };
    "# "@ + styled(p, p.header, display) + seq!['\n']
}

/// The binary stub of a content block.
pub open spec fn binary_stub(f: FileInfo, p: Palette) -> Seq<char> {
    styled(p, p.stub, "(skipped: binary/non-text file, size: "@ + format_size_spec(f.size as nat) + ")"@)
        + seq!['\n']
}

/// The text of a file, ended by a newline when it is not empty and does not
/// end in one already (so that the closing fence stands on its own line).
pub open spec fn fenced_body(text: Seq<char>) -> Seq<char> {
    if text.len() > 0 && text.last() != '\n' {
        text.push('\n')
    } else {
        text
    }
}

/// The fenced text of a content block: the opening fence with the language
/// tag, the file's text, and the closing fence on a line of its own.
pub open spec fn text_block(f: FileInfo, content: Option<Seq<u8>>) -> Seq<char> {
    "```"@ + language_of(lower_extension(f.path@)) + seq!['\n'] + fenced_body(
        match content {
            Some(b) => utf8_lossy_text(b),
            None => Seq::<char>::empty(),
        },
    ) + "```"@ + seq!['\n']
}

/// One file of the content section: a `# <path>` header, then either a
/// binary stub with the human-readable size or the file's text in a fenced
/// block tagged with its language.
pub open spec fn content_block(
    f: FileInfo,
    content: Option<Seq<u8>>,
    root_abs: Seq<char>,
    absolute: bool,
    p: Palette,
) -> Seq<char> {
    content_header(f, root_abs, absolute, p) + match classify(content_path(root_abs, f.path@), content) {
        FileKind::Binary => binary_stub(f, p),
        FileKind::Text => text_block(f, content),
    }
}

/// The content section: the blocks of the files, with a blank line between them.
pub open spec fn render_contents_spec(
    files: Seq<FileInfo>,
    contents: Seq<Option<Vec<u8>>>,
    root_abs: Seq<char>,
    absolute: bool,
    p: Palette,
) -> Seq<char>
    decreases files.len(),
{
    if files.len() == 0 {
        Seq::empty()
    } else {
        let n = files.len() - 1;
        render_contents_spec(files.drop_last(), contents, root_abs, absolute, p) + (if n > 0 {
            seq!['\n']
        } else {
            Seq::<char>::empty()
        }) + content_block(files[n], content_at(contents, n), root_abs, absolute, p)
    }
}

fn content_path_text(root_abs: &str, path: &str) -> (r: String)
    ensures
        r@ == content_path(root_abs@, path@),
{
    let path_chars = chars_of(path);
    if path_chars.len() > 0 && path_chars[0] == '/' {
        return string_from_chars(path_chars.as_slice());
    }
    let r = chars_of(root_abs);
    let joined = path_join_chars(r.as_slice(), path_chars.as_slice());
    string_from_chars(joined.as_slice())
}

fn header_text(f: &FileInfo, abs: &String, absolute: bool, p: &Palette) -> (r: Vec<char>)
    ensures
        forall|root_abs: Seq<char>|
            abs@ == content_path(root_abs, f.path@) ==> r@ == content_header(*f, root_abs, absolute, *p),
{
    let display = if absolute {
        p.header(abs.as_str())
    } else {
        p.header(f.path.as_str())
    };
    let mut out: Vec<char> = Vec::new();
    push_str(&mut out, "# ");
    push_str(&mut out, display.as_str());
    out.push('\n');
    out
}

fn stub_text(f: &FileInfo, p: &Palette) -> (r: Vec<char>)
    ensures
        r@ == binary_stub(*f, *p),
{
    let mut msg = String::from_str("(skipped: binary/non-text file, size: ");
    let size = format_size(f.size);
    msg.append(size.as_str());
    msg.append(")");
    let stub = p.stub(msg.as_str());
    let mut out: Vec<char> = Vec::new();
    push_str(&mut out, stub.as_str());
    out.push('\n');
    out
}

fn text_block_text(f: &FileInfo, content: Option<&Vec<u8>>) -> (r: Vec<char>)
    ensures
        r@ == text_block(
            *f,
            match content {
                Some(v) => Some(v@),
                None => None,
            },
        ),
{
    let mut out: Vec<char> = Vec::new();
    push_str(&mut out, "```");
    push_str(&mut out, language_for_path(f.path.as_str()));
    out.push('\n');
    match content {
        Some(v) => {
            let text = utf8_lossy(v.as_slice());
            let body = chars_of(text.as_str());
            let n = body.len();
            push_chars(&mut out, body.as_slice());
            if n > 0 && body[n - 1] != '\n' {
                out.push('\n');
            }
        },
        None => {},
    }
    push_str(&mut out, "```");
    out.push('\n');
    out
}

fn content_block_text(
    f: &FileInfo,
    content: Option<&Vec<u8>>,
    root_abs: &str,
    absolute: bool,
    p: &Palette,
) -> (r: Vec<char>)
    ensures
        r@ == content_block(
            *f,
            match content {
                Some(v) => Some(v@),
                None => None,
            },
            root_abs@,
            absolute,
            *p,
        ),
{
    let abs = content_path_text(root_abs, f.path.as_str());
    let mut out = header_text(f, &abs, absolute, p);
    let head: Option<&[u8]> = match content {
        Some(v) => Some(v.as_slice()),
        None => None,
    };
    let body = match classify_path(abs.as_str(), head) {
        FileKind::Binary => stub_text(f, p),
        FileKind::Text => text_block_text(f, content),
    };
    push_chars(&mut out, body.as_slice());
    out
}

/// The content section for the files, given the bytes read from each
/// (`contents[i]` for `files[i]`; `None`, or no entry, when the file could
/// not be read or was not read because its extension marks it binary).
/// Binary files get a stub with their size; text files are shown in full
/// in a fenced block tagged with their language.
pub fn render_contents(
    files: &[FileInfo],
    contents: &Vec<Option<Vec<u8>>>,
    cfg: &Config,
    root_abs: &str,
    palette: &Palette,
) -> (r: String)
    ensures
        r@ == render_contents_spec(files@, contents@, root_abs@, cfg.absolute_paths, *palette),
{
    let mut out: Vec<char> = Vec::new();
    let mut i: usize = 0;
    while i < files.len()
        invariant
            i <= files@.len(),
            out@ == render_contents_spec(
                files@.take(i as int),
                contents@,
                root_abs@,
                cfg.absolute_paths,
                *palette,
            ),
        decreases files@.len() - i,
    {
        if i > 0 {
            out.push('\n');
        }
        let content: Option<&Vec<u8>> = if i < contents.len() {
            match &contents[i] {
                Some(v) => Some(v),
                None => None,
            }
        } else {
            None
        };
        let block = content_block_text(&files[i], content, root_abs, cfg.absolute_paths, palette);
        push_chars(&mut out, block.as_slice());
        proof {
            let t = files@.take(i + 1);
            assert(t.drop_last() =~= files@.take(i as int));
            assert(t[i as int] == files@[i as int]);
        }
        i = i + 1;
    }
    assert(files@.take(files@.len() as int) =~= files@);
    string_from_chars(out.as_slice())
}


/// Law: a disabled palette adds no escape codes: styled text is the text itself.
pub proof fn law_plain_palette_adds_nothing(p: Palette, s: TextStyle, text: Seq<char>)
    requires
        !p.enabled,
    ensures
        styled(p, s, text) == text,
{
}

/// Law: a file classified as binary is never dumped: its block is the
/// header and the size stub, whatever its bytes are.
pub proof fn law_binary_never_dumped(
    f: FileInfo,
    content: Option<Seq<u8>>,
    root_abs: Seq<char>,
    absolute: bool,
    p: Palette,
)
    requires
        classify(content_path(root_abs, f.path@), content) == FileKind::Binary,
    ensures
        content_block(f, content, root_abs, absolute, p) == content_header(f, root_abs, absolute, p)
            + binary_stub(f, p),
{
}


/// Law: the closing fence of a text block always stands on a line of its
/// own: the block ends with a newline, the fence and a newline.
pub proof fn law_closing_fence_on_own_line(f: FileInfo, content: Option<Seq<u8>>)
    ensures
        text_block(f, content).len() >= 5,
        text_block(f, content).subrange(
            text_block(f, content).len() - 5,
            text_block(f, content).len() as int,
        ) == seq!['\n', '`', '`', '`', '\n'],
{
    reveal_strlit("```");
    let head = "```"@ + language_of(lower_extension(f.path@)) + seq!['\n'];
    let body = fenced_body(
        match content {
            Some(b) => utf8_lossy_text(b),
            None => Seq::<char>::empty(),
        },
    );
    let t = text_block(f, content);
    assert(t == head + body + "```"@ + seq!['\n']);
    let hb = head + body;
    assert(hb.len() >= 1 && hb.last() == '\n');
    assert(t =~= hb + seq!['`', '`', '`', '\n']);
    assert(t[t.len() - 5] == hb.last());
    assert(t.subrange(t.len() - 5, t.len() as int) =~= seq!['\n', '`', '`', '`', '\n']);
}


/// The number of line breaks in a text.
pub open spec fn newlines(s: Seq<char>) -> nat
    decreases s.len(),
{
    if s.len() == 0 {
        0
    } else {
        newlines(s.drop_last()) + if s.last() == '\n' {
            1nat
        } else {
            0nat
        }
    }
}

proof fn lemma_newlines_add(a: Seq<char>, b: Seq<char>)
    ensures
        newlines(a + b) == newlines(a) + newlines(b),
    decreases b.len(),
{
    if b.len() == 0 {
        assert(a + b =~= a);
    } else {
        lemma_newlines_add(a, b.drop_last());
        assert((a + b).drop_last() =~= a + b.drop_last());
        assert((a + b).last() == b.last());
    }
}

proof fn lemma_newlines_none(s: Seq<char>)
    requires
        forall|k: int| 0 <= k < s.len() ==> s[k] != '\n',
    ensures
        newlines(s) == 0,
    decreases s.len(),
{
    if s.len() > 0 {
        assert forall|k: int| 0 <= k < s.drop_last().len() implies s.drop_last()[k] != '\n' by {
            assert(s.drop_last()[k] == s[k]);
        }
        lemma_newlines_none(s.drop_last());
        assert(s.last() == s[s.len() - 1]);
    }
}

proof fn lemma_newlines_push(s: Seq<char>, c: char)
    ensures
        newlines(s.push(c)) == newlines(s) + if c == '\n' {
            1nat
        } else {
            0nat
        },
{
    assert(s.push(c).drop_last() =~= s);
}

proof fn lemma_styled_newlines(p: Palette, st: TextStyle, t: Seq<char>)
    ensures
        newlines(styled(p, st, t)) == newlines(t),
{
    if p.enabled {
        let code = style_code(st);
        assert forall|k: int| 0 <= k < code.len() implies code[k] != '\n' by {
            let b = if st.bold {
                seq!['\x1b', '[', '1', 'm']
            } else {
                Seq::<char>::empty()
            };
            let f = match st.fg {
                Some(c) => seq!['\x1b', '[', '3', color_digit(c), 'm'],
                None => Seq::<char>::empty(),
            };
            assert(code == b + f);
            if k < b.len() {
                assert(code[k] == b[k]);
            } else {
                assert(code[k] == f[k - b.len()]);
            }
        }
        lemma_newlines_none(code);
        let r = reset_code();
        assert forall|k: int| 0 <= k < r.len() implies r[k] != '\n' by {}
        lemma_newlines_none(r);
        lemma_newlines_add(code, t);
        lemma_newlines_add(code + t, r);
    }
}

proof fn lemma_path_join_newlines(a: Seq<char>, b: Seq<char>)
    ensures
        newlines(path_join(a, b)) <= newlines(a) + newlines(b),
{
    if is_absolute(b) {
    } else if a.len() > 0 && a.last() != '/' {
        lemma_newlines_push(a, '/');
        lemma_newlines_add(a.push('/'), b);
    } else {
        lemma_newlines_add(a, b);
    }
}

proof fn lemma_tree_literals()
    ensures
        newlines("└── "@) == 0,
        newlines("├── "@) == 0,
        newlines("    "@) == 0,
        newlines("│   "@) == 0,
{
    reveal_strlit("└── ");
    reveal_strlit("├── ");
    reveal_strlit("    ");
    reveal_strlit("│   ");
    lemma_newlines_none("└── "@);
    lemma_newlines_none("├── "@);
    lemma_newlines_none("    "@);
    lemma_newlines_none("│   "@);
}

/// The number of entries the tree section lists for `children[i..]`: each
/// entry, and for a directory the entries listed below it.
pub open spec fn shown_count(children: Seq<TreeView>, i: int) -> nat
    decreases children, children.len() - i,
{
    if i < 0 || i >= children.len() {
        0
    } else {
        1 + (if children[i].is_dir {
            shown_count(children[i].children, 0)
        } else {
            0nat
        }) + shown_count(children, i + 1)
    }
}

/// The text an entry is labelled with: its path in absolute mode, else its name.
pub open spec fn label_text(c: TreeView, absolute: bool) -> Seq<char> {
    if absolute {
        c.path
    } else {
        c.name
    }
}

/// No label text of the nodes, at any level, holds a line break.
pub open spec fn single_line_labels(cs: Seq<TreeView>, absolute: bool) -> bool
    decreases cs,
{
    forall|i: int|
        0 <= i < cs.len() ==> newlines(label_text(#[trigger] cs[i], absolute)) == 0
            && single_line_labels(cs[i].children, absolute)
}

proof fn lemma_list_lines(
    cs: Seq<TreeView>,
    i: int,
    prefix: Seq<char>,
    p: Palette,
    root_abs: Seq<char>,
    absolute: bool,
)
    requires
        single_line_labels(cs, absolute),
        newlines(prefix) == 0,
        absolute ==> newlines(root_abs) == 0,
    ensures
        newlines(render_list(cs, i, prefix, p, root_abs, absolute)) == shown_count(cs, i),
    decreases cs, cs.len() - i,
{
    if 0 <= i < cs.len() {
        let c = cs[i];
        let last = i == cs.len() - 1;
        let connector = if last {
            "└── "@
        } else {
            "├── "@
        };
        let next_prefix = prefix + if last {
            "    "@
        } else {
            "│   "@
        };
        lemma_tree_literals();
        let text = if absolute {
            path_join(root_abs, c.path)
        } else {
            c.name
        };
        lemma_path_join_newlines(root_abs, c.path);
        lemma_newlines_push(text, '/');
        lemma_styled_newlines(p, p.dir, text.push('/'));
        lemma_styled_newlines(p, p.file, text);
        let label = entry_label(p, c, root_abs, absolute);
        assert(newlines(label) == 0);
        lemma_newlines_add(prefix, connector);
        lemma_newlines_add(prefix + connector, label);
        lemma_newlines_push(prefix + connector + label, '\n');
        let line = prefix + connector + label + seq!['\n'];
        assert(line =~= (prefix + connector + label).push('\n'));
        assert(newlines(line) == 1);
        lemma_newlines_add(prefix, if last {
            "    "@
        } else {
            "│   "@
        });
        let below = if c.is_dir {
            render_list(c.children, 0, next_prefix, p, root_abs, absolute)
        } else {
            Seq::empty()
        };
        if c.is_dir {
            lemma_list_lines(c.children, 0, next_prefix, p, root_abs, absolute);
        }
        lemma_list_lines(cs, i + 1, prefix, p, root_abs, absolute);
        let rest = render_list(cs, i + 1, prefix, p, root_abs, absolute);
        lemma_newlines_add(line, below);
        lemma_newlines_add(line + below, rest);
    }
}

proof fn lemma_single_line_concat(a: Seq<TreeView>, b: Seq<TreeView>, absolute: bool)
    requires
        single_line_labels(a, absolute),
        single_line_labels(b, absolute),
    ensures
        single_line_labels(a + b, absolute),
{
    assert forall|i: int| 0 <= i < (a + b).len() implies newlines(label_text(#[trigger] (a + b)[i], absolute))
        == 0 && single_line_labels((a + b)[i].children, absolute) by {
        if i < a.len() {
            assert((a + b)[i] == a[i]);
        } else {
            assert((a + b)[i] == b[i - a.len()]);
        }
    }
}

proof fn lemma_filter_single_line(s: Seq<TreeView>, allowed: Set<Seq<char>>, absolute: bool)
    requires
        single_line_labels(s, absolute),
    ensures
        single_line_labels(filter_views(s, allowed), absolute),
    decreases s,
{
    if s.len() > 0 {
        assert(single_line_labels(s.drop_last(), absolute)) by {
            assert forall|i: int| 0 <= i < s.drop_last().len() implies newlines(
                label_text(#[trigger] s.drop_last()[i], absolute),
            ) == 0 && single_line_labels(s.drop_last()[i].children, absolute) by {
                assert(s.drop_last()[i] == s[i]);
            }
        }
        lemma_filter_single_line(s.drop_last(), allowed, absolute);
        let c = s.last();
        assert(c == s[s.len() - 1]);
        if c.is_dir {
            assert(decreases_to!(s => s[s.len() - 1]));
            lemma_filter_single_line(c.children, allowed, absolute);
        }
        lemma_single_line_concat(
            filter_views(s.drop_last(), allowed),
            keep_view(c, allowed),
            absolute,
        );
    }
}

/// The first line of the tree section: the root's label (its absolute path
/// in absolute mode, else its name) in the directory style, then `/`.
pub open spec fn root_line(root: TreeView, root_abs: Seq<char>, absolute: bool, p: Palette) -> Seq<char> {
    (if absolute {
        styled(p, p.dir, root_abs)
    } else {
        styled(p, p.dir, root.name)
    }) + seq!['/', '\n']
}

/// Law: the tree section starts with the root line; and when no label holds
/// a line break (the names, or in absolute mode the root path and the
/// entries' paths), it has one line for the root and one for each listed
/// entry (those that stay after filtering, and below each directory the
/// entries inside it, in pre-order as `render_list` writes them).
pub proof fn law_tree_one_line_per_entry(
    root: TreeView,
    root_abs: Seq<char>,
    absolute: bool,
    p: Palette,
    allowed: Option<Set<Seq<char>>>,
)
    requires
        if absolute {
            newlines(root_abs) == 0
        } else {
            newlines(root.name) == 0
        },
        single_line_labels(root.children, absolute),
    ensures
        newlines(render_tree_spec(root, root_abs, absolute, p, allowed)) == 1 + shown_count(
            match allowed {
                Some(a) => filter_views(root.children, a),
                None => root.children,
            },
            0,
        ),
        render_tree_spec(root, root_abs, absolute, p, allowed).subrange(
            0,
            root_line(root, root_abs, absolute, p).len() as int,
        ) == root_line(root, root_abs, absolute, p),
{
    let children = match allowed {
        Some(a) => filter_views(root.children, a),
        None => root.children,
    };
    let whole = render_tree_spec(root, root_abs, absolute, p, allowed);
    let first = root_line(root, root_abs, absolute, p);
    assert(whole == first + render_list(children, 0, Seq::empty(), p, root_abs, absolute));
    assert(whole.subrange(0, first.len() as int) =~= first);
    if let Some(a) = allowed {
        lemma_filter_single_line(root.children, a, absolute);
    }
    let label = if absolute {
        styled(p, p.dir, root_abs)
    } else {
        styled(p, p.dir, root.name)
    };
    lemma_styled_newlines(p, p.dir, root_abs);
    lemma_styled_newlines(p, p.dir, root.name);
    lemma_newlines_push(label, '/');
    lemma_newlines_push(label.push('/'), '\n');
    assert(label + seq!['/', '\n'] =~= label.push('/').push('\n'));
    lemma_newlines_none(Seq::<char>::empty());
    lemma_list_lines(children, 0, Seq::empty(), p, root_abs, absolute);
    lemma_newlines_add(label + seq!['/', '\n'], render_list(children, 0, Seq::empty(), p, root_abs, absolute));
}

} // verus!
