//! The language tag of a fenced content block, chosen by file extension.
use vstd::prelude::*;
use crate::text::{unicode_lowercase, chars_of, to_lowercase, string_from_chars, chars_eq_str};
use crate::paths::{extension_or_empty, extension_or_empty_chars};

verus! {

/// The language tag for a lower-cased extension.
pub open spec fn language_of(ext: Seq<char>) -> Seq<char> {
    if ext == "rs"@ {
        "rust"@
    } else if ext == "go"@ {
        "go"@
    } else if ext == "py"@ {
        "python"@
    } else if ext == "js"@ {
        "javascript"@
    } else if ext == "ts"@ {
        "typescript"@
    } else if ext == "java"@ {
        "java"@
    } else if ext == "c"@ {
        "c"@
    } else if ext == "cpp"@ || ext == "cc"@ || ext == "cxx"@ || ext == "hpp"@ {
        "cpp"@
    } else if ext == "sh"@ || ext == "bash"@ || ext == "zsh"@ {
        "bash"@
    } else if ext == "md"@ {
        "markdown"@
    } else if ext == "json"@ {
        "json"@
    } else if ext == "yaml"@ || ext == "yml"@ {
        "yaml"@
    } else if ext == "toml"@ {
        "toml"@
    } else {
        "text"@
    }
}

/// The lower-cased extension of a path (empty when it has none).
pub open spec fn lower_extension(path: Seq<char>) -> Seq<char> {
    unicode_lowercase(extension_or_empty(path))
}

/// The lower-cased extension of a path, as `to_lowercase` gives it.
pub fn lower_extension_of(path: &str) -> (r: Vec<char>)
    ensures
        r@ == lower_extension(path@),
{
    let chars = chars_of(path);
    let ext = extension_or_empty_chars(chars.as_slice());
    let ext_str = string_from_chars(ext.as_slice());
    let lower = to_lowercase(ext_str.as_str());
    chars_of(lower.as_str())
}

fn language_for_ext(ext: &[char]) -> (r: &'static str)
    ensures
        r@ == language_of(ext@),
{
    if chars_eq_str(ext, "rs") {
        "rust"
    } else if chars_eq_str(ext, "go") {
        "go"
    } else if chars_eq_str(ext, "py") {
        "python"
    } else if chars_eq_str(ext, "js") {
        "javascript"
    } else if chars_eq_str(ext, "ts") {
        "typescript"
    } else if chars_eq_str(ext, "java") {
        "java"
    } else if chars_eq_str(ext, "c") {
        "c"
    } else if chars_eq_str(ext, "cpp") || chars_eq_str(ext, "cc") || chars_eq_str(ext, "cxx")
        || chars_eq_str(ext, "hpp") {
        "cpp"
    } else if chars_eq_str(ext, "sh") || chars_eq_str(ext, "bash") || chars_eq_str(ext, "zsh") {
        "bash"
    } else if chars_eq_str(ext, "md") {
        "markdown"
    } else if chars_eq_str(ext, "json") {
        "json"
    } else if chars_eq_str(ext, "yaml") || chars_eq_str(ext, "yml") {
        "yaml"
    } else if chars_eq_str(ext, "toml") {
        "toml"
    } else {
        "text"
    }
}

/// The language tag for a path, from its extension in any case; `text` when
/// the extension is unknown or missing.
pub fn language_for_path(path: &str) -> (r: &'static str)
    ensures
        r@ == language_of(lower_extension(path@)),
{
    let ext = lower_extension_of(path);
    language_for_ext(ext.as_slice())
}

} // verus!
