//! Text or binary: by extension first, then by sniffing the first bytes.
use vstd::prelude::*;
use crate::text::chars_eq_str;
use crate::lang::{lower_extension, lower_extension_of};

verus! {

/// Kind of file for rendering.
#[derive(Debug, Clone, Copy, PartialEq, Eq, Structural)]
pub enum FileKind {
    Text,
    Binary,
}

/// Extensions of common image, archive, media, executable and database files.
pub open spec fn is_binary_extension(e: Seq<char>) -> bool {
    ||| e == "jpg"@ ||| e == "jpeg"@ ||| e == "png"@ ||| e == "gif"@ ||| e == "webp"@
    ||| e == "ico"@ ||| e == "zip"@ ||| e == "tar"@ ||| e == "gz"@ ||| e == "bz2"@
    ||| e == "xz"@ ||| e == "7z"@ ||| e == "mp3"@ ||| e == "flac"@ ||| e == "ogg"@
    ||| e == "mp4"@ ||| e == "mkv"@ ||| e == "avi"@ ||| e == "exe"@ ||| e == "dll"@
    ||| e == "so"@ ||| e == "dylib"@ ||| e == "class"@ ||| e == "o"@ ||| e == "a"@
    ||| e == "db"@ ||| e == "sqlite"@ ||| e == "db3"@
}

/// Newline, carriage return, tab and the printable ASCII range.
pub open spec fn is_printable_byte(b: u8) -> bool {
    b == 10 || b == 13 || b == 9 || (0x20 <= b && b <= 0x7e)
}

pub open spec fn printable_count(s: Seq<u8>) -> nat
    decreases s.len(),
{
    if s.len() == 0 {
        0
    } else {
        printable_count(s.drop_last()) + if is_printable_byte(s.last()) {
            1nat
        } else {
            0nat
        }
    }
}

/// The number of bytes that are sniffed.
pub open spec fn sniff_len(len: nat) -> nat {
    if len < 4096 {
        len
    } else {
        4096
    }
}

/// Classification of the first bytes of a file: empty is text; a NUL byte,
/// or fewer than three printable bytes in four, is binary.
pub open spec fn classify_bytes(head: Seq<u8>) -> FileKind {
    let s = head.take(sniff_len(head.len()) as int);
    if s.len() == 0 {
        FileKind::Text
    } else if s.contains(0u8) {
        FileKind::Binary
    } else if 4 * printable_count(s) < 3 * s.len() {
        FileKind::Binary
    } else {
        FileKind::Text
    }
}

/// Classification of a path whose first bytes are `head` (`None` when the
/// file could not be read, which counts as binary).
pub open spec fn classify(path: Seq<char>, head: Option<Seq<u8>>) -> FileKind {
    if is_binary_extension(lower_extension(path)) {
        FileKind::Binary
    } else {
        match head {
            None => FileKind::Binary,
            Some(h) => classify_bytes(h),
        }
    }
}

fn is_binary_ext(ext: &[char]) -> (r: bool)
    ensures
        r == is_binary_extension(ext@),
{
    chars_eq_str(ext, "jpg") || chars_eq_str(ext, "jpeg") || chars_eq_str(ext, "png")
        || chars_eq_str(ext, "gif") || chars_eq_str(ext, "webp") || chars_eq_str(ext, "ico")
        || chars_eq_str(ext, "zip") || chars_eq_str(ext, "tar") || chars_eq_str(ext, "gz")
        || chars_eq_str(ext, "bz2") || chars_eq_str(ext, "xz") || chars_eq_str(ext, "7z")
        || chars_eq_str(ext, "mp3") || chars_eq_str(ext, "flac") || chars_eq_str(ext, "ogg")
        || chars_eq_str(ext, "mp4") || chars_eq_str(ext, "mkv") || chars_eq_str(ext, "avi")
        || chars_eq_str(ext, "exe") || chars_eq_str(ext, "dll") || chars_eq_str(ext, "so")
        || chars_eq_str(ext, "dylib") || chars_eq_str(ext, "class") || chars_eq_str(ext, "o")
        || chars_eq_str(ext, "a") || chars_eq_str(ext, "db") || chars_eq_str(ext, "sqlite")
        || chars_eq_str(ext, "db3")
}

fn is_printable(b: u8) -> (r: bool)
    ensures
        r == is_printable_byte(b),
{
    b == 10 || b == 13 || b == 9 || (0x20 <= b && b <= 0x7e)
}

/// Whether a path's extension alone marks it binary (then its bytes are not needed).
pub fn has_binary_extension(path: &str) -> (r: bool)
    ensures
        r == is_binary_extension(lower_extension(path@)),
{
    let ext = lower_extension_of(path);
    is_binary_ext(ext.as_slice())
}

/// Classifies the first bytes of a file (at most 4096 of them are looked at).
pub fn classify_content(head: &[u8]) -> (r: FileKind)
    ensures
        r == classify_bytes(head@),
{
    let n: usize = if head.len() < 4096 {
        head.len()
    } else {
        4096
    };
    let ghost s = head@.take(n as int);
    if n == 0 {
        return FileKind::Text;
    }
    let mut i: usize = 0;
    let mut printable: usize = 0;
    while i < n
        invariant
            n <= head@.len(),
            n == sniff_len(head@.len()),
            s == head@.take(n as int),
            i <= n,
            printable <= i,
            printable as nat == printable_count(s.take(i as int)),
            forall|j: int| 0 <= j < i ==> head@[j] != 0u8,
        decreases n - i,
    {
        let b = head[i];
        if b == 0 {
            assert(s[i as int] == 0u8);
            assert(s.contains(0u8));
            return FileKind::Binary;
        }
        assert(s.take(i + 1).drop_last() =~= s.take(i as int));
        assert(s.take(i + 1).last() == b);
        if is_printable(b) {
            printable = printable + 1;
        }
        i = i + 1;
    }
    assert(s.take(n as int) =~= s);
    assert(!s.contains(0u8)) by {
        if s.contains(0u8) {
            let k = choose|k: int| 0 <= k < s.len() && s[k] == 0u8;
            assert(head@[k] != 0u8);
        }
    }
    if 4 * printable < 3 * n {
        FileKind::Binary
    } else {
        FileKind::Text
    }
}

/// Classifies a file from its path and its first bytes (`None` when they
/// could not be read). Extensions in the binary list decide without the bytes.
pub fn classify_path(path: &str, head: Option<&[u8]>) -> (r: FileKind)
    ensures
        r == classify(path@, match head {
            Some(h) => Some(h@),
            None => None,
        }),
{
    if has_binary_extension(path) {
        return FileKind::Binary;
    }
    match head {
        None => FileKind::Binary,
        Some(h) => classify_content(h),
    }
}


/// Law: a NUL byte among the first 4096 bytes makes a file binary.
pub proof fn law_nul_byte_is_binary(path: Seq<char>, head: Seq<u8>, k: int)
    requires
        0 <= k < head.len(),
        k < 4096,
        head[k] == 0u8,
    ensures
        classify(path, Some(head)) == FileKind::Binary,
{
    let s = head.take(sniff_len(head.len()) as int);
    assert(s[k] == 0u8);
}

/// Law: only the first 4096 bytes decide the classification.
pub proof fn law_only_head_is_sniffed(path: Seq<char>, head: Seq<u8>)
    ensures
        classify(path, Some(head)) == classify(path, Some(head.take(sniff_len(head.len()) as int))),
{
    let n = sniff_len(head.len()) as int;
    let t = head.take(n);
    assert(sniff_len(t.len()) == n);
    assert(t.take(n) =~= head.take(n));
}

/// Law: an empty file is text unless its extension marks it binary.
pub proof fn law_empty_file_is_text(path: Seq<char>)
    requires
        !is_binary_extension(lower_extension(path)),
    ensures
        classify(path, Some(Seq::<u8>::empty())) == FileKind::Text,
{
}


proof fn lemma_all_printable(s: Seq<u8>)
    requires
        forall|i: int| 0 <= i < s.len() ==> is_printable_byte(#[trigger] s[i]),
    ensures
        printable_count(s) == s.len(),
    decreases s.len(),
{
    if s.len() > 0 {
        assert forall|i: int| 0 <= i < s.drop_last().len() implies is_printable_byte(
            #[trigger] s.drop_last()[i],
        ) by {
            assert(s.drop_last()[i] == s[i]);
        }
        lemma_all_printable(s.drop_last());
        assert(is_printable_byte(s[s.len() - 1]));
    }
}

/// Law: a path whose lower-cased extension is none of the image, archive,
/// media, executable and database extensions (jpg, jpeg, png, gif, webp,
/// ico, zip, tar, gz, bz2, xz, 7z, mp3, flac, ogg, mp4, mkv, avi, exe, dll,
/// so, dylib, class, o, a, db, sqlite, db3) is classified by its bytes
/// alone; when its first 4096 bytes are all printable ASCII, tabs, line
/// feeds or carriage returns, it is text.
pub proof fn law_other_extensions_go_by_content(path: Seq<char>, head: Seq<u8>)
    requires
        lower_extension(path) != "jpg"@,
        lower_extension(path) != "jpeg"@,
        lower_extension(path) != "png"@,
        lower_extension(path) != "gif"@,
        lower_extension(path) != "webp"@,
        lower_extension(path) != "ico"@,
        lower_extension(path) != "zip"@,
        lower_extension(path) != "tar"@,
        lower_extension(path) != "gz"@,
        lower_extension(path) != "bz2"@,
        lower_extension(path) != "xz"@,
        lower_extension(path) != "7z"@,
        lower_extension(path) != "mp3"@,
        lower_extension(path) != "flac"@,
        lower_extension(path) != "ogg"@,
        lower_extension(path) != "mp4"@,
        lower_extension(path) != "mkv"@,
        lower_extension(path) != "avi"@,
        lower_extension(path) != "exe"@,
        lower_extension(path) != "dll"@,
        lower_extension(path) != "so"@,
        lower_extension(path) != "dylib"@,
        lower_extension(path) != "class"@,
        lower_extension(path) != "o"@,
        lower_extension(path) != "a"@,
        lower_extension(path) != "db"@,
        lower_extension(path) != "sqlite"@,
        lower_extension(path) != "db3"@,
    ensures
        classify(path, Some(head)) == classify_bytes(head),
        (forall|i: int|
            0 <= i < head.len() && i < 4096 ==> {
                let b = #[trigger] head[i];
                b == 9 || b == 10 || b == 13 || (0x20 <= b && b <= 0x7e)
            }) ==> classify(path, Some(head)) == FileKind::Text,
{
    let n = sniff_len(head.len()) as int;
    let s = head.take(n);
    if forall|i: int|
        0 <= i < head.len() && i < 4096 ==> {
            let b = #[trigger] head[i];
            b == 9 || b == 10 || b == 13 || (0x20 <= b && b <= 0x7e)
        } {
        assert forall|i: int| 0 <= i < s.len() implies is_printable_byte(#[trigger] s[i]) by {
            assert(s[i] == head[i]);
        }
        lemma_all_printable(s);
        assert(!s.contains(0u8)) by {
            if s.contains(0u8) {
                let k = choose|k: int| 0 <= k < s.len() && s[k] == 0u8;
                assert(is_printable_byte(s[k]));
            }
        }
    }
}

} // verus!
