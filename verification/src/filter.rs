//! Selection of files by extension, glob, size and count.
use vstd::prelude::*;
use globset::GlobSet;
use crate::text::{unicode_lowercase, trim, chars_of, trim_chars, string_from_chars, to_lowercase,
    debug_quote, debug_quoted};
use crate::paths::{file_name, extension_or_empty, file_name_chars, extension_or_empty_chars};
use crate::config::{Config, strings_view};
use crate::fswalk::FileInfo;
use crate::order::{sort_by_path, sort_files_by_path, sorted_by_path, text_le, lemma_sort_by_path};
use crate::globs::{glob_new_error, globset_build_error, any_glob_matches,
    globset_patterns, glob_matches, builder_patterns, new_glob, new_builder, builder_add,
    builder_build, globset_is_match};

verus! {

/// An extension value as it is compared: trimmed and lower-cased.
pub open spec fn ext_key(v: Seq<char>) -> Seq<char> {
    unicode_lowercase(trim(v))
}

/// The non-empty extension keys of the values, in order.
pub open spec fn ext_keys(vals: Seq<Seq<char>>) -> Seq<Seq<char>>
    decreases vals.len(),
{
    if vals.len() == 0 {
        Seq::empty()
    } else {
        let rest = ext_keys(vals.drop_last());
        let k = ext_key(vals.last());
        if k.len() > 0 {
            rest.push(k)
        } else {
            rest
        }
    }
}

/// The basename a file is matched by: its file name, or the whole path
/// when the path has no file name.
pub open spec fn file_base(path: Seq<char>) -> Seq<char> {
    match file_name(path) {
        Some(n) => n,
        None => path,
    }
}

/// The lower-cased extension of a file's basename (empty when it has none).
pub open spec fn file_ext(path: Seq<char>) -> Seq<char> {
    unicode_lowercase(extension_or_empty(file_base(path)))
}

/// Whether a file passes the include rules: none are set, or its
/// extension is an included one, or its basename matches an include glob.
pub open spec fn included(cfg: Config, f: FileInfo) -> bool {
    let inc = ext_keys(strings_view(cfg.include_exts@));
    let ig = strings_view(cfg.include_globs@);
    let require_include = inc.len() > 0 || ig.len() > 0;
    !require_include || inc.contains(file_ext(f.path@)) || (ig.len() > 0 && any_glob_matches(
        ig,
        file_base(f.path@),
    ))
}

/// Whether the exclude rules refuse a file: its extension is an excluded
/// one, or its basename matches an exclude glob.
pub open spec fn excluded(cfg: Config, f: FileInfo) -> bool {
    let exc = ext_keys(strings_view(cfg.exclude_exts@));
    let eg = strings_view(cfg.exclude_globs@);
    exc.contains(file_ext(f.path@)) || (eg.len() > 0 && any_glob_matches(eg, file_base(f.path@)))
}

/// Whether a file is within the size limit.
pub open spec fn within_size(cfg: Config, f: FileInfo) -> bool {
    match cfg.max_size_bytes {
        Some(m) => f.size <= m,
        None => true,
    }
}

/// Whether a file passes the include rules, the exclude rules and the size limit.
pub open spec fn keeps(cfg: Config, f: FileInfo) -> bool {
    &&& included(cfg, f)
    &&& !excluded(cfg, f)
    &&& within_size(cfg, f)
}

/// The files that pass, in their original order.
pub open spec fn kept(cfg: Config, files: Seq<FileInfo>) -> Seq<FileInfo>
    decreases files.len(),
{
    if files.len() == 0 {
        Seq::empty()
    } else {
        let rest = kept(cfg, files.drop_last());
        if keeps(cfg, files.last()) {
            rest.push(files.last())
        } else {
            rest
        }
    }
}

pub open spec fn limit(s: Seq<FileInfo>, max: Option<usize>) -> Seq<FileInfo> {
    match max {
        Some(m) => if s.len() > m {
            s.take(m as int)
        } else {
            s
        },
        None => s,
    }
}

/// The first pattern `Glob::new` refuses, looking from index `i` on.
pub open spec fn first_rejected_from(pats: Seq<Seq<char>>, i: int) -> Option<int>
    decreases pats.len() - i,
{
    if i >= pats.len() || i < 0 {
        None
    } else if glob_new_error(pats[i]) is Some {
        Some(i)
    } else {
        first_rejected_from(pats, i + 1)
    }
}

/// Whether a list of globs can be built, and the error message when it cannot.
pub open spec fn globs_check(pats: Seq<Seq<char>>) -> Result<(), Seq<char>> {
    if pats.len() == 0 {
        Ok(())
    } else {
        match first_rejected_from(pats, 0) {
            Some(i) => Err("invalid glob "@ + debug_quoted(pats[i]) + ": "@ + glob_new_error(pats[i])->Some_0),
            None => match globset_build_error(pats) {
                None => Ok(()),
                Some(e) => Err("failed to build glob set: "@ + e),
            },
        }
    }
}

/// What `filter_files` returns: the glob errors first (include globs, then
/// exclude globs), otherwise the passing files sorted by path and cut to
/// `max_files`.
pub open spec fn filter_result(cfg: Config, files: Seq<FileInfo>) -> Result<Seq<FileInfo>, Seq<char>> {
    match globs_check(strings_view(cfg.include_globs@)) {
        Err(e) => Err(e),
        Ok(()) => match globs_check(strings_view(cfg.exclude_globs@)) {
            Err(e) => Err(e),
            Ok(()) => Ok(limit(sort_by_path(kept(cfg, files)), cfg.max_files)),
        },
    }
}

fn lower_key_of(v: &String) -> (r: String)
    ensures
        r@ == ext_key(v@),
{
    let cs = chars_of(v.as_str());
    let t = trim_chars(cs.as_slice());
    let ts = string_from_chars(t.as_slice());
    to_lowercase(ts.as_str())
}

/// The non-empty, trimmed, lower-cased extension values.
pub fn to_lower_set(values: &Vec<String>) -> (r: Vec<String>)
    ensures
        strings_view(r@) == ext_keys(strings_view(values@)),
{
    let mut out: Vec<String> = Vec::new();
    let mut i: usize = 0;
    while i < values.len()
        invariant
            i <= values@.len(),
            strings_view(out@) == ext_keys(strings_view(values@).take(i as int)),
        decreases values@.len() - i,
    {
        let k = lower_key_of(&values[i]);
        assert(strings_view(values@).take(i + 1).drop_last() =~= strings_view(values@).take(
            i as int,
        ));
        assert(strings_view(values@).take(i + 1).last() == values@[i as int]@);
        let kc = chars_of(k.as_str());
        if kc.len() > 0 {
            let ghost before = strings_view(out@);
            out.push(k);
            assert(strings_view(out@) =~= before.push(out@[out@.len() - 1]@));
        }
        i = i + 1;
    }
    assert(strings_view(values@).take(values@.len() as int) =~= strings_view(values@));
    out
}

proof fn first_rejected_step(pats: Seq<Seq<char>>, i: int)
    requires
        0 <= i < pats.len(),
        glob_new_error(pats[i]) is None,
    ensures
        first_rejected_from(pats, i) == first_rejected_from(pats, i + 1),
{
}

/// Builds the glob set of the patterns (`None` when there are none).
pub fn build_globset(patterns: &Vec<String>) -> (r: Result<Option<GlobSet>, String>)
    ensures
        match globs_check(strings_view(patterns@)) {
            Err(e) => r matches Err(msg) && msg@ == e,
            Ok(()) => r matches Ok(o) && (o is None <==> patterns@.len() == 0) && (o matches Some(
                s,
            ) ==> globset_patterns(s) == strings_view(patterns@)),
        },
{
    if patterns.len() == 0 {
        return Ok(None);
    }
    let ghost pats = strings_view(patterns@);
    let mut builder = new_builder();
    let mut i: usize = 0;
    while i < patterns.len()
        invariant
            i <= patterns@.len(),
            pats == strings_view(patterns@),
            builder_patterns(builder) == pats.take(i as int),
            first_rejected_from(pats, 0) == first_rejected_from(pats, i as int),
        decreases patterns@.len() - i,
    {
        let p = &patterns[i];
        assert(pats[i as int] == p@);
        match new_glob(p.as_str()) {
            Ok(g) => {
                builder_add(&mut builder, g);
                assert(pats.take(i + 1) =~= pats.take(i as int).push(p@));
                proof {
                    first_rejected_step(pats, i as int);
                }
            },
            Err(e) => {
                let mut msg = String::from_str("invalid glob ");
                let q = debug_quote(p.as_str());
                msg.append(q.as_str());
                msg.append(": ");
                msg.append(e.as_str());
                return Err(msg);
            },
        }
        i = i + 1;
    }
    assert(pats.take(patterns@.len() as int) =~= pats);
    match builder_build(&builder) {
        Ok(s) => Ok(Some(s)),
        Err(e) => {
            let mut msg = String::from_str("failed to build glob set: ");
            msg.append(e.as_str());
            Err(msg)
        },
    }
}

fn matches_globs(set: &Option<GlobSet>, base: &str) -> (r: bool)
    ensures
        r == (*set matches Some(s) && any_glob_matches(globset_patterns(s), base@)),
{
    match set {
        Some(s) => globset_is_match(s, base),
        None => false,
    }
}

fn contains_key(set: &Vec<String>, key: &String) -> (r: bool)
    ensures
        r == strings_view(set@).contains(key@),
{
    let mut i: usize = 0;
    while i < set.len()
        invariant
            i <= set@.len(),
            forall|j: int| 0 <= j < i ==> set@[j]@ != key@,
        decreases set@.len() - i,
    {
        if set[i] == *key {
            assert(strings_view(set@)[i as int] == key@);
            return true;
        }
        i = i + 1;
    }
    assert forall|j: int| 0 <= j < strings_view(set@).len() implies strings_view(set@)[j]
        != key@ by {
        assert(set@[j]@ != key@);
    }
    false
}

/// The basename and lower-cased extension a file is matched by.
pub fn base_and_ext(path: &str) -> (r: (String, String))
    ensures
        r.0@ == file_base(path@),
        r.1@ == file_ext(path@),
{
    let cs = chars_of(path);
    let base = match file_name_chars(cs.as_slice()) {
        Some(n) => n,
        None => cs,
    };
    let ext = extension_or_empty_chars(base.as_slice());
    let ext_str = string_from_chars(ext.as_slice());
    (string_from_chars(base.as_slice()), to_lowercase(ext_str.as_str()))
}

/// Selects the files that pass the include filters (when any is set: an
/// extension or basename-glob match is required), the exclude filters and the
/// size limit, sorts them by path and keeps at most `max_files`. Extensions
/// are compared trimmed and lower-cased. An invalid glob is an error.
pub fn filter_files(files: &[FileInfo], cfg: &Config) -> (r: Result<Vec<FileInfo>, String>)
    ensures
        match filter_result(*cfg, files@) {
            Ok(s) => r matches Ok(v) && v@ == s,
            Err(e) => r matches Err(msg) && msg@ == e,
        },
{
    let include_set = to_lower_set(&cfg.include_exts);
    let exclude_set = to_lower_set(&cfg.exclude_exts);
    let include_glob = match build_globset(&cfg.include_globs) {
        Ok(g) => g,
        Err(e) => return Err(e),
    };
    let exclude_glob = match build_globset(&cfg.exclude_globs) {
        Ok(g) => g,
        Err(e) => return Err(e),
    };
    let require_include = include_set.len() > 0 || include_glob.is_some();
    let mut out: Vec<FileInfo> = Vec::new();
    let mut i: usize = 0;
    while i < files.len()
        invariant
            i <= files@.len(),
            strings_view(include_set@) == ext_keys(strings_view(cfg.include_exts@)),
            strings_view(exclude_set@) == ext_keys(strings_view(cfg.exclude_exts@)),
            include_glob is None <==> cfg.include_globs@.len() == 0,
            include_glob matches Some(s) ==> globset_patterns(s) == strings_view(cfg.include_globs@),
            exclude_glob is None <==> cfg.exclude_globs@.len() == 0,
            exclude_glob matches Some(s) ==> globset_patterns(s) == strings_view(cfg.exclude_globs@),
            require_include == (include_set@.len() > 0 || cfg.include_globs@.len() > 0),
            out@ == kept(*cfg, files@.take(i as int)),
        decreases files@.len() - i,
    {
        let f = &files[i];
        let (base, ext) = base_and_ext(f.path.as_str());
        let inc_ok = !require_include || contains_key(&include_set, &ext) || matches_globs(
            &include_glob,
            base.as_str(),
        );
        let exc_hit = contains_key(&exclude_set, &ext) || matches_globs(&exclude_glob, base.as_str());
        let size_ok = match cfg.max_size_bytes {
            Some(m) => f.size <= m,
            None => true,
        };
        assert(files@.take(i + 1).drop_last() =~= files@.take(i as int));
        assert(files@.take(i + 1).last() == *f);
        assert(inc_ok && !exc_hit && size_ok <==> keeps(*cfg, *f));
        if inc_ok && !exc_hit && size_ok {
            out.push(f.duplicate());
        }
        i = i + 1;
    }
    assert(files@.take(files@.len() as int) =~= files@);
    let mut sorted = sort_files_by_path(out);
    match cfg.max_files {
        Some(max) => {
            if sorted.len() > max {
                sorted.truncate(max);
                assert(sorted@ =~= sort_by_path(kept(*cfg, files@)).take(max as int));
            }
        },
        None => {},
    }
    Ok(sorted)
}


proof fn lemma_kept(cfg: Config, files: Seq<FileInfo>)
    ensures
        forall|k: int|
            0 <= k < kept(cfg, files).len() ==> keeps(cfg, #[trigger] kept(cfg, files)[k])
                && files.contains(kept(cfg, files)[k]),
    decreases files.len(),
{
    if files.len() > 0 {
        lemma_kept(cfg, files.drop_last());
        let prev = kept(cfg, files.drop_last());
        let cur = kept(cfg, files);
        assert forall|k: int| 0 <= k < cur.len() implies keeps(cfg, #[trigger] cur[k])
            && files.contains(cur[k]) by {
            if k < prev.len() {
                assert(cur[k] == prev[k]);
                let q = choose|q: int| 0 <= q < files.drop_last().len() && files.drop_last()[q] == prev[k];
                assert(files[q] == prev[k]);
            } else {
                assert(cur[k] == files.last());
                assert(files[files.len() - 1] == files.last());
            }
        }
    }
}

/// Law: what `filter_files` returns is sorted by path, holds no more files
/// than `max_files`, and holds only files of the input that pass the
/// include, exclude and size rules; without a count limit it holds exactly
/// the passing files.
pub proof fn law_filter_output(cfg: Config, files: Seq<FileInfo>)
    ensures
        filter_result(cfg, files) matches Ok(out) ==> {
            &&& sorted_by_path(out)
            &&& (cfg.max_files matches Some(m) ==> out.len() <= m)
            &&& forall|k: int| 0 <= k < out.len() ==> keeps(cfg, #[trigger] out[k]) && files.contains(out[k])
            &&& (cfg.max_files is None ==> out.to_multiset() == kept(cfg, files).to_multiset())
        },
{
    broadcast use vstd::seq_lib::group_to_multiset_ensures;
    if let Ok(out) = filter_result(cfg, files) {
        let kp = kept(cfg, files);
        let sorted = sort_by_path(kp);
        lemma_sort_by_path(kp);
        lemma_kept(cfg, files);
        assert(out == limit(sorted, cfg.max_files));
        assert forall|k: int| 0 <= k < out.len() implies keeps(cfg, #[trigger] out[k]) && files.contains(
            out[k],
        ) by {
            assert(out[k] == sorted[k]);
            assert(sorted.to_multiset().count(sorted[k]) > 0);
            assert(kp.to_multiset().count(sorted[k]) > 0);
            assert(kp.contains(sorted[k]));
            let q = choose|q: int| 0 <= q < kp.len() && kp[q] == sorted[k];
            assert(keeps(cfg, kp[q]));
        }
        assert(sorted_by_path(out)) by {
            assert forall|i: int, j: int| 0 <= i < j < out.len() implies text_le(
                out[i].path@,
                out[j].path@,
            ) by {
                assert(out[i] == sorted[i] && out[j] == sorted[j]);
            }
        }
    }
}

/// Law: the size and count limits play no part in which files pass the
/// include and exclude rules: two configurations that agree on those rules
/// and set no limits select the same files.
pub proof fn law_rules_alone_decide(c1: Config, c2: Config, files: Seq<FileInfo>)
    requires
        c1.include_globs@ == c2.include_globs@,
        c1.include_exts@ == c2.include_exts@,
        c1.exclude_globs@ == c2.exclude_globs@,
        c1.exclude_exts@ == c2.exclude_exts@,
        c1.max_size_bytes is None,
        c2.max_size_bytes is None,
        c1.max_files is None,
        c2.max_files is None,
    ensures
        filter_result(c1, files) == filter_result(c2, files),
{
    lemma_kept_same(c1, c2, files);
}

proof fn lemma_kept_same(c1: Config, c2: Config, files: Seq<FileInfo>)
    requires
        c1.include_globs@ == c2.include_globs@,
        c1.include_exts@ == c2.include_exts@,
        c1.exclude_globs@ == c2.exclude_globs@,
        c1.exclude_exts@ == c2.exclude_exts@,
        c1.max_size_bytes == c2.max_size_bytes,
    ensures
        kept(c1, files) == kept(c2, files),
    decreases files.len(),
{
    if files.len() > 0 {
        lemma_kept_same(c1, c2, files.drop_last());
        assert(keeps(c1, files.last()) == keeps(c2, files.last()));
    }
}


proof fn lemma_kept_all(cfg: Config, s: Seq<FileInfo>)
    requires
        forall|k: int| 0 <= k < s.len() ==> keeps(cfg, #[trigger] s[k]),
    ensures
        kept(cfg, s) == s,
    decreases s.len(),
{
    if s.len() > 0 {
        assert forall|k: int| 0 <= k < s.drop_last().len() implies keeps(cfg, #[trigger] s.drop_last()[k]) by {
            assert(s.drop_last()[k] == s[k]);
        }
        lemma_kept_all(cfg, s.drop_last());
        assert(keeps(cfg, s[s.len() - 1]));
        assert(s.drop_last().push(s.last()) =~= s);
    }
}

proof fn lemma_sort_sorted(s: Seq<FileInfo>)
    requires
        sorted_by_path(s),
    ensures
        sort_by_path(s) == s,
    decreases s.len(),
{
    if s.len() > 0 {
        let dl = s.drop_last();
        assert(sorted_by_path(dl)) by {
            assert forall|i: int, j: int| 0 <= i < j < dl.len() implies text_le(dl[i].path@, dl[j].path@) by {
                assert(dl[i] == s[i] && dl[j] == s[j]);
            }
        }
        lemma_sort_sorted(dl);
        if dl.len() > 0 {
            assert(text_le(s[dl.len() - 1].path@, s[s.len() - 1].path@));
            assert(dl.last() == s[dl.len() - 1]);
        }
        assert(dl.push(s.last()) =~= s);
    }
}

/// Law: filtering the output of `filter_files` again with the same
/// configuration gives it back unchanged.
pub proof fn law_filter_idempotent_files(cfg: Config, files: Seq<FileInfo>)
    ensures
        filter_result(cfg, files) matches Ok(out) ==> filter_result(cfg, out) == Ok::<
            Seq<FileInfo>,
            Seq<char>,
        >(out),
{
    if let Ok(out) = filter_result(cfg, files) {
        law_filter_output(cfg, files);
        lemma_kept_all(cfg, out);
        lemma_sort_sorted(out);
    }
}


proof fn lemma_kept_contains(cfg: Config, files: Seq<FileInfo>, f: FileInfo)
    requires
        files.contains(f),
        keeps(cfg, f),
    ensures
        kept(cfg, files).contains(f),
    decreases files.len(),
{
    if files.last() == f {
        assert(kept(cfg, files)[kept(cfg, files).len() - 1] == f);
    } else {
        let k = choose|k: int| 0 <= k < files.len() && files[k] == f;
        assert(files.drop_last()[k] == f);
        lemma_kept_contains(cfg, files.drop_last(), f);
        let prev = kept(cfg, files.drop_last());
        let q = choose|q: int| 0 <= q < prev.len() && prev[q] == f;
        assert(kept(cfg, files)[q] == f);
    }
}

/// Law: a file passes the include rules when its lower-cased extension is
/// one of the (trimmed, lower-cased) include extensions, or when its
/// basename matches one of the include globs: either kind alone lets it in,
/// whatever of the other kind is also set. Such a file, refused by no
/// exclude rule and within the size limit, is in the output when no count
/// limit is set.
pub proof fn law_include_by_extension_or_glob(cfg: Config, files: Seq<FileInfo>, f: FileInfo)
    requires
        files.contains(f),
        cfg.max_files is None,
        ext_keys(strings_view(cfg.include_exts@)).contains(file_ext(f.path@)) || (
        cfg.include_globs@.len() > 0 && any_glob_matches(
            strings_view(cfg.include_globs@),
            file_base(f.path@),
        )),
        !ext_keys(strings_view(cfg.exclude_exts@)).contains(file_ext(f.path@)),
        !(cfg.exclude_globs@.len() > 0 && any_glob_matches(
            strings_view(cfg.exclude_globs@),
            file_base(f.path@),
        )),
        cfg.max_size_bytes matches Some(m) ==> f.size <= m,
    ensures
        filter_result(cfg, files) matches Ok(out) ==> out.contains(f),
{
    broadcast use vstd::seq_lib::group_to_multiset_ensures;
    assert(keeps(cfg, f));
    if let Ok(out) = filter_result(cfg, files) {
        lemma_kept_contains(cfg, files, f);
        let kp = kept(cfg, files);
        lemma_sort_by_path(kp);
        assert(kp.to_multiset().count(f) > 0);
        assert(out == sort_by_path(kp));
        assert(out.to_multiset().count(f) > 0);
    }
}

} // verus!
