//! A model of Unix path strings as `std::path::Path` reads them: splitting,
//! file names, extensions, parents, joining and normalisation.
use vstd::prelude::*;
use crate::text::chars_eq;

verus! {

/// `str::split(c)`: the pieces between occurrences of `c` (always at least one).
pub open spec fn split(s: Seq<char>, c: char) -> Seq<Seq<char>>
    decreases s.len(),
{
    if s.len() == 0 {
        seq![Seq::<char>::empty()]
    } else {
        let r = split(s.drop_last(), c);
        if s.last() == c {
            r.push(Seq::<char>::empty())
        } else {
            r.update(r.len() - 1, r.last().push(s.last()))
        }
    }
}

/// The pieces joined with `c` between them (`[..].join(c)`).
pub open spec fn join(ps: Seq<Seq<char>>, c: char) -> Seq<char>
    decreases ps.len(),
{
    if ps.len() == 0 {
        Seq::<char>::empty()
    } else if ps.len() == 1 {
        ps[0]
    } else {
        join(ps.drop_last(), c).push(c) + ps.last()
    }
}

pub open spec fn views(v: Seq<Vec<char>>) -> Seq<Seq<char>> {
    v.map_values(|x: Vec<char>| x@)
}

pub proof fn lemma_split_nonempty(s: Seq<char>, c: char)
    ensures
        split(s, c).len() >= 1,
    decreases s.len(),
{
    if s.len() > 0 {
        lemma_split_nonempty(s.drop_last(), c);
    }
}

/// Splits the characters at every occurrence of `sep`.
pub fn split_chars(s: &[char], sep: char) -> (r: Vec<Vec<char>>)
    ensures
        views(r@) == split(s@, sep),
{
    let mut segs: Vec<Vec<char>> = Vec::new();
    let mut cur: Vec<char> = Vec::new();
    let mut i: usize = 0;
    assert(s@.take(0) =~= Seq::<char>::empty());
    assert(views(segs@).push(cur@) =~= split(s@.take(0), sep));
    while i < s.len()
        invariant
            i <= s@.len(),
            views(segs@).push(cur@) == split(s@.take(i as int), sep),
        decreases s@.len() - i,
    {
        let c = s[i];
        assert(s@.take(i + 1).drop_last() =~= s@.take(i as int));
        assert(s@.take(i + 1).last() == c);
        proof {
            lemma_split_nonempty(s@.take(i as int), sep);
        }
        if c == sep {
            let done = cur;
            segs.push(done);
            cur = Vec::new();
            assert(views(segs@).push(cur@) =~= split(s@.take(i as int), sep).push(Seq::empty()));
        } else {
            let ghost before = views(segs@);
            cur.push(c);
            assert(views(segs@) =~= before);
            let ghost r = split(s@.take(i as int), sep);
            assert(views(segs@).push(cur@) =~= r.update(r.len() - 1, r.last().push(c)));
        }
        i = i + 1;
    }
    segs.push(cur);
    assert(s@.take(s@.len() as int) =~= s@);
    segs
}

/// Joins the pieces with `sep` between them.
pub fn join_chars(ps: &Vec<Vec<char>>, sep: char) -> (r: Vec<char>)
    ensures
        r@ == join(views(ps@), sep),
{
    let mut out: Vec<char> = Vec::new();
    let mut i: usize = 0;
    while i < ps.len()
        invariant
            i <= ps@.len(),
            out@ == join(views(ps@).take(i as int), sep),
        decreases ps@.len() - i,
    {
        let ghost prev = out@;
        let part = &ps[i];
        if i > 0 {
            out.push(sep);
        }
        let mut j: usize = 0;
        while j < part.len()
            invariant
                j <= part@.len(),
                out@ == (if i > 0 { prev.push(sep) } else { prev }) + part@.take(j as int),
            decreases part@.len() - j,
        {
            out.push(part[j]);
            assert(part@.take(j + 1) =~= part@.take(j as int).push(part@[j as int]));
            assert(out@ =~= (if i > 0 { prev.push(sep) } else { prev }) + part@.take(j + 1));
            j = j + 1;
        }
        proof {
            let t = views(ps@).take(i + 1);
            assert(part@.take(part@.len() as int) =~= part@);
            assert(t.drop_last() =~= views(ps@).take(i as int));
            assert(t.last() == part@);
            if i == 0 {
                assert(prev =~= Seq::<char>::empty());
                assert(out@ =~= join(t, sep));
            } else {
                assert(out@ =~= join(t, sep));
            }
        }
        i = i + 1;
    }
    assert(views(ps@).take(ps@.len() as int) =~= views(ps@));
    out
}

/// Length after dropping trailing separators and trailing `/.` pieces (the
/// root `/` and a leading `.` stay).
pub open spec fn tail_end(s: Seq<char>) -> int
    decreases s.len(),
{
    if s.len() > 1 && s.last() == '/' {
        tail_end(s.drop_last())
    } else if s.len() >= 2 && s.last() == '.' && s[s.len() - 2] == '/' {
        tail_end(s.drop_last())
    } else {
        s.len() as int
    }
}

pub open spec fn trim_tail(s: Seq<char>) -> Seq<char> {
    s.take(tail_end(s))
}

pub proof fn lemma_tail_end_bounds(s: Seq<char>)
    ensures
        0 <= tail_end(s) <= s.len(),
        s.len() > 0 ==> tail_end(s) > 0,
    decreases s.len(),
{
    if s.len() > 1 && s.last() == '/' {
        lemma_tail_end_bounds(s.drop_last());
    } else if s.len() >= 2 && s.last() == '.' && s[s.len() - 2] == '/' {
        lemma_tail_end_bounds(s.drop_last());
    }
}

/// Index of the last occurrence of `c`, or -1.
pub open spec fn last_index_of(s: Seq<char>, c: char) -> int
    decreases s.len(),
{
    if s.len() == 0 {
        -1
    } else if s.last() == c {
        s.len() - 1
    } else {
        last_index_of(s.drop_last(), c)
    }
}

pub proof fn lemma_last_index_of(s: Seq<char>, c: char)
    ensures
        -1 <= last_index_of(s, c) < s.len(),
        last_index_of(s, c) >= 0 ==> s[last_index_of(s, c)] == c,
        forall|i: int| last_index_of(s, c) < i < s.len() ==> s[i] != c,
    decreases s.len(),
{
    if s.len() > 0 && s.last() != c {
        lemma_last_index_of(s.drop_last(), c);
        assert forall|i: int| last_index_of(s, c) < i < s.len() implies s[i] != c by {
            if i < s.len() - 1 {
                assert(s[i] == s.drop_last()[i]);
            }
        }
    }
}

/// The last piece of the trimmed path.
pub open spec fn last_piece(s: Seq<char>) -> Seq<char> {
    let t = trim_tail(s);
    t.skip(last_index_of(t, '/') + 1)
}

/// `Path::file_name`: the last component when it is a normal name.
pub open spec fn file_name(s: Seq<char>) -> Option<Seq<char>> {
    let seg = last_piece(s);
    if seg.len() == 0 || seg == seq!['.'] || seg == seq!['.', '.'] {
        None
    } else {
        Some(seg)
    }
}

/// `OsStr` extension rule applied to a file name.
pub open spec fn name_extension(name: Seq<char>) -> Option<Seq<char>> {
    let j = last_index_of(name, '.');
    if name == seq!['.', '.'] || j <= 0 {
        None
    } else {
        Some(name.skip(j + 1))
    }
}

/// `Path::extension`.
pub open spec fn extension(s: Seq<char>) -> Option<Seq<char>> {
    match file_name(s) {
        Some(n) => name_extension(n),
        None => None,
    }
}

/// `Path::extension` with a missing extension read as the empty text.
pub open spec fn extension_or_empty(s: Seq<char>) -> Seq<char> {
    match extension(s) {
        Some(e) => e,
        None => Seq::<char>::empty(),
    }
}

/// `Path::parent`.
pub open spec fn parent(s: Seq<char>) -> Option<Seq<char>> {
    let t = trim_tail(s);
    if t.len() == 0 || t == seq!['/'] {
        None
    } else {
        let i = last_index_of(t, '/');
        if i < 0 {
            Some(Seq::<char>::empty())
        } else {
            Some(trim_tail(t.take(i + 1)))
        }
    }
}

/// `Path::is_absolute` on Unix.
pub open spec fn is_absolute(s: Seq<char>) -> bool {
    s.len() > 0 && s[0] == '/'
}

/// `PathBuf::join` on Unix: an absolute second part replaces the first, and a
/// separator is put between them when the first does not end in one.
pub open spec fn path_join(a: Seq<char>, b: Seq<char>) -> Seq<char> {
    if is_absolute(b) {
        b
    } else if a.len() > 0 && a.last() != '/' {
        a.push('/') + b
    } else {
        a + b
    }
}

fn tail_end_exec(s: &[char]) -> (e: usize)
    ensures
        e == tail_end(s@),
{
    let mut e: usize = s.len();
    assert(s@.take(e as int) =~= s@);
    while (e > 1 && s[e - 1] == '/') || (e >= 2 && s[e - 1] == '.' && s[e - 2] == '/')
        invariant
            e <= s@.len(),
            tail_end(s@.take(e as int)) == tail_end(s@),
        decreases e,
    {
        assert(s@.take(e as int).drop_last() =~= s@.take(e - 1));
        e = e - 1;
    }
    e
}

fn last_index_exec(s: &[char], c: char) -> (r: Option<usize>)
    ensures
        match r {
            Some(i) => i as int == last_index_of(s@, c),
            None => last_index_of(s@, c) == -1,
        },
{
    let mut k: usize = s.len();
    assert(s@.take(k as int) =~= s@);
    while k > 0
        invariant
            k <= s@.len(),
            last_index_of(s@.take(k as int), c) == last_index_of(s@, c),
        decreases k,
    {
        assert(s@.take(k as int).last() == s@[k - 1]);
        if s[k - 1] == c {
            return Some(k - 1);
        }
        assert(s@.take(k as int).drop_last() =~= s@.take(k - 1));
        k = k - 1;
    }
    None
}

fn slice_range(s: &[char], from: usize, to: usize) -> (r: Vec<char>)
    requires
        from <= to <= s@.len(),
    ensures
        r@ == s@.subrange(from as int, to as int),
{
    let mut out: Vec<char> = Vec::new();
    let mut i = from;
    while i < to
        invariant
            from <= i <= to <= s@.len(),
            out@ == s@.subrange(from as int, i as int),
        decreases to - i,
    {
        out.push(s[i]);
        assert(s@.subrange(from as int, i + 1) =~= s@.subrange(from as int, i as int).push(s@[i as int]));
        i = i + 1;
    }
    out
}

/// The path without its trailing separators and `/.` pieces.
pub fn trim_tail_chars(s: &[char]) -> (r: Vec<char>)
    ensures
        r@ == trim_tail(s@),
{
    let e = tail_end_exec(s);
    proof {
        lemma_tail_end_bounds(s@);
    }
    let r = slice_range(s, 0, e);
    assert(r@ =~= s@.take(e as int));
    r
}

pub fn last_piece_chars(s: &[char]) -> (r: Vec<char>)
    ensures
        r@ == last_piece(s@),
{
    let t = trim_tail_chars(s);
    proof {
        lemma_last_index_of(t@, '/');
    }
    match last_index_exec(t.as_slice(), '/') {
        Some(i) => {
            let n = t.len();
            assert(i < n);
            let r = slice_range(t.as_slice(), i + 1, n);
            assert(r@ =~= t@.skip(i + 1));
            r
        },
        None => {
            assert(t@.skip(0) =~= t@);
            t
        },
    }
}

/// `Path::file_name`.
pub fn file_name_chars(s: &[char]) -> (r: Option<Vec<char>>)
    ensures
        match r {
            Some(v) => file_name(s@) == Some(v@),
            None => file_name(s@) is None,
        },
{
    let seg = last_piece_chars(s);
    let dot: [char; 1] = ['.'];
    let dotdot: [char; 2] = ['.', '.'];
    if seg.len() == 0 || chars_eq(seg.as_slice(), &dot) || chars_eq(seg.as_slice(), &dotdot) {
        assert(dot@ =~= seq!['.']);
        assert(dotdot@ =~= seq!['.', '.']);
        None
    } else {
        assert(dot@ =~= seq!['.']);
        assert(dotdot@ =~= seq!['.', '.']);
        Some(seg)
    }
}

/// The extension of a file name, without the dot.
pub fn name_extension_chars(name: &[char]) -> (r: Option<Vec<char>>)
    ensures
        match r {
            Some(v) => name_extension(name@) == Some(v@),
            None => name_extension(name@) is None,
        },
{
    let dotdot: [char; 2] = ['.', '.'];
    assert(dotdot@ =~= seq!['.', '.']);
    proof {
        lemma_last_index_of(name@, '.');
    }
    if chars_eq(name, &dotdot) {
        return None;
    }
    match last_index_exec(name, '.') {
        Some(j) => {
            let n = name.len();
            assert(j < n);
            if j == 0 {
                None
            } else {
                let r = slice_range(name, j + 1, name.len());
                assert(r@ =~= name@.skip(j + 1));
                Some(r)
            }
        },
        None => None,
    }
}

/// `Path::extension`, with a missing extension read as empty text.
pub fn extension_or_empty_chars(s: &[char]) -> (r: Vec<char>)
    ensures
        r@ == extension_or_empty(s@),
{
    match file_name_chars(s) {
        Some(n) => match name_extension_chars(n.as_slice()) {
            Some(e) => e,
            None => Vec::new(),
        },
        None => Vec::new(),
    }
}

/// `Path::parent`.
pub fn parent_chars(s: &[char]) -> (r: Option<Vec<char>>)
    ensures
        match r {
            Some(v) => parent(s@) == Some(v@),
            None => parent(s@) is None,
        },
{
    let t = trim_tail_chars(s);
    let root: [char; 1] = ['/'];
    assert(root@ =~= seq!['/']);
    if t.len() == 0 || chars_eq(t.as_slice(), &root) {
        return None;
    }
    proof {
        lemma_last_index_of(t@, '/');
    }
    match last_index_exec(t.as_slice(), '/') {
        Some(i) => {
            let head = slice_range(t.as_slice(), 0, i + 1);
            assert(head@ =~= t@.take(i + 1));
            Some(trim_tail_chars(head.as_slice()))
        },
        None => Some(Vec::new()),
    }
}

/// `PathBuf::join` on Unix.
pub fn path_join_chars(a: &[char], b: &[char]) -> (r: Vec<char>)
    ensures
        r@ == path_join(a@, b@),
{
    if b.len() > 0 && b[0] == '/' {
        let r = slice_range(b, 0, b.len());
        assert(r@ =~= b@);
        return r;
    }
    let mut out = slice_range(a, 0, a.len());
    assert(out@ =~= a@);
    if a.len() > 0 && a[a.len() - 1] != '/' {
        out.push('/');
    }
    let ghost base = out@;
    let mut j: usize = 0;
    while j < b.len()
        invariant
            j <= b@.len(),
            out@ == base + b@.take(j as int),
        decreases b@.len() - j,
    {
        out.push(b[j]);
        assert(b@.take(j + 1) =~= b@.take(j as int).push(b@[j as int]));
        assert(out@ =~= base + b@.take(j + 1));
        j = j + 1;
    }
    assert(b@.take(b@.len() as int) =~= b@);
    out
}

proof fn lemma_tail_end_last(s: Seq<char>)
    ensures
        tail_end(s) <= s.len(),
        tail_end(s) > 1 ==> s[tail_end(s) - 1] != '/',
    decreases s.len(),
{
    if s.len() > 1 && s.last() == '/' {
        lemma_tail_end_last(s.drop_last());
        if tail_end(s) > 1 {
            assert(s[tail_end(s) - 1] == s.drop_last()[tail_end(s) - 1]);
        }
    } else if s.len() >= 2 && s.last() == '.' && s[s.len() - 2] == '/' {
        lemma_tail_end_last(s.drop_last());
        if tail_end(s) > 1 {
            assert(s[tail_end(s) - 1] == s.drop_last()[tail_end(s) - 1]);
        }
    }
}

/// A parent path is shorter than the path.
pub proof fn lemma_parent_shorter(g: Seq<char>)
    ensures
        parent(g) matches Some(q) ==> q.len() < g.len(),
{
    let t = trim_tail(g);
    lemma_tail_end_last(g);
    lemma_tail_end_bounds(g);
    if t.len() > 0 && t != seq!['/'] {
        let i = last_index_of(t, '/');
        lemma_last_index_of(t, '/');
        if i >= 0 {
            lemma_tail_end_bounds(t.take(i + 1));
            if i == t.len() - 1 {
                assert(t[i] == '/');
                if t.len() > 1 {
                    assert(g[tail_end(g) - 1] == t[i]);
                } else {
                    assert(t =~= seq!['/']);
                }
            }
        }
    }
}

/// The number of pieces that are neither empty nor `.`.
pub open spec fn normal_piece_count(segs: Seq<Seq<char>>) -> nat
    decreases segs.len(),
{
    if segs.len() == 0 {
        0
    } else {
        normal_piece_count(segs.drop_last()) + if segs.last().len() == 0 || segs.last() == seq!['.'] {
            0nat
        } else {
            1nat
        }
    }
}

/// Whether a relative path starts with a `.` component (`.` or `./...`).
pub open spec fn starts_with_cur_dir(s: Seq<char>) -> bool {
    !is_absolute(s) && s.len() >= 1 && s[0] == '.' && (s.len() == 1 || s[1] == '/')
}

/// `Path::components().count()` on Unix: the root, a leading `.`, and every
/// piece that is neither empty nor `.`.
pub open spec fn component_count(s: Seq<char>) -> nat {
    (if is_absolute(s) {
        1nat
    } else {
        0nat
    }) + (if starts_with_cur_dir(s) {
        1nat
    } else {
        0nat
    }) + normal_piece_count(split(s, '/'))
}

/// `Path::components().count()` on Unix.
pub fn component_count_chars(s: &[char]) -> (r: u128)
    ensures
        r as nat == component_count(s@),
{
    let segs = split_chars(s, '/');
    let ghost sv = split(s@, '/');
    let mut count: u128 = 0;
    let mut i: usize = 0;
    while i < segs.len()
        invariant
            i <= segs@.len(),
            views(segs@) == sv,
            count as nat == normal_piece_count(sv.take(i as int)),
            count <= i as u128,
        decreases segs@.len() - i,
    {
        let seg = &segs[i];
        assert(sv.take(i + 1).drop_last() =~= sv.take(i as int));
        assert(sv.take(i + 1).last() == seg@);
        let dot: [char; 1] = ['.'];
        assert(dot@ =~= seq!['.']);
        if !(seg.len() == 0 || chars_eq(seg.as_slice(), &dot)) {
            count = count + 1;
        }
        i = i + 1;
    }
    assert(sv.take(segs@.len() as int) =~= sv);
    let root: u128 = if s.len() > 0 && s[0] == '/' {
        1
    } else {
        0
    };
    let cur: u128 = if !(s.len() > 0 && s[0] == '/') && s.len() >= 1 && s[0] == '.' && (s.len()
        == 1 || s[1] == '/') {
        1
    } else {
        0
    };
    root + cur + count
}

pub proof fn lemma_split_len(s: Seq<char>, c: char)
    ensures
        split(s, c).len() <= s.len() + 1,
    decreases s.len(),
{
    if s.len() > 0 {
        lemma_split_len(s.drop_last(), c);
        lemma_split_nonempty(s.drop_last(), c);
    }
}

/// The text of an optional string.
pub open spec fn opt_string(o: Option<String>) -> Option<Seq<char>> {
    match o {
        Some(s) => Some(s@),
        None => None,
    }
}

/// Names what `Path::strip_prefix` gives: the rest of `path` after the
/// components of `base`, or `None` when `base` is not a prefix of it.
pub uninterp spec fn stripped_path(path: Seq<char>, base: Seq<char>) -> Option<Seq<char>>;

/// `Path::strip_prefix`, with the rest converted back to a string. Its
/// result is named by `stripped_path`; the component-wise comparison that
/// decides it is not stated.
#[verifier::external_body]
pub fn strip_path_prefix(path: &str, base: &str) -> (r: Option<String>)
    ensures
        opt_string(r) == stripped_path(path@, base@),
{
    match std::path::Path::new(path).strip_prefix(base) {
        Ok(rest) => Some(rest.to_string_lossy().into_owned()),
        Err(_) => None,
    }
}


/// No piece of a split holds the separator.
pub proof fn lemma_split_no_sep(s: Seq<char>, c: char)
    ensures
        forall|i: int| 0 <= i < split(s, c).len() ==> !(#[trigger] split(s, c)[i]).contains(c),
    decreases s.len(),
{
    if s.len() > 0 {
        lemma_split_no_sep(s.drop_last(), c);
        lemma_split_nonempty(s.drop_last(), c);
        let r = split(s.drop_last(), c);
        let out = split(s, c);
        assert forall|i: int| 0 <= i < out.len() implies !(#[trigger] out[i]).contains(c) by {
            if s.last() == c {
                if i < r.len() {
                    assert(out[i] == r[i]);
                } else {
                    assert(out[i] == Seq::<char>::empty());
                }
            } else if i < r.len() - 1 {
                assert(out[i] == r[i]);
            } else {
                let t = r.last().push(s.last());
                assert(out[i] == t);
                if t.contains(c) {
                    let k = choose|k: int| 0 <= k < t.len() && t[k] == c;
                    assert(r.last()[k] == c);
                    assert(r[r.len() - 1].contains(c));
                }
            }
        }
    }
}

/// Appending text without the separator extends the last piece.
pub proof fn lemma_split_append(s: Seq<char>, t: Seq<char>, c: char)
    requires
        !t.contains(c),
    ensures
        split(s + t, c) == split(s, c).update(split(s, c).len() - 1, split(s, c).last() + t),
    decreases t.len(),
{
    lemma_split_nonempty(s, c);
    let r = split(s, c);
    if t.len() == 0 {
        assert(s + t =~= s);
        assert(r.last() + t =~= r.last());
        assert(r.update(r.len() - 1, r.last() + t) =~= r);
    } else {
        let t0 = t.drop_last();
        assert(!t0.contains(c)) by {
            if t0.contains(c) {
                let k = choose|k: int| 0 <= k < t0.len() && t0[k] == c;
                assert(t[k] == c);
            }
        }
        lemma_split_append(s, t0, c);
        assert((s + t).drop_last() =~= s + t0);
        assert((s + t).last() == t.last());
        assert(t.last() != c) by {
            assert(t[t.len() - 1] == t.last());
        }
        let r1 = split(s + t0, c);
        assert(r1 == r.update(r.len() - 1, r.last() + t0));
        assert(r1.last() == r.last() + t0);
        assert((r.last() + t0).push(t.last()) =~= r.last() + t);
        assert(r1.update(r1.len() - 1, r1.last().push(t.last())) =~= r.update(
            r.len() - 1,
            r.last() + t,
        ));
    }
}

/// Splitting pieces joined by a separator they do not hold gives them back.
pub proof fn lemma_split_join(ps: Seq<Seq<char>>, c: char)
    requires
        ps.len() >= 1,
        forall|i: int| 0 <= i < ps.len() ==> !(#[trigger] ps[i]).contains(c),
    ensures
        split(join(ps, c), c) == ps,
    decreases ps.len(),
{
    if ps.len() == 1 {
        lemma_split_append(Seq::<char>::empty(), ps[0], c);
        assert(Seq::<char>::empty() + ps[0] =~= ps[0]);
        assert(split(Seq::<char>::empty(), c) == seq![Seq::<char>::empty()]);
        assert(seq![Seq::<char>::empty()].update(0, Seq::<char>::empty() + ps[0]) =~= ps);
    } else {
        let dl = ps.drop_last();
        lemma_split_join(dl, c);
        let j = join(dl, c);
        assert(j.push(c).drop_last() =~= j);
        assert(split(j.push(c), c) == dl.push(Seq::<char>::empty()));
        lemma_split_append(j.push(c), ps.last(), c);
        assert(Seq::<char>::empty() + ps.last() =~= ps.last());
        assert(dl.push(Seq::<char>::empty()).update(dl.len() as int, ps.last()) =~= ps);
    }
}

/// Joined pieces start with the first piece.
pub proof fn lemma_join_starts(ps: Seq<Seq<char>>, c: char)
    requires
        ps.len() >= 1,
    ensures
        join(ps, c).len() >= ps[0].len(),
        forall|k: int| 0 <= k < ps[0].len() ==> join(ps, c)[k] == ps[0][k],
    decreases ps.len(),
{
    if ps.len() > 1 {
        lemma_join_starts(ps.drop_last(), c);
    }
}


/// A character absent from the text is absent from every piece of its split.
pub proof fn lemma_split_avoids(s: Seq<char>, c: char, x: char)
    requires
        !s.contains(x),
    ensures
        forall|i: int| 0 <= i < split(s, c).len() ==> !(#[trigger] split(s, c)[i]).contains(x),
    decreases s.len(),
{
    if s.len() > 0 {
        assert(!s.drop_last().contains(x)) by {
            if s.drop_last().contains(x) {
                let k = choose|k: int| 0 <= k < s.drop_last().len() && s.drop_last()[k] == x;
                assert(s[k] == x);
            }
        }
        assert(s.last() != x) by {
            assert(s[s.len() - 1] == s.last());
        }
        lemma_split_avoids(s.drop_last(), c, x);
        lemma_split_nonempty(s.drop_last(), c);
        let r = split(s.drop_last(), c);
        let out = split(s, c);
        assert forall|i: int| 0 <= i < out.len() implies !(#[trigger] out[i]).contains(x) by {
            if s.last() == c {
                if i < r.len() {
                    assert(out[i] == r[i]);
                } else {
                    assert(out[i] == Seq::<char>::empty());
                }
            } else if i < r.len() - 1 {
                assert(out[i] == r[i]);
            } else {
                let t = r.last().push(s.last());
                assert(out[i] == t);
                if t.contains(x) {
                    let k = choose|k: int| 0 <= k < t.len() && t[k] == x;
                    assert(r.last()[k] == x);
                    assert(r[r.len() - 1].contains(x));
                }
            }
        }
    }
}

/// A character other than the separator that no piece holds is absent from the join.
pub proof fn lemma_join_avoids(ps: Seq<Seq<char>>, c: char, x: char)
    requires
        x != c,
        forall|i: int| 0 <= i < ps.len() ==> !(#[trigger] ps[i]).contains(x),
    ensures
        !join(ps, c).contains(x),
    decreases ps.len(),
{
    if ps.len() == 1 {
        assert(!ps[0].contains(x));
    } else if ps.len() > 1 {
        let dl = ps.drop_last();
        assert forall|i: int| 0 <= i < dl.len() implies !(#[trigger] dl[i]).contains(x) by {
            assert(dl[i] == ps[i]);
        }
        lemma_join_avoids(dl, c, x);
        let j = join(dl, c);
        let l = ps.last();
        assert(!l.contains(x)) by {
            assert(ps[ps.len() - 1] == l);
        }
        let t = j.push(c) + l;
        if t.contains(x) {
            let k = choose|k: int| 0 <= k < t.len() && t[k] == x;
            if k < j.len() {
                assert(t[k] == j[k]);
            } else if k == j.len() {
                assert(t[k] == c);
            } else {
                assert(t[k] == l[k - j.len() - 1]);
            }
        }
    }
}

/// The join ends with the last piece's last character when that piece is not empty.
pub proof fn lemma_join_ends(ps: Seq<Seq<char>>, c: char)
    requires
        ps.len() >= 1,
        ps.last().len() > 0,
    ensures
        join(ps, c).len() > 0,
        join(ps, c).last() == ps.last().last(),
{
    if ps.len() > 1 {
        let t = join(ps.drop_last(), c).push(c) + ps.last();
        assert(t.last() == ps.last().last());
    }
}

} // verus!
