//! Lexicographic order of texts (the order of `String::cmp`) and the stable
//! sort of files by path.
use vstd::prelude::*;
use crate::text::chars_of;
use crate::fswalk::FileInfo;

verus! {

/// `a <= b` in the order of `str::cmp`: code points compared one by one,
/// a proper prefix first (UTF-8 byte order is code point order).
pub open spec fn text_le(a: Seq<char>, b: Seq<char>) -> bool
    decreases a.len(),
{
    if a.len() == 0 {
        true
    } else if b.len() == 0 {
        false
    } else if a[0] != b[0] {
        a[0] < b[0]
    } else {
        text_le(a.drop_first(), b.drop_first())
    }
}

pub proof fn lemma_text_le_total(a: Seq<char>, b: Seq<char>)
    ensures
        text_le(a, b) || text_le(b, a),
    decreases a.len(),
{
    if a.len() > 0 && b.len() > 0 && a[0] == b[0] {
        lemma_text_le_total(a.drop_first(), b.drop_first());
    }
}

pub proof fn lemma_text_le_trans(a: Seq<char>, b: Seq<char>, c: Seq<char>)
    requires
        text_le(a, b),
        text_le(b, c),
    ensures
        text_le(a, c),
    decreases a.len(),
{
    if a.len() > 0 && b.len() > 0 && c.len() > 0 && a[0] == b[0] && b[0] == c[0] {
        lemma_text_le_trans(a.drop_first(), b.drop_first(), c.drop_first());
    }
}

pub proof fn lemma_text_le_antisym(a: Seq<char>, b: Seq<char>)
    requires
        text_le(a, b),
        text_le(b, a),
    ensures
        a == b,
    decreases a.len(),
{
    if a.len() == 0 {
        assert(b.len() == 0);
        assert(a =~= b);
    } else {
        assert(b.len() > 0);
        assert(a[0] == b[0]);
        lemma_text_le_antisym(a.drop_first(), b.drop_first());
        assert forall|i: int| 0 <= i < a.len() implies a[i] == b[i] by {
            if i > 0 {
                assert(a[i] == a.drop_first()[i - 1]);
                assert(b[i] == b.drop_first()[i - 1]);
            }
        }
        assert(a =~= b);
    }
}

/// `text_le` on characters.
pub fn chars_le(a: &[char], b: &[char]) -> (r: bool)
    ensures
        r == text_le(a@, b@),
{
    let mut i: usize = 0;
    assert(a@.skip(0) =~= a@);
    assert(b@.skip(0) =~= b@);
    while i < a.len() && i < b.len() && a[i] == b[i]
        invariant
            i <= a@.len(),
            i <= b@.len(),
            text_le(a@.skip(i as int), b@.skip(i as int)) == text_le(a@, b@),
        decreases a@.len() - i,
    {
        assert(a@.skip(i as int).drop_first() =~= a@.skip(i + 1));
        assert(b@.skip(i as int).drop_first() =~= b@.skip(i + 1));
        i = i + 1;
    }
    if i == a.len() {
        true
    } else if i == b.len() {
        false
    } else {
        a[i] < b[i]
    }
}

/// `text_le` on strings.
pub fn str_le(a: &str, b: &str) -> (r: bool)
    ensures
        r == text_le(a@, b@),
{
    let x = chars_of(a);
    let y = chars_of(b);
    chars_le(x.as_slice(), y.as_slice())
}

/// Places `x` after the last element whose path is not greater than its own
/// (one step of a stable insertion sort by path).
pub open spec fn insert_by_path(s: Seq<FileInfo>, x: FileInfo) -> Seq<FileInfo>
    decreases s.len(),
{
    if s.len() == 0 {
        seq![x]
    } else if text_le(s.last().path@, x.path@) {
        s.push(x)
    } else {
        insert_by_path(s.drop_last(), x).push(s.last())
    }
}

/// The stable sort of files by path (what `sort_by(|a, b| a.path.cmp(&b.path))` gives).
pub open spec fn sort_by_path(s: Seq<FileInfo>) -> Seq<FileInfo>
    decreases s.len(),
{
    if s.len() == 0 {
        s
    } else {
        insert_by_path(sort_by_path(s.drop_last()), s.last())
    }
}

pub open spec fn sorted_by_path(s: Seq<FileInfo>) -> bool {
    forall|i: int, j: int| 0 <= i < j < s.len() ==> text_le(s[i].path@, s[j].path@)
}

proof fn lemma_insert_position(s: Seq<FileInfo>, x: FileInfo, k: int)
    requires
        0 <= k <= s.len(),
        k == 0 || text_le(s[k - 1].path@, x.path@),
        forall|j: int| k <= j < s.len() ==> !text_le(#[trigger] s[j].path@, x.path@),
    ensures
        insert_by_path(s, x) == s.insert(k, x),
    decreases s.len(),
{
    if s.len() == 0 {
        assert(s.insert(k, x) =~= seq![x]);
    } else if k == s.len() {
        assert(s.insert(k, x) =~= s.push(x));
    } else {
        assert(!text_le(s.last().path@, x.path@));
        lemma_insert_position(s.drop_last(), x, k);
        assert(s.drop_last().insert(k, x).push(s.last()) =~= s.insert(k, x));
    }
}

/// Sorts files by path, stably.
pub fn sort_files_by_path(files: Vec<FileInfo>) -> (r: Vec<FileInfo>)
    ensures
        r@ == sort_by_path(files@),
{
    let mut out: Vec<FileInfo> = Vec::new();
    let mut rest = files;
    let ghost all = rest@;
    let mut i: usize = 0;
    let n = rest.len();
    while rest.len() > 0
        invariant
            all.len() == n,
            i + rest@.len() == n,
            rest@ == all.skip(i as int),
            out@ == sort_by_path(all.take(i as int)),
        decreases rest@.len(),
    {
        let x = rest.remove(0);
        assert(all.take(i + 1).drop_last() =~= all.take(i as int));
        assert(all.take(i + 1).last() == x);
        let mut k = out.len();
        while k > 0 && !str_le(out[k - 1].path.as_str(), x.path.as_str())
            invariant
                k <= out@.len(),
                forall|j: int| k <= j < out@.len() ==> !text_le(#[trigger] out@[j].path@, x.path@),
            decreases k,
        {
            k = k - 1;
        }
        proof {
            lemma_insert_position(out@, x, k as int);
        }
        out.insert(k, x);
        assert(rest@ =~= all.skip(i + 1));
        i = i + 1;
    }
    assert(all.take(n as int) =~= all);
    out
}

pub proof fn lemma_insert_sorted(s: Seq<FileInfo>, x: FileInfo)
    requires
        sorted_by_path(s),
    ensures
        sorted_by_path(insert_by_path(s, x)),
        insert_by_path(s, x).to_multiset() == s.to_multiset().insert(x),
    decreases s.len(),
{
    broadcast use vstd::seq_lib::group_to_multiset_ensures;
    if s.len() == 0 {
        assert(seq![x] =~= Seq::<FileInfo>::empty().push(x));
    } else if text_le(s.last().path@, x.path@) {
        assert forall|i: int, j: int| 0 <= i < j < s.push(x).len() implies text_le(
            s.push(x)[i].path@,
            s.push(x)[j].path@,
        ) by {
            if j == s.len() {
                if i < s.len() - 1 {
                    lemma_text_le_trans(s[i].path@, s.last().path@, x.path@);
                }
            }
        }
    } else {
        let t = s.drop_last();
        assert(sorted_by_path(t));
        lemma_insert_sorted(t, x);
        let u = insert_by_path(t, x);
        lemma_text_le_total(s.last().path@, x.path@);
        assert forall|i: int| 0 <= i < u.len() implies text_le(#[trigger] u[i].path@, s.last().path@) by {
            assert(u.to_multiset().count(u[i]) > 0);
            assert(t.to_multiset().insert(x).count(u[i]) > 0);
            if u[i] == x {
            } else {
                assert(t.to_multiset().count(u[i]) > 0);
                assert(t.contains(u[i]));
                let k = choose|k: int| 0 <= k < t.len() && t[k] == u[i];
                assert(s[k] == t[k]);
            }
        }
        assert forall|i: int, j: int| 0 <= i < j < u.push(s.last()).len() implies text_le(
            u.push(s.last())[i].path@,
            u.push(s.last())[j].path@,
        ) by {
            if j == u.len() {
                assert(u.push(s.last())[i] == u[i]);
            }
        }
        assert(s =~= t.push(s.last()));
    }
}

/// The stable sort by path is sorted and holds the same files.
pub proof fn lemma_sort_by_path(s: Seq<FileInfo>)
    ensures
        sorted_by_path(sort_by_path(s)),
        sort_by_path(s).to_multiset() == s.to_multiset(),
    decreases s.len(),
{
    broadcast use vstd::seq_lib::group_to_multiset_ensures;
    if s.len() > 0 {
        lemma_sort_by_path(s.drop_last());
        lemma_insert_sorted(sort_by_path(s.drop_last()), s.last());
        assert(s =~= s.drop_last().push(s.last()));
    }
}

} // verus!
