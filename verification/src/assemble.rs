//! Assembling the directory tree from the walked entries.
use vstd::prelude::*;
use crate::text::{chars_of, chars_eq, string_from_chars};
use crate::config::{is_dot, contains_text, strings_view, ExcludeDirRules, build_rules,
    build_exclude_dir_rules, default_excludes, default_exclude_names, exclude_dir_message};
use crate::paths::{opt_string, parent, parent_chars, component_count, component_count_chars,
    lemma_parent_shorter};
use crate::order::{text_le, chars_le, lemma_text_le_total, lemma_text_le_trans,
    lemma_text_le_antisym};
use crate::fswalk::{FileInfo, TreeNode, TreeView, node_view, nodes_view, lemma_nodes_view_push};

verus! {

/// An entry met while walking the root: its root-relative path (empty for
/// the root itself), its name, its kind, its depth below the root and, for
/// files, its size.
#[derive(Debug, Clone)]
pub struct WalkEntry {
    pub path: String,
    pub name: String,
    pub is_dir: bool,
    pub is_symlink: bool,
    pub depth: usize,
    pub size: u64,
}

/// The tree key of the directory that holds a path: its parent, with the
/// empty parent read as the root `.`.
pub open spec fn parent_key(p: Seq<char>) -> Option<Seq<char>> {
    match parent(p) {
        Some(q) => Some(
            if q.len() == 0 {
                seq!['.']
            } else {
                q
            },
        ),
        None => None,
    }
}

/// Indices `j < n` of the entries directly under `p` (entries whose path is
/// `.` are the root and never a child), in walk order.
pub open spec fn raw_children(nodes: Seq<WalkEntry>, p: Seq<char>, n: int) -> Seq<int>
    decreases n,
{
    if n <= 0 {
        Seq::empty()
    } else {
        let j = n - 1;
        raw_children(nodes, p, n - 1) + if nodes[j].path@ != seq!['.'] && parent_key(nodes[j].path@)
            == Some(p) {
            seq![j]
        } else {
            Seq::<int>::empty()
        }
    }
}

/// Whether `raw[i]` is the last of the listed entries with its path.
pub open spec fn is_last_of_path(nodes: Seq<WalkEntry>, raw: Seq<int>, i: int) -> bool {
    forall|k: int| i < k < raw.len() ==> nodes[raw[k]].path@ != nodes[raw[i]].path@
}

/// Of the listed entries with the same path only the last one stays (a
/// later entry replaces an earlier one).
pub open spec fn kept_prefix(nodes: Seq<WalkEntry>, raw: Seq<int>, n: int) -> Seq<int>
    decreases n,
{
    if n <= 0 {
        Seq::empty()
    } else {
        kept_prefix(nodes, raw, n - 1) + if is_last_of_path(nodes, raw, n - 1) {
            seq![raw[n - 1]]
        } else {
            Seq::<int>::empty()
        }
    }
}

/// The order of siblings: by name; equal names with more path components
/// first, then by path, greater first.
pub open spec fn sibling_le(nodes: Seq<WalkEntry>, a: int, b: int) -> bool {
    let na = nodes[a].name@;
    let nb = nodes[b].name@;
    let pa = nodes[a].path@;
    let pb = nodes[b].path@;
    if na != nb {
        text_le(na, nb)
    } else if component_count(pa) != component_count(pb) {
        component_count(pa) > component_count(pb)
    } else {
        text_le(pb, pa)
    }
}

pub open spec fn insert_sibling(nodes: Seq<WalkEntry>, s: Seq<int>, x: int) -> Seq<int>
    decreases s.len(),
{
    if s.len() == 0 {
        seq![x]
    } else if sibling_le(nodes, s.last(), x) {
        s.push(x)
    } else {
        insert_sibling(nodes, s.drop_last(), x).push(s.last())
    }
}

pub open spec fn sort_siblings(nodes: Seq<WalkEntry>, s: Seq<int>) -> Seq<int>
    decreases s.len(),
{
    if s.len() == 0 {
        s
    } else {
        insert_sibling(nodes, sort_siblings(nodes, s.drop_last()), s.last())
    }
}

/// The entries directly under `p`, one per path, in sibling order.
pub open spec fn child_order(nodes: Seq<WalkEntry>, p: Seq<char>) -> Seq<int> {
    let raw = raw_children(nodes, p, nodes.len() as int);
    sort_siblings(nodes, kept_prefix(nodes, raw, raw.len() as int))
}

pub open spec fn max_path_len(nodes: Seq<WalkEntry>) -> nat
    decreases nodes.len(),
{
    if nodes.len() == 0 {
        0
    } else {
        let m = max_path_len(nodes.drop_last());
        let l = nodes.last().path@.len();
        if m >= l {
            m
        } else {
            l
        }
    }
}

pub open spec fn depth_measure(nodes: Seq<WalkEntry>, p: Seq<char>) -> nat {
    if p.len() <= max_path_len(nodes) {
        (max_path_len(nodes) + 1 - p.len()) as nat
    } else {
        0
    }
}

pub proof fn lemma_max_path_len(nodes: Seq<WalkEntry>, j: int)
    requires
        0 <= j < nodes.len(),
    ensures
        nodes[j].path@.len() <= max_path_len(nodes),
    decreases nodes.len(),
{
    if j < nodes.len() - 1 {
        lemma_max_path_len(nodes.drop_last(), j);
    }
}

proof fn lemma_raw_children_len(nodes: Seq<WalkEntry>, p: Seq<char>, n: int)
    ensures
        raw_children(nodes, p, n).len() <= if n < 0 {
            0
        } else {
            n
        },
        forall|k: int|
            0 <= k < raw_children(nodes, p, n).len() ==> 0 <= #[trigger] raw_children(
                nodes,
                p,
                n,
            )[k] < n && nodes[raw_children(nodes, p, n)[k]].path@ != seq!['.'] && parent_key(
                nodes[raw_children(nodes, p, n)[k]].path@,
            ) == Some(p),
    decreases n,
{
    if n > 0 {
        lemma_raw_children_len(nodes, p, n - 1);
    }
}

proof fn lemma_kept_prefix(nodes: Seq<WalkEntry>, raw: Seq<int>, n: int)
    requires
        0 <= n <= raw.len(),
    ensures
        kept_prefix(nodes, raw, n).len() <= n,
        forall|k: int|
            0 <= k < kept_prefix(nodes, raw, n).len() ==> raw.contains(
                #[trigger] kept_prefix(nodes, raw, n)[k],
            ),
    decreases n,
{
    if n > 0 {
        lemma_kept_prefix(nodes, raw, n - 1);
        let prev = kept_prefix(nodes, raw, n - 1);
        let cur = kept_prefix(nodes, raw, n);
        assert forall|k: int| 0 <= k < cur.len() implies raw.contains(#[trigger] cur[k]) by {
            if k < prev.len() {
                assert(cur[k] == prev[k]);
            } else {
                assert(cur[k] == raw[n - 1]);
            }
        }
    }
}

proof fn lemma_insert_sibling(nodes: Seq<WalkEntry>, s: Seq<int>, x: int)
    ensures
        insert_sibling(nodes, s, x).len() == s.len() + 1,
        forall|k: int|
            0 <= k < insert_sibling(nodes, s, x).len() ==> (#[trigger] insert_sibling(nodes, s, x)[k]
                == x || s.contains(insert_sibling(nodes, s, x)[k])),
    decreases s.len(),
{
    if s.len() > 0 && !sibling_le(nodes, s.last(), x) {
        lemma_insert_sibling(nodes, s.drop_last(), x);
        let r = insert_sibling(nodes, s, x);
        let r0 = insert_sibling(nodes, s.drop_last(), x);
        assert forall|k: int| 0 <= k < r.len() implies (#[trigger] r[k] == x || s.contains(r[k])) by {
            if k < r0.len() {
                assert(r[k] == r0[k]);
                if r0[k] != x {
                    let m = choose|m: int| 0 <= m < s.drop_last().len() && s.drop_last()[m] == r0[k];
                    assert(s[m] == r0[k]);
                }
            } else {
                assert(r[k] == s[s.len() - 1]);
            }
        }
    } else if s.len() > 0 {
        let r = insert_sibling(nodes, s, x);
        assert forall|k: int| 0 <= k < r.len() implies (#[trigger] r[k] == x || s.contains(r[k])) by {
            if k < s.len() {
                assert(r[k] == s[k]);
            }
        }
    }
}

proof fn lemma_sort_siblings(nodes: Seq<WalkEntry>, s: Seq<int>)
    ensures
        sort_siblings(nodes, s).len() == s.len(),
        forall|k: int|
            0 <= k < sort_siblings(nodes, s).len() ==> s.contains(#[trigger] sort_siblings(nodes, s)[k]),
    decreases s.len(),
{
    if s.len() > 0 {
        lemma_sort_siblings(nodes, s.drop_last());
        let t = sort_siblings(nodes, s.drop_last());
        lemma_insert_sibling(nodes, t, s.last());
        let r = sort_siblings(nodes, s);
        assert forall|k: int| 0 <= k < r.len() implies s.contains(#[trigger] r[k]) by {
            if r[k] == s.last() {
                assert(s[s.len() - 1] == r[k]);
            } else {
                assert(t.contains(r[k]));
                let m = choose|m: int| 0 <= m < t.len() && t[m] == r[k];
                assert(s.drop_last().contains(t[m]));
                let q = choose|q: int| 0 <= q < s.drop_last().len() && s.drop_last()[q] == r[k];
                assert(s[q] == r[k]);
            }
        }
    }
}

/// What is known of every index of `child_order(nodes, p)`.
pub proof fn lemma_child_order(nodes: Seq<WalkEntry>, p: Seq<char>)
    ensures
        child_order(nodes, p).len() <= nodes.len(),
        forall|k: int|
            0 <= k < child_order(nodes, p).len() ==> 0 <= #[trigger] child_order(nodes, p)[k]
                < nodes.len() && nodes[child_order(nodes, p)[k]].path@ != seq!['.'] && parent_key(
                nodes[child_order(nodes, p)[k]].path@,
            ) == Some(p),
{
    let raw = raw_children(nodes, p, nodes.len() as int);
    lemma_raw_children_len(nodes, p, nodes.len() as int);
    let kept = kept_prefix(nodes, raw, raw.len() as int);
    lemma_kept_prefix(nodes, raw, raw.len() as int);
    lemma_sort_siblings(nodes, kept);
    let o = child_order(nodes, p);
    assert forall|k: int| 0 <= k < o.len() implies 0 <= #[trigger] o[k] < nodes.len()
        && nodes[o[k]].path@ != seq!['.'] && parent_key(nodes[o[k]].path@) == Some(p) by {
        assert(kept.contains(o[k]));
        let m = choose|m: int| 0 <= m < kept.len() && kept[m] == o[k];
        assert(raw.contains(kept[m]));
        let q = choose|q: int| 0 <= q < raw.len() && raw[q] == o[k];
        assert(0 <= raw[q] < nodes.len());
    }
}

/// The child's key is shorter than the child's path, unless the key is the root.
pub proof fn lemma_parent_key_shorter(c: Seq<char>, p: Seq<char>)
    requires
        parent_key(c) == Some(p),
        p != seq!['.'],
    ensures
        p.len() < c.len(),
{
    lemma_parent_shorter(c);
}

/// The tree below entry `j`: its name, path and kind, and the subtrees of
/// the entries directly under its path.
pub open spec fn subtree(nodes: Seq<WalkEntry>, j: int) -> TreeView
    decreases depth_measure(nodes, nodes[j].path@), nodes.len() + 1,
{
    let p = nodes[j].path@;
    proof {
        lemma_child_order(nodes, p);
    }
    TreeView {
        name: nodes[j].name@,
        path: p,
        is_dir: nodes[j].is_dir,
        children: subtrees(nodes, p, child_order(nodes, p)),
    }
}

/// The subtrees of the listed entries, each of which lies directly under `p`.
pub open spec fn subtrees(nodes: Seq<WalkEntry>, p: Seq<char>, order: Seq<int>) -> Seq<TreeView>
    decreases depth_measure(nodes, p), order.len(),
{
    if order.len() == 0 {
        Seq::empty()
    } else {
        let j = order.last();
        let rest = subtrees(nodes, p, order.drop_last());
        if 0 <= j < nodes.len() && p != seq!['.'] && parent_key(nodes[j].path@) == Some(p) {
            proof {
                lemma_parent_key_shorter(nodes[j].path@, p);
                lemma_max_path_len(nodes, j);
            }
            rest.push(subtree(nodes, j))
        } else {
            rest
        }
    }
}

/// The subtrees of the listed entries (under the root).
pub open spec fn root_subtrees(nodes: Seq<WalkEntry>, order: Seq<int>) -> Seq<TreeView>
    decreases order.len(),
{
    if order.len() == 0 {
        Seq::empty()
    } else {
        let j = order.last();
        let rest = root_subtrees(nodes, order.drop_last());
        if 0 <= j < nodes.len() {
            rest.push(subtree(nodes, j))
        } else {
            rest
        }
    }
}

/// The index of the last entry whose path is `.`, looking below `n`.
pub open spec fn root_entry(nodes: Seq<WalkEntry>, n: int) -> Option<int>
    decreases n,
{
    if n <= 0 {
        None
    } else if nodes[n - 1].path@ == seq!['.'] {
        Some(n - 1)
    } else {
        root_entry(nodes, n - 1)
    }
}

/// The whole tree: the root (named `root_name`, a directory, unless an entry
/// with path `.` replaces it) with the entries directly under `.` below it.
pub open spec fn tree_of(root_name: Seq<char>, nodes: Seq<WalkEntry>) -> TreeView {
    let (name, is_dir) = match root_entry(nodes, nodes.len() as int) {
        Some(r) => (nodes[r].name@, nodes[r].is_dir),
        None => (root_name, true),
    };
    TreeView {
        name,
        path: seq!['.'],
        is_dir,
        children: root_subtrees(nodes, child_order(nodes, seq!['.'])),
    }
}


/// The indices as integers.
pub open spec fn ints(s: Seq<usize>) -> Seq<int> {
    s.map_values(|x: usize| x as int)
}

/// Every index is below `n`.
pub open spec fn below(s: Seq<usize>, n: int) -> bool {
    forall|i: int| 0 <= i < s.len() ==> (#[trigger] s[i]) < n
}

proof fn lemma_ints_push(s: Seq<usize>, x: usize)
    ensures
        ints(s.push(x)) == ints(s).push(x as int),
{
    assert(ints(s.push(x)) =~= ints(s).push(x as int));
}

pub open spec fn opt_chars(o: Option<Vec<char>>) -> Option<Seq<char>> {
    match o {
        Some(v) => Some(v@),
        None => None,
    }
}

/// The characters of each entry's path and name, its parent key and its
/// number of components, computed once.
struct EntryIndex {
    paths: Vec<Vec<char>>,
    names: Vec<Vec<char>>,
    keys: Vec<Option<Vec<char>>>,
    counts: Vec<u128>,
}

spec fn index_ok(ix: EntryIndex, nodes: Seq<WalkEntry>) -> bool {
    &&& ix.paths@.len() == nodes.len()
    &&& ix.names@.len() == nodes.len()
    &&& ix.keys@.len() == nodes.len()
    &&& ix.counts@.len() == nodes.len()
    &&& forall|i: int| 0 <= i < nodes.len() ==> (#[trigger] ix.paths@[i])@ == nodes[i].path@
    &&& forall|i: int| 0 <= i < nodes.len() ==> (#[trigger] ix.names@[i])@ == nodes[i].name@
    &&& forall|i: int|
        0 <= i < nodes.len() ==> opt_chars(#[trigger] ix.keys@[i]) == parent_key(nodes[i].path@)
    &&& forall|i: int|
        0 <= i < nodes.len() ==> (#[trigger] ix.counts@[i]) as nat == component_count(
            nodes[i].path@,
        )
}

/// `parent_key` on characters.
fn parent_key_chars(p: &[char]) -> (r: Option<Vec<char>>)
    ensures
        opt_chars(r) == parent_key(p@),
{
    match parent_chars(p) {
        Some(q) => {
            if q.len() == 0 {
                let mut d: Vec<char> = Vec::new();
                d.push('.');
                assert(d@ =~= seq!['.']);
                Some(d)
            } else {
                Some(q)
            }
        },
        None => None,
    }
}

/// The root-relative path of the directory that holds `rel` (`.` for an
/// entry directly under the root), or `None` when `rel` has no parent.
pub fn parent_rel_path(rel: &str) -> (r: Option<String>)
    ensures
        match r {
            Some(s) => parent_key(rel@) == Some(s@),
            None => parent_key(rel@) is None,
        },
{
    let c = chars_of(rel);
    match parent_key_chars(c.as_slice()) {
        Some(k) => Some(string_from_chars(k.as_slice())),
        None => None,
    }
}

fn build_index(nodes: &Vec<WalkEntry>) -> (ix: EntryIndex)
    ensures
        index_ok(ix, nodes@),
{
    let mut ix = EntryIndex {
        paths: Vec::new(),
        names: Vec::new(),
        keys: Vec::new(),
        counts: Vec::new(),
    };
    let mut i: usize = 0;
    while i < nodes.len()
        invariant
            i <= nodes@.len(),
            ix.paths@.len() == i,
            ix.names@.len() == i,
            ix.keys@.len() == i,
            ix.counts@.len() == i,
            forall|k: int| 0 <= k < i ==> (#[trigger] ix.paths@[k])@ == nodes@[k].path@,
            forall|k: int| 0 <= k < i ==> (#[trigger] ix.names@[k])@ == nodes@[k].name@,
            forall|k: int|
                0 <= k < i ==> opt_chars(#[trigger] ix.keys@[k]) == parent_key(nodes@[k].path@),
            forall|k: int|
                0 <= k < i ==> (#[trigger] ix.counts@[k]) as nat == component_count(
                    nodes@[k].path@,
                ),
        decreases nodes@.len() - i,
    {
        let p = chars_of(nodes[i].path.as_str());
        let n = chars_of(nodes[i].name.as_str());
        let k = parent_key_chars(p.as_slice());
        let c = component_count_chars(p.as_slice());
        ix.paths.push(p);
        ix.names.push(n);
        ix.keys.push(k);
        ix.counts.push(c);
        i = i + 1;
    }
    ix
}

/// The entries directly under `p`, in walk order.
fn raw_children_exec(nodes: &Vec<WalkEntry>, ix: &EntryIndex, p: &[char]) -> (r: Vec<usize>)
    requires
        index_ok(*ix, nodes@),
    ensures
        ints(r@) == raw_children(nodes@, p@, nodes@.len() as int),
        below(r@, nodes@.len() as int),
{
    let mut r: Vec<usize> = Vec::new();
    let mut j: usize = 0;
    while j < ix.paths.len()
        invariant
            index_ok(*ix, nodes@),
            j <= nodes@.len(),
            ints(r@) == raw_children(nodes@, p@, j as int),
            below(r@, nodes@.len() as int),
        decreases nodes@.len() - j,
    {
        let under = match &ix.keys[j] {
            Some(k) => chars_eq(k.as_slice(), p),
            None => false,
        };
        assert(under == (parent_key(nodes@[j as int].path@) == Some(p@)));
        let dot = is_dot(ix.paths[j].as_slice());
        if !dot && under {
            proof {
                lemma_ints_push(r@, j);
            }
            r.push(j);
        }
        j = j + 1;
    }
    r
}

/// Of entries listed with the same path, only the last stays.
fn kept_exec(nodes: &Vec<WalkEntry>, ix: &EntryIndex, raw: &Vec<usize>) -> (r: Vec<usize>)
    requires
        index_ok(*ix, nodes@),
        below(raw@, nodes@.len() as int),
    ensures
        ints(r@) == kept_prefix(nodes@, ints(raw@), raw@.len() as int),
        below(r@, nodes@.len() as int),
{
    let ghost rs = ints(raw@);
    let mut r: Vec<usize> = Vec::new();
    let mut i: usize = 0;
    while i < raw.len()
        invariant
            index_ok(*ix, nodes@),
            below(raw@, nodes@.len() as int),
            rs == ints(raw@),
            i <= raw@.len(),
            ints(r@) == kept_prefix(nodes@, rs, i as int),
            below(r@, nodes@.len() as int),
        decreases raw@.len() - i,
    {
        let a = raw[i];
        let mut last = true;
        let mut k: usize = i + 1;
        while k < raw.len()
            invariant
                index_ok(*ix, nodes@),
                below(raw@, nodes@.len() as int),
                rs == ints(raw@),
                i < k <= raw@.len(),
                a == raw@[i as int],
                last == (forall|m: int| i < m < k ==> nodes@[rs[m]].path@ != nodes@[rs[i as int]].path@),
            decreases raw@.len() - k,
        {
            let b = raw[k];
            let same = chars_eq(ix.paths[b].as_slice(), ix.paths[a].as_slice());
            assert(rs[k as int] == b as int && rs[i as int] == a as int);
            assert(same == (nodes@[rs[k as int]].path@ == nodes@[rs[i as int]].path@));
            if same {
                last = false;
            }
            assert(last == (forall|m: int| i < m < k + 1 ==> nodes@[rs[m]].path@ != nodes@[rs[i as int]].path@)) by {
                if !same && !last {
                    let m0 = choose|m: int| i < m < k && nodes@[rs[m]].path@ == nodes@[rs[i as int]].path@;
                    assert(i < m0 < k + 1);
                }
            }
            k = k + 1;
        }
        assert(last == is_last_of_path(nodes@, rs, i as int));
        if last {
            proof {
                lemma_ints_push(r@, a);
            }
            r.push(a);
        }
        i = i + 1;
    }
    r
}

/// `sibling_le` on indexed entries.
fn sibling_le_exec(nodes: &Vec<WalkEntry>, ix: &EntryIndex, a: usize, b: usize) -> (r: bool)
    requires
        index_ok(*ix, nodes@),
        a < nodes@.len(),
        b < nodes@.len(),
    ensures
        r == sibling_le(nodes@, a as int, b as int),
{
    let na = ix.names[a].as_slice();
    let nb = ix.names[b].as_slice();
    if !chars_eq(na, nb) {
        chars_le(na, nb)
    } else if ix.counts[a] != ix.counts[b] {
        ix.counts[a] > ix.counts[b]
    } else {
        chars_le(ix.paths[b].as_slice(), ix.paths[a].as_slice())
    }
}

/// `insert_sibling` on indexed entries.
fn insert_exec(nodes: &Vec<WalkEntry>, ix: &EntryIndex, s: Vec<usize>, x: usize) -> (r: Vec<usize>)
    requires
        index_ok(*ix, nodes@),
        below(s@, nodes@.len() as int),
        x < nodes@.len(),
    ensures
        ints(r@) == insert_sibling(nodes@, ints(s@), x as int),
        below(r@, nodes@.len() as int),
    decreases s@.len(),
{
    let mut s = s;
    if s.len() == 0 {
        let mut r: Vec<usize> = Vec::new();
        r.push(x);
        assert(ints(r@) =~= seq![x as int]);
        return r;
    }
    let ghost s0 = s@;
    let last = s.pop().unwrap();
    assert(s0.drop_last() == s@);
    assert(ints(s0).drop_last() =~= ints(s@));
    assert(ints(s0).last() == last as int);
    if sibling_le_exec(nodes, ix, last, x) {
        proof {
            lemma_ints_push(s@, last);
        }
        s.push(last);
        assert(s@ == s0);
        proof {
            lemma_ints_push(s@, x);
        }
        s.push(x);
        s
    } else {
        let mut r = insert_exec(nodes, ix, s, x);
        proof {
            lemma_ints_push(r@, last);
        }
        r.push(last);
        r
    }
}

/// `sort_siblings` on indexed entries.
fn sort_exec(nodes: &Vec<WalkEntry>, ix: &EntryIndex, s: &Vec<usize>) -> (r: Vec<usize>)
    requires
        index_ok(*ix, nodes@),
        below(s@, nodes@.len() as int),
    ensures
        ints(r@) == sort_siblings(nodes@, ints(s@)),
        below(r@, nodes@.len() as int),
{
    let ghost ss = ints(s@);
    let mut r: Vec<usize> = Vec::new();
    let mut i: usize = 0;
    assert(ss.take(0) =~= Seq::<int>::empty());
    while i < s.len()
        invariant
            index_ok(*ix, nodes@),
            below(s@, nodes@.len() as int),
            ss == ints(s@),
            i <= s@.len(),
            ints(r@) == sort_siblings(nodes@, ss.take(i as int)),
            below(r@, nodes@.len() as int),
        decreases s@.len() - i,
    {
        assert(ss.take(i + 1).drop_last() =~= ss.take(i as int));
        assert(ss.take(i + 1).last() == s@[i as int] as int);
        r = insert_exec(nodes, ix, r, s[i]);
        i = i + 1;
    }
    assert(ss.take(s@.len() as int) =~= ss);
    r
}

/// `child_order` on indexed entries.
fn child_order_exec(nodes: &Vec<WalkEntry>, ix: &EntryIndex, p: &[char]) -> (r: Vec<usize>)
    requires
        index_ok(*ix, nodes@),
    ensures
        ints(r@) == child_order(nodes@, p@),
        below(r@, nodes@.len() as int),
{
    let raw = raw_children_exec(nodes, ix, p);
    let kept = kept_exec(nodes, ix, &raw);
    assert(raw@.len() == ints(raw@).len());
    sort_exec(nodes, ix, &kept)
}


/// The tree below entry `j`.
fn build_subtree(nodes: &Vec<WalkEntry>, ix: &EntryIndex, j: usize) -> (r: TreeNode)
    requires
        index_ok(*ix, nodes@),
        j < nodes@.len(),
    ensures
        node_view(r) == subtree(nodes@, j as int),
    decreases depth_measure(nodes@, nodes@[j as int].path@),
{
    let p = ix.paths[j].as_slice();
    let ghost pv = nodes@[j as int].path@;
    assert(p@ == pv);
    let order = child_order_exec(nodes, ix, p);
    proof {
        lemma_child_order(nodes@, pv);
    }
    let ghost os = ints(order@);
    let not_root = !is_dot(p);
    let mut children: Vec<TreeNode> = Vec::new();
    let mut k: usize = 0;
    assert(os.take(0) =~= Seq::<int>::empty());
    while k < order.len()
        invariant
            index_ok(*ix, nodes@),
            j < nodes@.len(),
            pv == nodes@[j as int].path@,
            p@ == pv,
            not_root == (pv != seq!['.']),
            os == ints(order@),
            os == child_order(nodes@, pv),
            below(order@, nodes@.len() as int),
            forall|m: int|
                0 <= m < os.len() ==> nodes@[#[trigger] os[m]].path@ != seq!['.'] && parent_key(
                    nodes@[os[m]].path@,
                ) == Some(pv),
            k <= order@.len(),
            nodes_view(children@) == subtrees(nodes@, pv, os.take(k as int)),
        decreases order@.len() - k,
    {
        let c = order[k];
        assert(os.take(k + 1).drop_last() =~= os.take(k as int));
        assert(os.take(k + 1).last() == c as int);
        assert(os[k as int] == c as int);
        if not_root {
            proof {
                lemma_parent_key_shorter(nodes@[c as int].path@, pv);
                lemma_max_path_len(nodes@, c as int);
            }
            let t = build_subtree(nodes, ix, c);
            proof {
                lemma_nodes_view_push(children@, t);
            }
            children.push(t);
        }
        k = k + 1;
    }
    assert(os.take(order@.len() as int) =~= os);
    TreeNode {
        name: nodes[j].name.clone(),
        path: nodes[j].path.clone(),
        is_dir: nodes[j].is_dir,
        children,
    }
}

/// The whole tree of the walked entries (see `tree_of`): the root named
/// `root_name`, each directory holding the entries directly under it,
/// siblings ordered by name.
pub fn assemble_tree(root_name: &str, nodes: &Vec<WalkEntry>) -> (r: TreeNode)
    ensures
        node_view(r) == tree_of(root_name@, nodes@),
{
    let ix = build_index(nodes);
    let mut root: Option<usize> = None;
    let mut i: usize = 0;
    while i < nodes.len()
        invariant
            index_ok(ix, nodes@),
            i <= nodes@.len(),
            match root {
                Some(x) => root_entry(nodes@, i as int) == Some(x as int) && x < nodes@.len(),
                None => root_entry(nodes@, i as int) is None,
            },
        decreases nodes@.len() - i,
    {
        if is_dot(ix.paths[i].as_slice()) {
            root = Some(i);
        }
        i = i + 1;
    }
    let (name, is_dir) = match root {
        Some(x) => (nodes[x].name.clone(), nodes[x].is_dir),
        None => (root_name.to_owned(), true),
    };
    let dot: [char; 1] = ['.'];
    assert(dot@ =~= seq!['.']);
    let order = child_order_exec(nodes, &ix, &dot);
    let ghost os = ints(order@);
    let mut children: Vec<TreeNode> = Vec::new();
    let mut k: usize = 0;
    assert(os.take(0) =~= Seq::<int>::empty());
    while k < order.len()
        invariant
            index_ok(ix, nodes@),
            os == ints(order@),
            below(order@, nodes@.len() as int),
            k <= order@.len(),
            nodes_view(children@) == root_subtrees(nodes@, os.take(k as int)),
        decreases order@.len() - k,
    {
        let c = order[k];
        assert(os.take(k + 1).drop_last() =~= os.take(k as int));
        assert(os.take(k + 1).last() == c as int);
        let t = build_subtree(nodes, &ix, c);
        proof {
            lemma_nodes_view_push(children@, t);
        }
        children.push(t);
        k = k + 1;
    }
    assert(os.take(order@.len() as int) =~= os);
    let path = string_from_chars(&dot);
    TreeNode { name, path, is_dir, children }
}


impl WalkEntry {
    /// A copy of the entry.
    pub fn duplicate(&self) -> (r: WalkEntry)
        ensures
            r == *self,
    {
        WalkEntry {
            path: self.path.clone(),
            name: self.name.clone(),
            is_dir: self.is_dir,
            is_symlink: self.is_symlink,
            depth: self.depth,
            size: self.size,
        }
    }
}

/// The rules the walk prunes directories by: the configured values (each a
/// basename or an exact root-relative path) and the built-in basenames.
pub fn walk_exclude_rules(exclude_dirs: &Vec<String>) -> (r: Result<ExcludeDirRules, String>)
    ensures
        match build_rules(strings_view(exclude_dirs@)) {
            Ok((names, paths)) => r matches Ok(rules) && rules.basenames() == names
                + default_exclude_names().to_set() && rules.exact_paths() == paths,
            Err((raw, p)) => r matches Err(msg) && msg@ == exclude_dir_message(p, raw),
        },
{
    match build_exclude_dir_rules(exclude_dirs.as_slice()) {
        Ok(rules) => {
            let mut rules = rules;
            rules.extend_basenames(default_excludes());
            Ok(rules)
        },
        Err(e) => Err(e),
    }
}

/// Whether the walk goes into (and lists) an entry at `depth` below the
/// root: not beyond the depth limit; the root always; no directory (nor
/// followed directory link) that the rules exclude; no followed directory
/// link whose target was already visited.
pub open spec fn descends(
    depth: usize,
    max_depth: Option<usize>,
    is_dir: bool,
    is_symlink_dir: bool,
    rel_path: Seq<char>,
    rules: ExcludeDirRules,
    real_path: Option<Seq<char>>,
    visited: Seq<Seq<char>>,
) -> bool {
    if max_depth matches Some(m) && depth > m {
        false
    } else if depth == 0 {
        true
    } else if (is_dir || is_symlink_dir) && rules.excludes_dir(rel_path) {
        false
    } else if is_symlink_dir && (real_path matches Some(rp) && visited.contains(rp)) {
        false
    } else {
        true
    }
}

/// Whether `should_descend` records the target of a followed directory link.
pub open spec fn records_target(
    depth: usize,
    max_depth: Option<usize>,
    is_dir: bool,
    is_symlink_dir: bool,
    rel_path: Seq<char>,
    rules: ExcludeDirRules,
    real_path: Option<Seq<char>>,
    visited: Seq<Seq<char>>,
) -> bool {
    &&& !(max_depth matches Some(m) && depth > m)
    &&& depth != 0
    &&& !((is_dir || is_symlink_dir) && rules.excludes_dir(rel_path))
    &&& is_symlink_dir
    &&& real_path matches Some(rp)
    &&& !visited.contains(rp)
}

/// Decides whether the walk enters an entry (see `descends`); the target of
/// a followed directory link that is entered is added to `visited`.
pub fn should_descend(
    depth: usize,
    max_depth: Option<usize>,
    is_dir: bool,
    is_symlink_dir: bool,
    rel_path: &str,
    rules: &ExcludeDirRules,
    real_path: Option<String>,
    visited: &mut Vec<String>,
) -> (r: bool)
    ensures
        r == descends(depth, max_depth, is_dir, is_symlink_dir, rel_path@, *rules,
            opt_string(real_path), strings_view(old(visited)@)),
        strings_view(final(visited)@) == if records_target(depth, max_depth, is_dir, is_symlink_dir,
            rel_path@, *rules, opt_string(real_path), strings_view(old(visited)@)) {
            strings_view(old(visited)@).push(real_path->Some_0@)
        } else {
            strings_view(old(visited)@)
        },
{
    if let Some(m) = max_depth {
        if depth > m {
            return false;
        }
    }
    if depth == 0 {
        return true;
    }
    if (is_dir || is_symlink_dir) && rules.matches_dir(rel_path) {
        return false;
    }
    if is_symlink_dir {
        if let Some(target) = real_path {
            let c = chars_of(target.as_str());
            if contains_text(visited, c.as_slice()) {
                return false;
            }
            let ghost before = strings_view(visited@);
            visited.push(target);
            assert(strings_view(visited@) =~= before.push(c@));
        }
    }
    true
}

/// Whether a walked entry is listed: not the root itself, not beyond the
/// depth limit, and not a directory below the root that the rules exclude.
pub open spec fn accepted(e: WalkEntry, max_depth: Option<usize>, rules: ExcludeDirRules) -> bool {
    &&& e.path@.len() > 0
    &&& !(max_depth matches Some(m) && e.depth > m)
    &&& !(e.is_dir && e.depth > 0 && rules.excludes_dir(e.path@))
}

/// The listed entries, in walk order.
pub open spec fn accepted_entries(
    es: Seq<WalkEntry>,
    max_depth: Option<usize>,
    rules: ExcludeDirRules,
) -> Seq<WalkEntry>
    decreases es.len(),
{
    if es.len() == 0 {
        Seq::empty()
    } else {
        accepted_entries(es.drop_last(), max_depth, rules) + if accepted(es.last(), max_depth, rules) {
            seq![es.last()]
        } else {
            Seq::<WalkEntry>::empty()
        }
    }
}

pub open spec fn file_of(e: WalkEntry) -> FileInfo {
    FileInfo { path: e.path, size: e.size, is_symlink: e.is_symlink }
}

/// The files among the entries, in order.
pub open spec fn walked_files(es: Seq<WalkEntry>) -> Seq<FileInfo>
    decreases es.len(),
{
    if es.len() == 0 {
        Seq::empty()
    } else {
        walked_files(es.drop_last()) + if !es.last().is_dir {
            seq![file_of(es.last())]
        } else {
            Seq::<FileInfo>::empty()
        }
    }
}

/// The tree and the file list of a walk: the entries met under the root
/// (in walk order, each with its root-relative path) are listed when
/// `accepted`; the tree is `tree_of` the listed entries, and the files are
/// the listed entries that are not directories.
pub fn collect_walk(
    root_name: &str,
    entries: &Vec<WalkEntry>,
    max_depth: Option<usize>,
    rules: &ExcludeDirRules,
) -> (r: (TreeNode, Vec<FileInfo>))
    ensures
        node_view(r.0) == tree_of(root_name@, accepted_entries(entries@, max_depth, *rules)),
        r.1@ == walked_files(accepted_entries(entries@, max_depth, *rules)),
{
    let mut acc: Vec<WalkEntry> = Vec::new();
    let mut files: Vec<FileInfo> = Vec::new();
    let mut i: usize = 0;
    while i < entries.len()
        invariant
            i <= entries@.len(),
            acc@ == accepted_entries(entries@.take(i as int), max_depth, *rules),
            files@ == walked_files(acc@),
        decreases entries@.len() - i,
    {
        let e = &entries[i];
        assert(entries@.take(i + 1).drop_last() =~= entries@.take(i as int));
        assert(entries@.take(i + 1).last() == *e);
        let within = match max_depth {
            Some(m) => e.depth <= m,
            None => true,
        };
        let listed = !e.path.as_str().is_empty() && within && !(e.is_dir && e.depth > 0
            && rules.matches_dir(e.path.as_str()));
        assert(listed == accepted(*e, max_depth, *rules));
        if listed {
            let ghost before = acc@;
            acc.push(e.duplicate());
            assert(acc@ =~= before + seq![*e]);
            assert(acc@.drop_last() =~= before);
            if !e.is_dir {
                let f = FileInfo { path: e.path.clone(), size: e.size, is_symlink: e.is_symlink };
                let ghost fb = files@;
                files.push(f);
                assert(files@ =~= fb + seq![file_of(*e)]);
            } else {
                assert(files@ =~= walked_files(before) + Seq::<FileInfo>::empty());
            }
        } else {
            assert(acc@ =~= accepted_entries(entries@.take(i as int), max_depth, *rules)
                + Seq::<WalkEntry>::empty());
        }
        i = i + 1;
    }
    assert(entries@.take(entries@.len() as int) =~= entries@);
    let tree = assemble_tree(root_name, &acc);
    (tree, files)
}


// ---------------------------------------------------------------------------
// Sibling order.

proof fn lemma_sibling_le_total(nodes: Seq<WalkEntry>, a: int, b: int)
    ensures
        sibling_le(nodes, a, b) || sibling_le(nodes, b, a),
{
    lemma_text_le_total(nodes[a].name@, nodes[b].name@);
    lemma_text_le_total(nodes[a].path@, nodes[b].path@);
}

proof fn lemma_sibling_le_trans(nodes: Seq<WalkEntry>, a: int, b: int, c: int)
    requires
        sibling_le(nodes, a, b),
        sibling_le(nodes, b, c),
    ensures
        sibling_le(nodes, a, c),
{
    let (na, nb, nc) = (nodes[a].name@, nodes[b].name@, nodes[c].name@);
    let (pa, pb, pc) = (nodes[a].path@, nodes[b].path@, nodes[c].path@);
    if na != nb && nb != nc {
        lemma_text_le_trans(na, nb, nc);
        if na == nc {
            lemma_text_le_antisym(na, nb);
        }
    } else if na == nb && nb == nc {
        if component_count(pa) == component_count(pb) && component_count(pb) == component_count(
            pc,
        ) {
            lemma_text_le_trans(pc, pb, pa);
        }
    }
}

/// The listed entries are in sibling order.
pub open spec fn siblings_sorted(nodes: Seq<WalkEntry>, s: Seq<int>) -> bool {
    forall|i: int, j: int| 0 <= i < j < s.len() ==> sibling_le(nodes, #[trigger] s[i], #[trigger] s[j])
}

proof fn lemma_insert_sibling_sorted(nodes: Seq<WalkEntry>, s: Seq<int>, x: int)
    requires
        siblings_sorted(nodes, s),
    ensures
        siblings_sorted(nodes, insert_sibling(nodes, s, x)),
    decreases s.len(),
{
    lemma_insert_sibling(nodes, s, x);
    if s.len() == 0 {
    } else if sibling_le(nodes, s.last(), x) {
        let r = s.push(x);
        assert forall|i: int, j: int| 0 <= i < j < r.len() implies sibling_le(
            nodes,
            #[trigger] r[i],
            #[trigger] r[j],
        ) by {
            if j == s.len() && i < s.len() - 1 {
                lemma_sibling_le_trans(nodes, s[i], s.last(), x);
            }
        }
    } else {
        let t = s.drop_last();
        assert(siblings_sorted(nodes, t)) by {
            assert forall|i: int, j: int| 0 <= i < j < t.len() implies sibling_le(
                nodes,
                #[trigger] t[i],
                #[trigger] t[j],
            ) by {
                assert(t[i] == s[i] && t[j] == s[j]);
            }
        }
        lemma_insert_sibling_sorted(nodes, t, x);
        lemma_insert_sibling(nodes, t, x);
        let u = insert_sibling(nodes, t, x);
        lemma_sibling_le_total(nodes, s.last(), x);
        assert forall|i: int| 0 <= i < u.len() implies sibling_le(nodes, #[trigger] u[i], s.last()) by {
            if u[i] != x {
                let k = choose|k: int| 0 <= k < t.len() && t[k] == u[i];
                assert(s[k] == u[i]);
            }
        }
        let r = u.push(s.last());
        assert forall|i: int, j: int| 0 <= i < j < r.len() implies sibling_le(
            nodes,
            #[trigger] r[i],
            #[trigger] r[j],
        ) by {
            if j == u.len() {
                assert(r[i] == u[i]);
            } else {
                assert(r[i] == u[i] && r[j] == u[j]);
            }
        }
    }
}

proof fn lemma_sort_siblings_sorted(nodes: Seq<WalkEntry>, s: Seq<int>)
    ensures
        siblings_sorted(nodes, sort_siblings(nodes, s)),
    decreases s.len(),
{
    if s.len() > 0 {
        lemma_sort_siblings_sorted(nodes, s.drop_last());
        lemma_insert_sibling_sorted(nodes, sort_siblings(nodes, s.drop_last()), s.last());
    }
}

/// The children of each directory of a tree are ordered by name, at every level.
pub open spec fn sorted_tree(t: TreeView) -> bool
    decreases t,
{
    &&& forall|i: int, j: int|
        0 <= i < j < t.children.len() ==> text_le(
            (#[trigger] t.children[i]).name,
            (#[trigger] t.children[j]).name,
        )
    &&& forall|i: int| 0 <= i < t.children.len() ==> sorted_tree(#[trigger] t.children[i])
}

proof fn lemma_subtrees_index(nodes: Seq<WalkEntry>, p: Seq<char>, order: Seq<int>)
    requires
        p != seq!['.'],
        forall|k: int|
            0 <= k < order.len() ==> 0 <= #[trigger] order[k] < nodes.len() && parent_key(
                nodes[order[k]].path@,
            ) == Some(p),
    ensures
        subtrees(nodes, p, order).len() == order.len(),
        forall|k: int|
            0 <= k < order.len() ==> #[trigger] subtrees(nodes, p, order)[k] == subtree(
                nodes,
                order[k],
            ),
    decreases order.len(),
{
    if order.len() > 0 {
        lemma_subtrees_index(nodes, p, order.drop_last());
    }
}

proof fn lemma_root_subtrees_index(nodes: Seq<WalkEntry>, order: Seq<int>)
    requires
        forall|k: int| 0 <= k < order.len() ==> 0 <= #[trigger] order[k] < nodes.len(),
    ensures
        root_subtrees(nodes, order).len() == order.len(),
        forall|k: int|
            0 <= k < order.len() ==> #[trigger] root_subtrees(nodes, order)[k] == subtree(
                nodes,
                order[k],
            ),
    decreases order.len(),
{
    if order.len() > 0 {
        lemma_root_subtrees_index(nodes, order.drop_last());
    }
}

proof fn lemma_subtrees_empty_at_root(nodes: Seq<WalkEntry>, order: Seq<int>)
    ensures
        subtrees(nodes, seq!['.'], order).len() == 0,
    decreases order.len(),
{
    if order.len() > 0 {
        lemma_subtrees_empty_at_root(nodes, order.drop_last());
    }
}

/// The subtree below every entry has its children ordered by name at every level.
pub proof fn lemma_subtree_sorted(nodes: Seq<WalkEntry>, j: int)
    requires
        0 <= j < nodes.len(),
    ensures
        sorted_tree(subtree(nodes, j)),
    decreases depth_measure(nodes, nodes[j].path@),
{
    let p = nodes[j].path@;
    let order = child_order(nodes, p);
    let t = subtree(nodes, j);
    lemma_child_order(nodes, p);
    if p == seq!['.'] {
        lemma_subtrees_empty_at_root(nodes, order);
        assert(t.children.len() == 0);
    } else {
        lemma_subtrees_index(nodes, p, order);
        let raw = raw_children(nodes, p, nodes.len() as int);
        lemma_sort_siblings_sorted(nodes, kept_prefix(nodes, raw, raw.len() as int));
        assert forall|i: int, k: int| 0 <= i < k < t.children.len() implies text_le(
            (#[trigger] t.children[i]).name,
            (#[trigger] t.children[k]).name,
        ) by {
            assert(sibling_le(nodes, order[i], order[k]));
            if nodes[order[i]].name@ == nodes[order[k]].name@ {
                lemma_text_le_total(nodes[order[i]].name@, nodes[order[k]].name@);
            }
        }
        assert forall|i: int| 0 <= i < t.children.len() implies sorted_tree(
            #[trigger] t.children[i],
        ) by {
            lemma_parent_key_shorter(nodes[order[i]].path@, p);
            lemma_max_path_len(nodes, order[i]);
            lemma_subtree_sorted(nodes, order[i]);
        }
    }
}

/// Law: in the assembled tree the entries of every directory are ordered
/// by name, at every level.
pub proof fn law_tree_sorted(root_name: Seq<char>, nodes: Seq<WalkEntry>)
    ensures
        sorted_tree(tree_of(root_name, nodes)),
{
    let order = child_order(nodes, seq!['.']);
    lemma_child_order(nodes, seq!['.']);
    lemma_root_subtrees_index(nodes, order);
    let raw = raw_children(nodes, seq!['.'], nodes.len() as int);
    lemma_sort_siblings_sorted(nodes, kept_prefix(nodes, raw, raw.len() as int));
    let t = tree_of(root_name, nodes);
    assert forall|i: int, k: int| 0 <= i < k < t.children.len() implies text_le(
        (#[trigger] t.children[i]).name,
        (#[trigger] t.children[k]).name,
    ) by {
        assert(sibling_le(nodes, order[i], order[k]));
        if nodes[order[i]].name@ == nodes[order[k]].name@ {
            lemma_text_le_total(nodes[order[i]].name@, nodes[order[k]].name@);
        }
    }
    assert forall|i: int| 0 <= i < t.children.len() implies sorted_tree(#[trigger] t.children[i]) by {
        lemma_subtree_sorted(nodes, order[i]);
    }
}


/// Law: the walk lists no entry beyond the depth limit and no directory
/// below the root that the exclusion rules name; every listed entry was met
/// in the walk, in the same order.
pub proof fn law_walk_respects_limits(
    es: Seq<WalkEntry>,
    max_depth: Option<usize>,
    rules: ExcludeDirRules,
)
    ensures
        forall|k: int|
            0 <= k < accepted_entries(es, max_depth, rules).len() ==> {
                let e = #[trigger] accepted_entries(es, max_depth, rules)[k];
                &&& e.path@.len() > 0
                &&& (max_depth matches Some(m) ==> e.depth <= m)
                &&& !(e.is_dir && e.depth > 0 && rules.excludes_dir(e.path@))
                &&& es.contains(e)
            },
        accepted_entries(es, max_depth, rules).len() <= es.len(),
    decreases es.len(),
{
    if es.len() > 0 {
        law_walk_respects_limits(es.drop_last(), max_depth, rules);
        let a = accepted_entries(es, max_depth, rules);
        let prev = accepted_entries(es.drop_last(), max_depth, rules);
        assert forall|k: int| 0 <= k < a.len() implies {
            let e = #[trigger] a[k];
            &&& e.path@.len() > 0
            &&& (max_depth matches Some(m) ==> e.depth <= m)
            &&& !(e.is_dir && e.depth > 0 && rules.excludes_dir(e.path@))
            &&& es.contains(e)
        } by {
            if k < prev.len() {
                assert(a[k] == prev[k]);
                let e = prev[k];
                assert(es.drop_last().contains(e));
                let q = choose|q: int| 0 <= q < es.drop_last().len() && es.drop_last()[q] == e;
                assert(es[q] == e);
            } else {
                assert(a[k] == es.last());
                assert(es[es.len() - 1] == es.last());
            }
        }
    }
}

/// Law: a followed directory link whose target was recorded is never
/// entered again: once `should_descend` records a target, any later entry
/// below the root that is a followed link to the same target is refused.
pub proof fn law_link_target_entered_once(
    depth: usize,
    max_depth: Option<usize>,
    is_dir: bool,
    rel_path: Seq<char>,
    rules: ExcludeDirRules,
    target: Seq<char>,
    visited: Seq<Seq<char>>,
    later_depth: usize,
    later_max_depth: Option<usize>,
    later_is_dir: bool,
    later_rel_path: Seq<char>,
)
    requires
        records_target(depth, max_depth, is_dir, true, rel_path, rules, Some(target), visited),
        later_depth != 0,
    ensures
        descends(depth, max_depth, is_dir, true, rel_path, rules, Some(target), visited),
        !descends(later_depth, later_max_depth, later_is_dir, true, later_rel_path, rules,
            Some(target), visited.push(target)),
{
    assert(visited.push(target)[visited.len() as int] == target);
}


pub open spec fn is_file_entry(e: WalkEntry) -> bool {
    !e.is_dir
}

pub open spec fn entry_file(e: WalkEntry) -> FileInfo {
    FileInfo { path: e.path, size: e.size, is_symlink: e.is_symlink }
}

/// Law: the file list of a walk is exactly the entries that are not
/// directories, in order, each with its path, size and symlink flag,
/// whatever their sizes (empty files included).
pub proof fn law_walk_files_are_all_files(es: Seq<WalkEntry>)
    ensures
        walked_files(es) == es.filter(|e: WalkEntry| is_file_entry(e)).map_values(
            |e: WalkEntry| entry_file(e),
        ),
    decreases es.len(),
{
    let pred = |e: WalkEntry| is_file_entry(e);
    let conv = |e: WalkEntry| entry_file(e);
    reveal(Seq::filter);
    if es.len() == 0 {
        assert(es.filter(pred) =~= Seq::<WalkEntry>::empty());
        assert(es.filter(pred).map_values(conv) =~= Seq::<FileInfo>::empty());
    } else {
        law_walk_files_are_all_files(es.drop_last());
        let prev = es.drop_last().filter(pred);
        if !es.last().is_dir {
            assert(es.filter(pred) == prev.push(es.last()));
            assert(prev.push(es.last()).map_values(conv) =~= prev.map_values(conv).push(
                entry_file(es.last()),
            ));
            assert(walked_files(es) =~= prev.map_values(conv) + seq![file_of(es.last())]);
        } else {
            assert(es.filter(pred) == prev);
            assert(walked_files(es) =~= prev.map_values(conv) + Seq::<FileInfo>::empty());
        }
    }
}

/// Law: every listed entry of a walk that is not a directory is in the
/// file list, with its path, size and symlink flag.
pub proof fn law_every_listed_file_is_walked(
    es: Seq<WalkEntry>,
    max_depth: Option<usize>,
    rules: ExcludeDirRules,
    k: int,
)
    requires
        0 <= k < accepted_entries(es, max_depth, rules).len(),
        !accepted_entries(es, max_depth, rules)[k].is_dir,
    ensures
        walked_files(accepted_entries(es, max_depth, rules)).contains(
            entry_file(accepted_entries(es, max_depth, rules)[k]),
        ),
{
    let a = accepted_entries(es, max_depth, rules);
    let pred = |e: WalkEntry| is_file_entry(e);
    law_walk_files_are_all_files(a);
    a.filter_lemma(pred);
    assert(a.filter(pred).contains(a[k]));
    let j = choose|j: int| 0 <= j < a.filter(pred).len() && a.filter(pred)[j] == a[k];
    assert(a.filter(pred).map_values(|e: WalkEntry| entry_file(e))[j] == entry_file(a[k]));
}

} // verus!
