//! The tree of a walked directory and the files found in it.
use vstd::prelude::*;
use crate::config::strings_view;

verus! {

/// A node of the directory tree; paths are relative to the root.
#[derive(Debug)]
pub struct TreeNode {
    pub name: String,
    pub path: String,
    pub is_dir: bool,
    pub children: Vec<TreeNode>,
}

/// A file found under the root (or named explicitly), with its size in bytes.
#[derive(Debug, Clone)]
pub struct FileInfo {
    pub path: String,
    pub size: u64,
    pub is_symlink: bool,
}

impl FileInfo {
    /// A copy of the file record.
    pub fn duplicate(&self) -> (r: FileInfo)
        ensures
            r == *self,
    {
        FileInfo { path: self.path.clone(), size: self.size, is_symlink: self.is_symlink }
    }
}

/// The mathematical value of a tree node.
pub struct TreeView {
    pub name: Seq<char>,
    pub path: Seq<char>,
    pub is_dir: bool,
    pub children: Seq<TreeView>,
}

pub open spec fn node_view(n: TreeNode) -> TreeView
    decreases n,
{
    TreeView {
        name: n.name@,
        path: n.path@,
        is_dir: n.is_dir,
        children: nodes_view(n.children@),
    }
}

pub open spec fn nodes_view(s: Seq<TreeNode>) -> Seq<TreeView>
    decreases s,
{
    if s.len() == 0 {
        Seq::empty()
    } else {
        nodes_view(s.drop_last()).push(node_view(s.last()))
    }
}

pub proof fn lemma_nodes_view_len(s: Seq<TreeNode>)
    ensures
        nodes_view(s).len() == s.len(),
    decreases s.len(),
{
    if s.len() > 0 {
        lemma_nodes_view_len(s.drop_last());
    }
}

pub proof fn lemma_nodes_view_index(s: Seq<TreeNode>, i: int)
    requires
        0 <= i < s.len(),
    ensures
        nodes_view(s).len() == s.len(),
        nodes_view(s)[i] == node_view(s[i]),
    decreases s.len(),
{
    lemma_nodes_view_len(s);
    if i < s.len() - 1 {
        lemma_nodes_view_index(s.drop_last(), i);
    }
}

pub proof fn lemma_nodes_view_push(s: Seq<TreeNode>, n: TreeNode)
    ensures
        nodes_view(s.push(n)) == nodes_view(s).push(node_view(n)),
{
    assert(s.push(n).drop_last() =~= s);
}

/// The allowed files as a set of paths.
pub open spec fn path_set(v: Seq<String>) -> Set<Seq<char>> {
    strings_view(v).to_set()
}

/// The children that stay when only `allowed` files are shown: a file stays
/// when its path is allowed; a directory stays, with its children filtered,
/// when something stays inside it.
pub open spec fn filter_views(s: Seq<TreeView>, allowed: Set<Seq<char>>) -> Seq<TreeView>
    decreases s,
{
    if s.len() == 0 {
        Seq::empty()
    } else {
        filter_views(s.drop_last(), allowed) + keep_view(s.last(), allowed)
    }
}

pub open spec fn keep_view(c: TreeView, allowed: Set<Seq<char>>) -> Seq<TreeView>
    decreases c,
{
    if c.is_dir {
        let f = filter_views(c.children, allowed);
        if f.len() == 0 {
            Seq::empty()
        } else {
            seq![TreeView { name: c.name, path: c.path, is_dir: true, children: f }]
        }
    } else if allowed.contains(c.path) {
        seq![c]
    } else {
        Seq::empty()
    }
}

impl TreeNode {
    /// A deep copy of the node.
    pub fn duplicate(&self) -> (r: TreeNode)
        ensures
            node_view(r) == node_view(*self),
        decreases self,
    {
        let mut children: Vec<TreeNode> = Vec::new();
        let mut i: usize = 0;
        while i < self.children.len()
            invariant
                i <= self.children@.len(),
                nodes_view(children@) == nodes_view(self.children@.take(i as int)),
            decreases self.children@.len() - i,
        {
            let c = self.children[i].duplicate();
            proof {
                lemma_nodes_view_push(children@, c);
                lemma_nodes_view_push(self.children@.take(i as int), self.children@[i as int]);
                assert(self.children@.take(i + 1) =~= self.children@.take(i as int).push(
                    self.children@[i as int],
                ));
            }
            children.push(c);
            i = i + 1;
        }
        assert(self.children@.take(self.children@.len() as int) =~= self.children@);
        TreeNode {
            name: self.name.clone(),
            path: self.path.clone(),
            is_dir: self.is_dir,
            children,
        }
    }
}

fn contains_path(allowed: &Vec<String>, path: &String) -> (r: bool)
    ensures
        r == path_set(allowed@).contains(path@),
{
    let mut i: usize = 0;
    while i < allowed.len()
        invariant
            i <= allowed@.len(),
            forall|j: int| 0 <= j < i ==> allowed@[j]@ != path@,
        decreases allowed@.len() - i,
    {
        if allowed[i] == *path {
            assert(strings_view(allowed@)[i as int] == path@);
            return true;
        }
        i = i + 1;
    }
    assert forall|j: int| 0 <= j < strings_view(allowed@).len() implies strings_view(allowed@)[j]
        != path@ by {
        assert(allowed@[j]@ != path@);
    }
    false
}

/// The children that stay when only the `allowed` file paths are shown
/// (directories with nothing left inside are dropped).
pub fn filter_tree_children(children: &Vec<TreeNode>, allowed: &Vec<String>) -> (r: Vec<TreeNode>)
    ensures
        nodes_view(r@) == filter_views(nodes_view(children@), path_set(allowed@)),
    decreases children@,
{
    let ghost set = path_set(allowed@);
    let mut out: Vec<TreeNode> = Vec::new();
    let mut i: usize = 0;
    while i < children.len()
        invariant
            i <= children@.len(),
            set == path_set(allowed@),
            nodes_view(out@) == filter_views(nodes_view(children@.take(i as int)), set),
        decreases children@.len() - i,
    {
        let c = &children[i];
        proof {
            assert(children@.take(i + 1) =~= children@.take(i as int).push(*c));
            lemma_nodes_view_push(children@.take(i as int), *c);
            assert(nodes_view(children@.take(i + 1)).drop_last() =~= nodes_view(
                children@.take(i as int),
            ));
        }
        let ghost before = nodes_view(out@);
        if c.is_dir {
            assert(decreases_to!(children@ => c.children@));
            let filtered = filter_tree_children(&c.children, allowed);
            if filtered.len() > 0 {
                let node = TreeNode {
                    name: c.name.clone(),
                    path: c.path.clone(),
                    is_dir: true,
                    children: filtered,
                };
                proof {
                    lemma_nodes_view_push(out@, node);
                    lemma_nodes_view_len(filtered@);
                }
                out.push(node);
                assert(nodes_view(out@) =~= before + keep_view(node_view(*c), set));
            } else {
                proof {
                    lemma_nodes_view_len(filtered@);
                }
                assert(keep_view(node_view(*c), set) =~= Seq::<TreeView>::empty());
                assert(nodes_view(out@) =~= before + keep_view(node_view(*c), set));
            }
        } else if contains_path(allowed, &c.path) {
            let node = c.duplicate();
            proof {
                lemma_nodes_view_push(out@, node);
            }
            out.push(node);
            assert(nodes_view(out@) =~= before + keep_view(node_view(*c), set));
        } else {
            assert(nodes_view(out@) =~= before + keep_view(node_view(*c), set));
        }
        i = i + 1;
    }
    assert(children@.take(children@.len() as int) =~= children@);
    out
}


/// Every directory among the nodes (at every level) holds something, and
/// every file among them is allowed.
pub open spec fn pruned(cs: Seq<TreeView>, allowed: Set<Seq<char>>) -> bool
    decreases cs,
{
    forall|i: int|
        0 <= i < cs.len() ==> if (#[trigger] cs[i]).is_dir {
            cs[i].children.len() > 0 && pruned(cs[i].children, allowed)
        } else {
            allowed.contains(cs[i].path)
        }
}

proof fn lemma_pruned_concat(a: Seq<TreeView>, b: Seq<TreeView>, allowed: Set<Seq<char>>)
    requires
        pruned(a, allowed),
        pruned(b, allowed),
    ensures
        pruned(a + b, allowed),
{
    assert forall|i: int| 0 <= i < (a + b).len() implies if (#[trigger] (a + b)[i]).is_dir {
        (a + b)[i].children.len() > 0 && pruned((a + b)[i].children, allowed)
    } else {
        allowed.contains((a + b)[i].path)
    } by {
        if i < a.len() {
            assert((a + b)[i] == a[i]);
        } else {
            assert((a + b)[i] == b[i - a.len()]);
        }
    }
}

/// Law: after filtering, no directory is left empty and only allowed files
/// remain, at every level.
pub proof fn law_filter_prunes(s: Seq<TreeView>, allowed: Set<Seq<char>>)
    ensures
        pruned(filter_views(s, allowed), allowed),
    decreases s,
{
    if s.len() > 0 {
        law_filter_prunes(s.drop_last(), allowed);
        let c = s.last();
        if c.is_dir {
            assert(decreases_to!(s => s[s.len() - 1]));
            law_filter_prunes(c.children, allowed);
        }
        lemma_pruned_concat(filter_views(s.drop_last(), allowed), keep_view(c, allowed), allowed);
    }
}

proof fn lemma_filter_concat(a: Seq<TreeView>, b: Seq<TreeView>, allowed: Set<Seq<char>>)
    ensures
        filter_views(a + b, allowed) == filter_views(a, allowed) + filter_views(b, allowed),
    decreases b.len(),
{
    if b.len() == 0 {
        assert(a + b =~= a);
        assert(filter_views(a, allowed) + filter_views(b, allowed) =~= filter_views(a, allowed));
    } else {
        lemma_filter_concat(a, b.drop_last(), allowed);
        assert((a + b).drop_last() =~= a + b.drop_last());
        assert((a + b).last() == b.last());
        assert(filter_views(a, allowed) + filter_views(b, allowed) =~= filter_views(a, allowed)
            + filter_views(b.drop_last(), allowed) + keep_view(b.last(), allowed));
    }
}

proof fn lemma_filter_single(c: TreeView, allowed: Set<Seq<char>>)
    ensures
        filter_views(seq![c], allowed) == keep_view(c, allowed),
{
    let s = seq![c];
    assert(s.drop_last() =~= Seq::<TreeView>::empty());
    assert(s.last() == c);
    assert(filter_views(s.drop_last(), allowed) == Seq::<TreeView>::empty());
    assert(filter_views(s, allowed) =~= Seq::<TreeView>::empty() + keep_view(c, allowed));
}

/// Law: filtering twice by the same allowed paths gives what filtering once gives.
pub proof fn law_filter_idempotent(s: Seq<TreeView>, allowed: Set<Seq<char>>)
    ensures
        filter_views(filter_views(s, allowed), allowed) == filter_views(s, allowed),
    decreases s,
{
    if s.len() > 0 {
        let c = s.last();
        let f0 = filter_views(s.drop_last(), allowed);
        let k = keep_view(c, allowed);
        law_filter_idempotent(s.drop_last(), allowed);
        lemma_filter_concat(f0, k, allowed);
        if c.is_dir {
            assert(decreases_to!(s => s[s.len() - 1]));
            law_filter_idempotent(c.children, allowed);
            let f = filter_views(c.children, allowed);
            if f.len() > 0 {
                let d = TreeView { name: c.name, path: c.path, is_dir: true, children: f };
                assert(k == seq![d]);
                lemma_filter_single(d, allowed);
                assert(keep_view(d, allowed) == seq![d]);
            } else {
                assert(k == Seq::<TreeView>::empty());
            }
        } else if allowed.contains(c.path) {
            lemma_filter_single(c, allowed);
        }
    }
}

} // verus!
