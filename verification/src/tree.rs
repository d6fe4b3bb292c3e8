//! The vault's Markdown file tree, built from a directory listing. Hidden
//! entries (including the vault-local `.plainmark/` folder) are skipped, and
//! folders appear only when they hold Markdown somewhere beneath them.
use crate::paths::{is_md, is_md_spec};
use crate::text::{lex_lt, str_lowercase, to_lowercase};
use vstd::prelude::*;

verus! {

/// One entry of a directory listing, as read from disk: its file name, full
/// path, whether it is a directory or a regular file, and, for a directory,
/// the listing of its contents.
#[derive(Debug)]
pub struct DirEntry {
    pub name: String,
    pub path: String,
    pub is_dir: bool,
    pub is_file: bool,
    pub children: Vec<DirEntry>,
}

/// One entry in the file tree. Directories carry `children`; files don't.
#[derive(Debug)]
pub struct TreeNode {
    pub name: String,
    pub path: String,
    pub is_dir: bool,
    pub children: Vec<TreeNode>,
}

pub struct TreeNodeV {
    pub name: Seq<char>,
    pub path: Seq<char>,
    pub is_dir: bool,
    pub children: Seq<TreeNodeV>,
}

/// The value of a tree node.
pub open spec fn node_view(t: TreeNode) -> TreeNodeV
    decreases t, 0int,
{
    TreeNodeV {
        name: t.name@,
        path: t.path@,
        is_dir: t.is_dir,
        children: nodes_view(t.children@, t.children@.len() as int),
    }
}

/// The values of the first `n` nodes.
pub open spec fn nodes_view(s: Seq<TreeNode>, n: int) -> Seq<TreeNodeV>
    decreases s, n,
{
    if n <= 0 || n > s.len() {
        Seq::empty()
    } else {
        nodes_view(s, n - 1).push(node_view(s[n - 1]))
    }
}

/// The value of a list of nodes.
pub open spec fn forest_view(v: Vec<TreeNode>) -> Seq<TreeNodeV> {
    nodes_view(v@, v@.len() as int)
}

/// Dotfiles and dot-directories (`.plainmark/`, `.git/`, ...).
pub open spec fn is_hidden_name(name: Seq<char>) -> bool {
    name.len() > 0 && name[0] == '.'
}

/// The sort key: the name, lowercased.
pub open spec fn name_key(t: TreeNodeV) -> Seq<char> {
    str_lowercase(t.name)
}

/// Where a node with key `k` goes in `s`: after every node whose key is not
/// greater, so equal keys keep their listing order.
pub open spec fn insert_pos(s: Seq<TreeNodeV>, k: Seq<char>) -> int
    decreases s.len(),
{
    if s.len() == 0 {
        0
    } else if lex_lt(k, name_key(s.last())) {
        insert_pos(s.drop_last(), k)
    } else {
        s.len() as int
    }
}

/// Nodes sorted by lowercased name, equal names in their listing order (a
/// stable sort).
pub open spec fn sort_by_name(s: Seq<TreeNodeV>) -> Seq<TreeNodeV>
    decreases s.len(),
{
    if s.len() == 0 {
        Seq::empty()
    } else {
        let rest = sort_by_name(s.drop_last());
        rest.insert(insert_pos(rest, name_key(s.last())), s.last())
    }
}

/// The tree for a listing: folders first, then files, each group sorted by
/// lowercased name.
pub open spec fn tree_of(es: Seq<DirEntry>) -> Seq<TreeNodeV>
    decreases es, es.len() + 1,
{
    sort_by_name(dir_nodes(es, es.len() as int)) + sort_by_name(file_nodes(es, es.len() as int))
}

/// The folder nodes among the first `n` entries: visible directories with
/// Markdown beneath them.
pub open spec fn dir_nodes(es: Seq<DirEntry>, n: int) -> Seq<TreeNodeV>
    decreases es, n,
{
    if n <= 0 || n > es.len() {
        Seq::empty()
    } else {
        let e = es[n - 1];
        let rest = dir_nodes(es, n - 1);
        if !is_hidden_name(e.name@) && e.is_dir && tree_of(e.children@).len() > 0 {
            rest.push(TreeNodeV { name: e.name@, path: e.path@, is_dir: true, children: tree_of(e.children@) })
        } else {
            rest
        }
    }
}

/// A visible Markdown file.
pub open spec fn is_md_file(e: DirEntry) -> bool {
    !is_hidden_name(e.name@) && !e.is_dir && e.is_file && is_md_spec(e.path@)
}

/// The file nodes among the first `n` entries: visible `.md` files.
pub open spec fn file_nodes(es: Seq<DirEntry>, n: int) -> Seq<TreeNodeV>
    decreases n,
{
    if n <= 0 || n > es.len() {
        Seq::empty()
    } else {
        let e = es[n - 1];
        let rest = file_nodes(es, n - 1);
        if is_md_file(e) {
            rest.push(TreeNodeV { name: e.name@, path: e.path@, is_dir: false, children: Seq::empty() })
        } else {
            rest
        }
    }
}


/// The paths of the visible `.md` files in a listing, depth-first in listing
/// order.
pub open spec fn md_paths(es: Seq<DirEntry>) -> Seq<Seq<char>>
    decreases es, es.len() + 1,
{
    md_paths_upto(es, es.len() as int)
}

pub open spec fn md_paths_upto(es: Seq<DirEntry>, n: int) -> Seq<Seq<char>>
    decreases es, n,
{
    if n <= 0 || n > es.len() {
        Seq::empty()
    } else {
        let e = es[n - 1];
        let rest = md_paths_upto(es, n - 1);
        if is_hidden_name(e.name@) {
            rest
        } else if e.is_dir {
            rest + md_paths(e.children@)
        } else if e.is_file && is_md_spec(e.path@) {
            rest.push(e.path@)
        } else {
            rest
        }
    }
}

proof fn lemma_nodes_view(s: Seq<TreeNode>, n: int)
    requires
        0 <= n <= s.len(),
    ensures
        nodes_view(s, n).len() == n,
        forall|i: int| 0 <= i < n ==> #[trigger] nodes_view(s, n)[i] == node_view(s[i]),
    decreases n,
{
    if n > 0 {
        lemma_nodes_view(s, n - 1);
    }
}

proof fn lemma_forest_view(v: Seq<TreeNode>)
    ensures
        nodes_view(v, v.len() as int).len() == v.len(),
        forall|i: int| 0 <= i < v.len() ==> #[trigger] nodes_view(v, v.len() as int)[i] == node_view(v[i]),
{
    lemma_nodes_view(v, v.len() as int);
}

/// Is this a dotfile or dot-directory name? Such entries are skipped (and
/// dot-directories need not be listed at all).
pub fn is_hidden(name: &str) -> (r: bool)
    ensures
        r == is_hidden_name(name@),
{
    let v = crate::text::chars_of(name);
    v.len() > 0 && v[0] == '.'
}

/// Insert `x` into `v`, which is in name order, after every node whose
/// lowercased name is not greater than its own.
fn insert_by_name(v: &mut Vec<TreeNode>, x: TreeNode)
    ensures
        forest_view(*final(v)) == forest_view(*old(v)).insert(
            insert_pos(forest_view(*old(v)), name_key(node_view(x))),
            node_view(x),
        ),
{
    let ghost s = forest_view(*v);
    proof {
        lemma_forest_view(v@);
    }
    let k = to_lowercase(x.name.as_str());
    let kv = crate::text::chars_of(k.as_str());
    let mut p: usize = v.len();
    assert(s.take(p as int) =~= s);
    loop
        invariant
            p <= v.len(),
            s == forest_view(*v),
            s.len() == v.len(),
            forall|i: int| 0 <= i < v.len() ==> #[trigger] s[i] == node_view(v[i]),
            kv@ == name_key(node_view(x)),
            insert_pos(s.take(p as int), kv@) == insert_pos(s, kv@),
        ensures
            p <= v.len(),
            s == forest_view(*v),
            insert_pos(s.take(p as int), kv@) == insert_pos(s, kv@),
            p == 0 || !lex_lt(kv@, name_key(s[p - 1])),
        decreases p,
    {
        if p == 0 {
            break;
        }
        let kp = to_lowercase(v[p - 1].name.as_str());
        let kpv = crate::text::chars_of(kp.as_str());
        assert(kpv@ == name_key(s[p - 1]));
        let ghost t = s.take(p as int);
        assert(t.drop_last() =~= s.take(p - 1));
        assert(t.last() == s[p - 1]);
        if !crate::text::lex_lt_exec(&kv, &kpv) {
            break;
        }
        p -= 1;
    }
    assert(insert_pos(s.take(p as int), kv@) == p) by {
        if p > 0 {
            assert(s.take(p as int).last() == s[p - 1]);
        }
    }
    let ghost xv = node_view(x);
    let ghost old_v = v@;
    v.insert(p, x);
    proof {
        lemma_forest_view(v@);
        assert(v@ == old_v.insert(p as int, x));
        assert(forest_view(*v) =~= s.insert(p as int, xv)) by {
            assert forall|i: int| 0 <= i < v.len() implies #[trigger] forest_view(*v)[i] == s.insert(p as int, xv)[i] by {
                if i < p {
                    assert(v@[i] == old_v[i]);
                } else if i > p {
                    assert(v@[i] == old_v[i - 1]);
                }
            }
        }
    }
}

/// Build the Markdown file tree for a listing, recursively: hidden entries are
/// skipped, folders are kept only when they contain Markdown somewhere beneath
/// them, and folders come first, then files, each group sorted by lowercased
/// name.
pub fn build_tree(entries: &Vec<DirEntry>) -> (r: Vec<TreeNode>)
    ensures
        forest_view(r) == tree_of(entries@),
    decreases entries@,
{
    let ghost es = entries@;
    let mut dirs: Vec<TreeNode> = Vec::new();
    let mut files: Vec<TreeNode> = Vec::new();
    let mut i: usize = 0;
    while i < entries.len()
        invariant
            i <= entries.len(),
            es == entries@,
            forest_view(dirs) == sort_by_name(dir_nodes(es, i as int)),
            forest_view(files) == sort_by_name(file_nodes(es, i as int)),
        decreases entries.len() - i,
    {
        let e = &entries[i];
        assert(es[i as int] == *e);
        let ghost dn = dir_nodes(es, i as int);
        let ghost fnodes = file_nodes(es, i as int);
        if !is_hidden(e.name.as_str()) {
            if e.is_dir {
                assert(decreases_to!(es => es[i as int].children@));
                let children = build_tree(&e.children);
                if children.len() > 0 {
                    let node = TreeNode {
                        name: crate::text::copy_string(&e.name),
                        path: crate::text::copy_string(&e.path),
                        is_dir: true,
                        children,
                    };
                    proof {
                        lemma_forest_view(node.children@);
                    }
                    assert(node_view(node).children == tree_of(e.children@));
                    assert(dir_nodes(es, i + 1) == dn.push(node_view(node)));
                    assert(dir_nodes(es, i + 1).drop_last() =~= dn);
                    insert_by_name(&mut dirs, node);
                } else {
                    proof {
                        lemma_forest_view(children@);
                    }
                }
            } else if e.is_file && is_md(e.path.as_str()) {
                let node = TreeNode {
                    name: crate::text::copy_string(&e.name),
                    path: crate::text::copy_string(&e.path),
                    is_dir: false,
                    children: Vec::new(),
                };
                assert(node_view(node).children =~= Seq::<TreeNodeV>::empty());
                assert(file_nodes(es, i + 1) == fnodes.push(node_view(node)));
                assert(file_nodes(es, i + 1).drop_last() =~= fnodes);
                insert_by_name(&mut files, node);
            }
        }
        i += 1;
    }
    let ghost dv = forest_view(dirs);
    let ghost fv = forest_view(files);
    proof {
        lemma_forest_view(dirs@);
        lemma_forest_view(files@);
    }
    let ghost d0 = dirs@;
    let ghost f0 = files@;
    let mut out = dirs;
    let mut rest = files;
    while rest.len() > 0
        invariant
            out@ + rest@ == d0 + f0,
        decreases rest.len(),
    {
        let ghost before = rest@;
        let f = rest.remove(0);
        let ghost ob = out@;
        out.push(f);
        assert(out@ + rest@ =~= ob + before);
    }
    assert(out@ =~= d0 + f0);
    proof {
        lemma_forest_view(out@);
        assert(forest_view(out) =~= dv + fv) by {
            assert forall|j: int| 0 <= j < out@.len() implies #[trigger] forest_view(out)[j] == (dv + fv)[j] by {
                if j < d0.len() {
                    assert(out@[j] == d0[j]);
                } else {
                    assert(out@[j] == f0[j - d0.len()]);
                }
            }
        }
    }
    out
}


/// Every visible `.md` file in a listing, recursively (depth-first, in listing
/// order), skipping hidden entries the same way [`build_tree`] does. Used by
/// the indexer to build the link graph on vault open.
pub fn list_md_files(entries: &Vec<DirEntry>) -> (r: Vec<String>)
    ensures
        r.deep_view() == md_paths(entries@),
    decreases entries@,
{
    let ghost es = entries@;
    let mut out: Vec<String> = Vec::new();
    let mut i: usize = 0;
    while i < entries.len()
        invariant
            i <= entries.len(),
            es == entries@,
            out.deep_view() == md_paths_upto(es, i as int),
        decreases entries.len() - i,
    {
        let e = &entries[i];
        assert(es[i as int] == *e);
        if !is_hidden(e.name.as_str()) {
            if e.is_dir {
                assert(decreases_to!(es => es[i as int].children@));
                let inner = list_md_files(&e.children);
                let ghost before = out.deep_view();
                let mut k: usize = 0;
                while k < inner.len()
                    invariant
                        k <= inner.len(),
                        out.deep_view() == before + inner.deep_view().take(k as int),
                    decreases inner.len() - k,
                {
                    let c = crate::text::copy_string(&inner[k]);
                    let ghost b = out.deep_view();
                    out.push(c);
                    assert(out.deep_view() =~= b.push(c@));
                    assert(inner.deep_view().take(k + 1) =~= inner.deep_view().take(k as int).push(inner[k as int]@));
                    k += 1;
                }
                assert(inner.deep_view().take(inner.len() as int) =~= inner.deep_view());
            } else if e.is_file && is_md(e.path.as_str()) {
                let ghost before = out.deep_view();
                let c = crate::text::copy_string(&e.path);
                out.push(c);
                assert(out.deep_view() =~= before.push(c@));
            }
        }
        i += 1;
    }
    out
}


// ---------------------------------------------------------------- laws of the tree

/// In order of lowercased name.
pub open spec fn sorted_by_name(s: Seq<TreeNodeV>) -> bool {
    forall|i: int, j: int| 0 <= i < j < s.len() ==> !lex_lt(name_key(#[trigger] s[j]), name_key(#[trigger] s[i]))
}

proof fn lemma_insert_pos(s: Seq<TreeNodeV>, k: Seq<char>)
    requires
        sorted_by_name(s),
    ensures
        0 <= insert_pos(s, k) <= s.len(),
        forall|i: int| 0 <= i < insert_pos(s, k) ==> !lex_lt(k, name_key(#[trigger] s[i])),
        forall|i: int| insert_pos(s, k) <= i < s.len() ==> lex_lt(k, name_key(#[trigger] s[i])),
    decreases s.len(),
{
    if s.len() > 0 {
        let t = s.drop_last();
        assert(sorted_by_name(t)) by {
            assert forall|i: int, j: int| 0 <= i < j < t.len() implies !lex_lt(name_key(#[trigger] t[j]), name_key(#[trigger] t[i])) by {
                assert(t[i] == s[i] && t[j] == s[j]);
            }
        }
        lemma_insert_pos(t, k);
        let last = s.last();
        if !lex_lt(k, name_key(last)) {
            assert forall|i: int| 0 <= i < s.len() implies !lex_lt(k, name_key(#[trigger] s[i])) by {
                if i < s.len() - 1 {
                    crate::text::lemma_lex_total(name_key(s[i]), name_key(last));
                    if lex_lt(k, name_key(s[i])) && lex_lt(name_key(s[i]), name_key(last)) {
                        crate::text::lemma_lex_trans(k, name_key(s[i]), name_key(last));
                    }
                }
            }
        } else {
            assert forall|i: int| 0 <= i < insert_pos(s, k) implies !lex_lt(k, name_key(#[trigger] s[i])) by {
                assert(s[i] == t[i]);
            }
            assert forall|i: int| insert_pos(s, k) <= i < s.len() implies lex_lt(k, name_key(#[trigger] s[i])) by {
                if i < s.len() - 1 {
                    assert(s[i] == t[i]);
                }
            }
        }
    }
}

/// Sorting by name gives the same nodes, in name order.
pub proof fn lemma_sort_by_name(s: Seq<TreeNodeV>)
    ensures
        sorted_by_name(sort_by_name(s)),
        sort_by_name(s).to_multiset() == s.to_multiset(),
    decreases s.len(),
{
    broadcast use vstd::seq_lib::group_to_multiset_ensures;
    if s.len() > 0 {
        let rest = sort_by_name(s.drop_last());
        lemma_sort_by_name(s.drop_last());
        let x = s.last();
        let k = name_key(x);
        lemma_insert_pos(rest, k);
        let p = insert_pos(rest, k);
        let out = rest.insert(p, x);
        crate::index::lemma_insert_multiset(rest, p, x);
        assert(s =~= s.drop_last().push(x));
        assert forall|i: int, j: int| 0 <= i < j < out.len() implies !lex_lt(name_key(#[trigger] out[j]), name_key(#[trigger] out[i])) by {
            if j < p {
                assert(out[i] == rest[i] && out[j] == rest[j]);
            } else if j == p {
                assert(out[i] == rest[i]);
                crate::text::lemma_lex_total(k, name_key(rest[i]));
            } else if i < p {
                assert(out[i] == rest[i] && out[j] == rest[j - 1]);
            } else if i == p {
                assert(out[j] == rest[j - 1]);
                crate::text::lemma_lex_total(k, name_key(rest[j - 1]));
            } else {
                assert(out[i] == rest[i - 1] && out[j] == rest[j - 1]);
            }
        }
    }
}

proof fn lemma_group_flags(es: Seq<DirEntry>, n: int)
    ensures
        forall|i: int| 0 <= i < dir_nodes(es, n).len() ==> (#[trigger] dir_nodes(es, n)[i]).is_dir
            && dir_nodes(es, n)[i].children.len() > 0 && !is_hidden_name(dir_nodes(es, n)[i].name),
        forall|i: int| 0 <= i < file_nodes(es, n).len() ==> !(#[trigger] file_nodes(es, n)[i]).is_dir
            && !is_hidden_name(file_nodes(es, n)[i].name),
    decreases n,
{
    if n > 0 && n <= es.len() {
        lemma_group_flags(es, n - 1);
        let d0 = dir_nodes(es, n - 1);
        let d1 = dir_nodes(es, n);
        assert forall|i: int| 0 <= i < d1.len() implies (#[trigger] d1[i]).is_dir && d1[i].children.len() > 0
            && !is_hidden_name(d1[i].name) by {
            if i < d0.len() {
                assert(d1[i] == d0[i]);
            }
        }
        let f0 = file_nodes(es, n - 1);
        let f1 = file_nodes(es, n);
        assert forall|i: int| 0 <= i < f1.len() implies !(#[trigger] f1[i]).is_dir && !is_hidden_name(f1[i].name) by {
            if i < f0.len() {
                assert(f1[i] == f0[i]);
            }
        }
    }
}

/// The shape of the file tree: folders come before files, each group is in
/// order of lowercased name, no entry is hidden, and every folder holds
/// something.
pub proof fn law_tree_shape(es: Seq<DirEntry>)
    ensures
        forall|i: int, j: int|
            0 <= i < j < tree_of(es).len() && (#[trigger] tree_of(es)[j]).is_dir ==> (#[trigger] tree_of(es)[i]).is_dir,
        forall|i: int, j: int|
            0 <= i < j < tree_of(es).len() && (#[trigger] tree_of(es)[i]).is_dir == (#[trigger] tree_of(es)[j]).is_dir
                ==> !lex_lt(name_key(tree_of(es)[j]), name_key(tree_of(es)[i])),
        forall|i: int|
            0 <= i < tree_of(es).len() ==> !is_hidden_name((#[trigger] tree_of(es)[i]).name) && (tree_of(es)[i].is_dir
                ==> tree_of(es)[i].children.len() > 0),
{
    broadcast use vstd::seq_lib::group_to_multiset_ensures;
    let n = es.len() as int;
    let d = dir_nodes(es, n);
    let f = file_nodes(es, n);
    lemma_group_flags(es, n);
    lemma_sort_by_name(d);
    lemma_sort_by_name(f);
    let sd = sort_by_name(d);
    let sf = sort_by_name(f);
    let t = tree_of(es);
    assert(t == sd + sf);
    assert forall|i: int| 0 <= i < sd.len() implies (#[trigger] sd[i]).is_dir && sd[i].children.len() > 0
        && !is_hidden_name(sd[i].name) by {
        assert(sd.contains(sd[i]));
        assert(d.to_multiset().count(sd[i]) > 0);
        let w = choose|w: int| 0 <= w < d.len() && d[w] == sd[i];
        assert(d[w].is_dir);
    }
    assert forall|i: int| 0 <= i < sf.len() implies !(#[trigger] sf[i]).is_dir && !is_hidden_name(sf[i].name) by {
        assert(sf.contains(sf[i]));
        assert(f.to_multiset().count(sf[i]) > 0);
        let w = choose|w: int| 0 <= w < f.len() && f[w] == sf[i];
        assert(!f[w].is_dir);
    }
    assert forall|i: int, j: int| 0 <= i < j < t.len() && (#[trigger] t[j]).is_dir implies (#[trigger] t[i]).is_dir by {
        if j >= sd.len() {
            assert(t[j] == sf[j - sd.len()]);
        } else {
            assert(t[i] == sd[i]);
        }
    }
    assert forall|i: int, j: int|
        0 <= i < j < t.len() && (#[trigger] t[i]).is_dir == (#[trigger] t[j]).is_dir implies !lex_lt(
        name_key(t[j]),
        name_key(t[i]),
    ) by {
        if j < sd.len() {
            assert(t[i] == sd[i] && t[j] == sd[j]);
        } else if i >= sd.len() {
            assert(t[i] == sf[i - sd.len()] && t[j] == sf[j - sd.len()]);
        } else {
            assert(t[i] == sd[i] && t[j] == sf[j - sd.len()]);
        }
    }
    assert forall|i: int| 0 <= i < t.len() implies !is_hidden_name((#[trigger] t[i]).name) && (t[i].is_dir
        ==> t[i].children.len() > 0) by {
        if i < sd.len() {
            assert(t[i] == sd[i]);
        } else {
            assert(t[i] == sf[i - sd.len()]);
        }
    }
}

} // verus!
