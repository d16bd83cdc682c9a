//! The repository scanner, modelled over an in-memory directory tree.
//!
//! A tree node stands for one directory: its name and its immediate child
//! directories. A node is a repository root when one of its children is the
//! marker directory. Descent prunes every directory whose name is on a fixed
//! denylist (the marker directory itself, the dependency cache, the build
//! output), at any depth; the pruned subtree is never visited, but a pruned
//! marker child still makes its parent a repository root. The scan root
//! itself is always examined, whatever its own name: it must be detected
//! when it is a repository root. Paths are `/`-separated byte strings.
use vstd::prelude::*;

use crate::bytes::bytes_eq;

verus! {

/// One directory: its leaf name and its immediate subdirectories.
pub struct DirTree {
    pub name: Vec<u8>,
    pub children: Vec<DirTree>,
}

/// The marker directory's name.
pub open spec fn git_marker() -> Seq<u8> {
    seq![46u8, 103u8, 105u8, 116u8]
}

/// The dependency-cache directory's name.
pub open spec fn cache_dir() -> Seq<u8> {
    seq![110u8, 111u8, 100u8, 101u8, 95u8, 109u8, 111u8, 100u8, 117u8, 108u8, 101u8, 115u8]
}

/// The build-output directory's name.
pub open spec fn build_dir() -> Seq<u8> {
    seq![116u8, 97u8, 114u8, 103u8, 101u8, 116u8]
}

/// Directory names that are pruned from descent.
pub open spec fn denylisted(name: Seq<u8>) -> bool {
    name == git_marker() || name == cache_dir() || name == build_dir()
}

/// A node is a repository root when an immediate child is the marker
/// directory.
pub open spec fn has_marker(t: DirTree) -> bool {
    exists|k: int| 0 <= k < t.children.len() && t.children[k].name@ == git_marker()
}

/// The paths that a scan of this node reports, in depth-first order: the
/// node's own path when it is a repository root, then the reports of its
/// non-denylisted children.
pub open spec fn spec_scan(t: DirTree, path: Seq<u8>) -> Seq<Seq<u8>>
    decreases t, 1int, 0int,
{
    (if has_marker(t) {
        seq![path]
    } else {
        Seq::<Seq<u8>>::empty()
    }) + spec_scan_kids(t, path, 0)
}

/// The reports of the children of `t` from child `i` on.
pub open spec fn spec_scan_kids(t: DirTree, path: Seq<u8>, i: int) -> Seq<Seq<u8>>
    decreases t, 0int, t.children.len() - i,
{
    if i < 0 || i >= t.children.len() {
        Seq::<Seq<u8>>::empty()
    } else {
        let c = t.children[i];
        (if denylisted(c.name@) {
            Seq::<Seq<u8>>::empty()
        } else {
            spec_scan(c, path + seq![47u8] + c.name@)
        }) + spec_scan_kids(t, path, i + 1)
    }
}

/// Build the marker directory's name.
fn git_marker_vec() -> (r: Vec<u8>)
    ensures
        r@ == git_marker(),
{
    let mut r: Vec<u8> = Vec::new();
    r.push(46);
    r.push(103);
    r.push(105);
    r.push(116);
    proof {
        assert(r@ =~= git_marker());
    }
    r
}

/// Build the dependency-cache directory's name.
fn cache_dir_vec() -> (r: Vec<u8>)
    ensures
        r@ == cache_dir(),
{
    let mut r: Vec<u8> = Vec::new();
    r.push(110);
    r.push(111);
    r.push(100);
    r.push(101);
    r.push(95);
    r.push(109);
    r.push(111);
    r.push(100);
    r.push(117);
    r.push(108);
    r.push(101);
    r.push(115);
    proof {
        assert(r@ =~= cache_dir());
    }
    r
}

/// Build the build-output directory's name.
fn build_dir_vec() -> (r: Vec<u8>)
    ensures
        r@ == build_dir(),
{
    let mut r: Vec<u8> = Vec::new();
    r.push(116);
    r.push(97);
    r.push(114);
    r.push(103);
    r.push(101);
    r.push(116);
    proof {
        assert(r@ =~= build_dir());
    }
    r
}

/// Decide whether a directory name is pruned from descent.
pub fn denylisted_name(name: &Vec<u8>) -> (r: bool)
    ensures
        r == denylisted(name@),
{
    let g = git_marker_vec();
    if bytes_eq(name, &g) {
        return true;
    }
    let c = cache_dir_vec();
    if bytes_eq(name, &c) {
        return true;
    }
    let b = build_dir_vec();
    bytes_eq(name, &b)
}

/// Decide whether a node is a repository root: some immediate child is the
/// marker directory.
fn node_has_marker(t: &DirTree) -> (r: bool)
    ensures
        r == has_marker(*t),
{
    let g = git_marker_vec();
    let n = t.children.len();
    let mut i: usize = 0;
    while i < n
        invariant
            n == t.children.len(),
            i <= n,
            g@ == git_marker(),
            forall|k: int| 0 <= k < i ==> t.children[k].name@ != git_marker(),
        decreases n - i,
    {
        if bytes_eq(&t.children[i].name, &g) {
            return true;
        }
        i += 1;
    }
    false
}

/// The child's path: the parent's path, a separator, the child's name.
fn child_path(path: &Vec<u8>, name: &Vec<u8>) -> (r: Vec<u8>)
    ensures
        r@ == path@ + seq![47u8] + name@,
{
    let mut r = path.clone();
    r.push(47);
    r.extend_from_slice(name.as_slice());
    proof {
        assert(r@ =~= path@ + seq![47u8] + name@);
    }
    r
}

/// Scan one node: report it when it is a repository root, then descend into
/// every child that is not denylisted.
fn scan_node(t: &DirTree, path: Vec<u8>) -> (r: Vec<Vec<u8>>)
    ensures
        r@.map_values(|p: Vec<u8>| p@) == spec_scan(*t, path@),
    decreases *t,
{
    let mut r: Vec<Vec<u8>> = Vec::new();
    if node_has_marker(t) {
        r.push(path.clone());
    }
    proof {
        assert(r@.map_values(|p: Vec<u8>| p@) =~= (if has_marker(*t) {
            seq![path@]
        } else {
            Seq::<Seq<u8>>::empty()
        }));
    }
    let n = t.children.len();
    let mut i: usize = 0;
    while i < n
        invariant
            n == t.children.len(),
            i <= n,
            r@.map_values(|p: Vec<u8>| p@) + spec_scan_kids(*t, path@, i as int) == spec_scan(
                *t,
                path@,
            ),
        decreases n - i,
    {
        let ghost rpre = r@.map_values(|p: Vec<u8>| p@);
        let c = &t.children[i];
        if !denylisted_name(&c.name) {
            let np = child_path(&path, &c.name);
            proof {
                assert(decreases_to!(*t => t.children));
                assert(decreases_to!(t.children => t.children@[i as int]));
            }
            let mut sub = scan_node(c, np);
            let ghost subv = sub@.map_values(|p: Vec<u8>| p@);
            r.append(&mut sub);
            proof {
                assert(r@.map_values(|p: Vec<u8>| p@) =~= rpre + subv);
                assert(spec_scan_kids(*t, path@, i as int) == subv + spec_scan_kids(
                    *t,
                    path@,
                    i as int + 1,
                ));
                assert((rpre + subv) + spec_scan_kids(*t, path@, i as int + 1) =~= rpre + (subv
                    + spec_scan_kids(*t, path@, i as int + 1)));
            }
        } else {
            proof {
                assert(spec_scan_kids(*t, path@, i as int) == Seq::<Seq<u8>>::empty()
                    + spec_scan_kids(*t, path@, i as int + 1));
                assert(Seq::<Seq<u8>>::empty() + spec_scan_kids(*t, path@, i as int + 1)
                    =~= spec_scan_kids(*t, path@, i as int + 1));
            }
        }
        i += 1;
    }
    proof {
        assert(spec_scan_kids(*t, path@, n as int) == Seq::<Seq<u8>>::empty());
        assert(r@.map_values(|p: Vec<u8>| p@) + Seq::<Seq<u8>>::empty() =~= r@.map_values(
            |p: Vec<u8>| p@,
        ));
    }
    r
}

/// A chain of child indices describes a descent through the tree that never
/// enters a denylisted directory.
pub open spec fn ok_chain(t: DirTree, chain: Seq<int>) -> bool
    decreases chain.len(),
{
    if chain.len() == 0 {
        true
    } else {
        &&& 0 <= chain[0] < t.children.len()
        &&& !denylisted(t.children[chain[0]].name@)
        &&& ok_chain(t.children[chain[0]], chain.drop_first())
    }
}

/// The node that a chain of child indices leads to.
pub open spec fn node_at(t: DirTree, chain: Seq<int>) -> DirTree
    decreases chain.len(),
{
    if chain.len() == 0 {
        t
    } else if 0 <= chain[0] < t.children.len() {
        node_at(t.children[chain[0]], chain.drop_first())
    } else {
        t
    }
}

/// The path of the node that a chain of child indices leads to.
pub open spec fn path_at(t: DirTree, base: Seq<u8>, chain: Seq<int>) -> Seq<u8>
    decreases chain.len(),
{
    if chain.len() == 0 {
        base
    } else if 0 <= chain[0] < t.children.len() {
        let c = t.children[chain[0]];
        path_at(c, base + seq![47u8] + c.name@, chain.drop_first())
    } else {
        base
    }
}

/// A path is reported by the children of `t` from child `i` on exactly when
/// some non-denylisted child at or after `i` reports it.
proof fn lemma_kids_mem(t: DirTree, base: Seq<u8>, i: int, p: Seq<u8>)
    requires
        0 <= i,
    ensures
        spec_scan_kids(t, base, i).contains(p) <==> exists|k: int|
            i <= k < t.children.len() && !denylisted(#[trigger] t.children[k].name@) && spec_scan(
                t.children[k],
                base + seq![47u8] + t.children[k].name@,
            ).contains(p),
    decreases t.children.len() - i,
{
    if i >= t.children.len() {
        assert(!spec_scan_kids(t, base, i).contains(p));
    } else {
        lemma_kids_mem(t, base, i + 1, p);
        let c = t.children[i];
        let head = if denylisted(c.name@) {
            Seq::<Seq<u8>>::empty()
        } else {
            spec_scan(c, base + seq![47u8] + c.name@)
        };
        let rest = spec_scan_kids(t, base, i + 1);
        assert(spec_scan_kids(t, base, i) == head + rest);
        if spec_scan_kids(t, base, i).contains(p) {
            let idx = choose|idx: int|
                0 <= idx < (head + rest).len() && (head + rest)[idx] == p;
            if idx < head.len() {
                assert(head[idx] == p);
                assert(!denylisted(c.name@));
                assert(head.contains(p));
            } else {
                assert(rest[idx - head.len()] == p);
                assert(rest.contains(p));
            }
        }
        if exists|k: int|
            i <= k < t.children.len() && !denylisted(#[trigger] t.children[k].name@)
                && spec_scan(t.children[k], base + seq![47u8] + t.children[k].name@).contains(p) {
            let k = choose|k: int|
                i <= k < t.children.len() && !denylisted(#[trigger] t.children[k].name@)
                    && spec_scan(t.children[k], base + seq![47u8] + t.children[k].name@).contains(
                    p,
                );
            if k == i {
                let idx = choose|idx: int| 0 <= idx < head.len() && head[idx] == p;
                assert((head + rest)[idx] == p);
                assert(spec_scan_kids(t, base, i).contains(p));
            } else {
                assert(rest.contains(p));
                let idx = choose|idx: int| 0 <= idx < rest.len() && rest[idx] == p;
                assert((head + rest)[head.len() + idx] == p);
                assert(spec_scan_kids(t, base, i).contains(p));
            }
        }
    }
}

/// What the scan of a node reports, exactly: a path is in the report if and
/// only if a descent that never enters a denylisted directory leads from the
/// node to a directory with a marker child whose path it is. In one
/// direction every directory with a marker child that such a descent reaches
/// is found; in the other, nothing inside a pruned directory is ever
/// reported, however deep, because every report comes with such a descent.
pub proof fn lemma_scan_mem(t: DirTree, base: Seq<u8>, p: Seq<u8>)
    ensures
        spec_scan(t, base).contains(p) <==> exists|chain: Seq<int>|
            #[trigger] ok_chain(t, chain) && has_marker(node_at(t, chain)) && p == path_at(
                t,
                base,
                chain,
            ),
    decreases t,
{
    let own = if has_marker(t) {
        seq![base]
    } else {
        Seq::<Seq<u8>>::empty()
    };
    let kids0 = spec_scan_kids(t, base, 0);
    assert(spec_scan(t, base) == own + kids0);
    lemma_kids_mem(t, base, 0, p);
    if spec_scan(t, base).contains(p) {
        let idx = choose|idx: int|
            0 <= idx < (own + kids0).len() && (own + kids0)[idx] == p;
        if idx < own.len() {
            assert(has_marker(t) && p == base);
            let chain = Seq::<int>::empty();
            assert(ok_chain(t, chain) && has_marker(node_at(t, chain)) && p == path_at(
                t,
                base,
                chain,
            ));
        } else {
            assert(kids0[idx - own.len()] == p);
            assert(kids0.contains(p));
            let k = choose|k: int|
                0 <= k < t.children.len() && !denylisted(#[trigger] t.children[k].name@)
                    && spec_scan(t.children[k], base + seq![47u8] + t.children[k].name@).contains(
                    p,
                );
            let c = t.children[k];
            assert(decreases_to!(t => t.children));
            assert(decreases_to!(t.children => t.children@[k]));
            lemma_scan_mem(c, base + seq![47u8] + c.name@, p);
            let sub = choose|chain: Seq<int>|
                #[trigger] ok_chain(c, chain) && has_marker(node_at(c, chain)) && p == path_at(
                    c,
                    base + seq![47u8] + c.name@,
                    chain,
                );
            let chain = seq![k] + sub;
            assert(chain[0] == k);
            assert(chain.drop_first() =~= sub);
            assert(ok_chain(t, chain) && has_marker(node_at(t, chain)) && p == path_at(
                t,
                base,
                chain,
            ));
        }
    }
    if exists|chain: Seq<int>|
        #[trigger] ok_chain(t, chain) && has_marker(node_at(t, chain)) && p == path_at(
            t,
            base,
            chain,
        ) {
        let chain = choose|chain: Seq<int>|
            #[trigger] ok_chain(t, chain) && has_marker(node_at(t, chain)) && p == path_at(
                t,
                base,
                chain,
            );
        if chain.len() == 0 {
            assert(has_marker(t) && p == base);
            assert((own + kids0)[0] == base);
            assert(spec_scan(t, base).contains(p));
        } else {
            let k = chain[0];
            let sub = chain.drop_first();
            let c = t.children[k];
            assert(decreases_to!(t => t.children));
            assert(decreases_to!(t.children => t.children@[k]));
            lemma_scan_mem(c, base + seq![47u8] + c.name@, p);
            assert(ok_chain(c, sub) && has_marker(node_at(c, sub)) && p == path_at(
                c,
                base + seq![47u8] + c.name@,
                sub,
            ));
            assert(spec_scan(c, base + seq![47u8] + c.name@).contains(p));
            assert(kids0.contains(p));
            let idx = choose|idx: int| 0 <= idx < kids0.len() && kids0[idx] == p;
            assert((own + kids0)[own.len() + idx] == p);
            assert(spec_scan(t, base).contains(p));
        }
    }
}

/// A root directory that is itself a repository root is reported, under its
/// own path, whatever the root's own name: the denylist prunes descent into
/// children, never the root's own detection.
pub proof fn lemma_scan_finds_root(t: DirTree, root_path: Seq<u8>)
    requires
        has_marker(t),
    ensures
        spec_scan(t, root_path).contains(root_path),
{
    let own = seq![root_path];
    let kids0 = spec_scan_kids(t, root_path, 0);
    assert(spec_scan(t, root_path) == own + kids0);
    assert((own + kids0)[0] == root_path);
}

/// Scan a directory tree for repository roots. The returned paths are the
/// root path itself for the root node, and the parent's path, a separator
/// and the directory's name for every node below it, in depth-first order.
/// The root itself is always examined, even when its own name is on the
/// denylist: the denylist prunes entries met during descent.
pub fn scan(t: &DirTree, root_path: &Vec<u8>) -> (r: Vec<Vec<u8>>)
    ensures
        r@.map_values(|p: Vec<u8>| p@) == spec_scan(*t, root_path@),
{
    scan_node(t, root_path.clone())
}

} // verus!
