//! The repository index: an ordered mapping from repository names to the
//! paths of their roots.
//!
//! Names are the leaf components of repository-root paths, held as bytes;
//! paths are `/`-separated byte strings.
//! The index keeps its entries in a sequence with pairwise-distinct names;
//! inserting an existing name overwrites that entry's path in place, so the
//! position of a name in the sequence is stable across re-indexing runs.
use vstd::prelude::*;

use crate::bytes::bytes_eq;

verus! {

/// One indexed repository: its leaf name and the full path of its root.
pub struct Entry {
    pub name: Vec<u8>,
    pub path: Vec<u8>,
}

impl View for Entry {
    type V = (Seq<u8>, Seq<u8>);

    open spec fn view(&self) -> (Seq<u8>, Seq<u8>) {
        (self.name@, self.path@)
    }
}

/// The name-to-path mapping, ordered by first insertion.
pub struct Index {
    entries: Vec<Entry>,
}

impl View for Index {
    type V = Seq<(Seq<u8>, Seq<u8>)>;

    closed spec fn view(&self) -> Seq<(Seq<u8>, Seq<u8>)> {
        self.entries@.map_values(|e: Entry| e@)
    }
}

/// All names in the model are pairwise distinct.
pub open spec fn names_unique(m: Seq<(Seq<u8>, Seq<u8>)>) -> bool {
    forall|i: int, j: int| 0 <= i < j < m.len() ==> m[i].0 != m[j].0
}

/// Some entry of the model carries the given name.
pub open spec fn has_name(m: Seq<(Seq<u8>, Seq<u8>)>, name: Seq<u8>) -> bool {
    exists|i: int| 0 <= i < m.len() && m[i].0 == name
}

/// Insertion into the model: overwrite the first entry with this name in
/// place, or append a new entry at the end.
pub open spec fn spec_insert(
    m: Seq<(Seq<u8>, Seq<u8>)>,
    name: Seq<u8>,
    path: Seq<u8>,
) -> Seq<(Seq<u8>, Seq<u8>)>
    decreases m.len(),
{
    if m.len() == 0 {
        seq![(name, path)]
    } else if m[0].0 == name {
        seq![(name, path)] + m.drop_first()
    } else {
        seq![m[0]] + spec_insert(m.drop_first(), name, path)
    }
}

/// Insertion keeps names unique, adds exactly the inserted name, and leaves
/// every entry with a different name unchanged at its position.
pub proof fn lemma_insert_props(m: Seq<(Seq<u8>, Seq<u8>)>, name: Seq<u8>, path: Seq<u8>)
    ensures
        has_name(m, name) ==> spec_insert(m, name, path).len() == m.len(),
        !has_name(m, name) ==> spec_insert(m, name, path) == m.push((name, path)),
        forall|x: Seq<u8>| has_name(spec_insert(m, name, path), x) <==> (has_name(m, x) || x == name),
        names_unique(m) ==> names_unique(spec_insert(m, name, path)),
        has_name(spec_insert(m, name, path), name),
    decreases m.len(),
{
    let r = spec_insert(m, name, path);
    if m.len() == 0 {
        assert(r == seq![(name, path)]);
        assert(r =~= m.push((name, path)));
        assert(r[0].0 == name);
        assert forall|x: Seq<u8>| has_name(r, x) implies (has_name(m, x) || x == name) by {
            let i = choose|i: int| 0 <= i < r.len() && r[i].0 == x;
            assert(i == 0);
        }
    } else if m[0].0 == name {
        assert(r == seq![(name, path)] + m.drop_first());
        assert(r.len() == m.len());
        assert(r[0].0 == name);
        assert(has_name(m, name)) by { assert(m[0].0 == name); }
        assert forall|x: Seq<u8>| has_name(r, x) implies (has_name(m, x) || x == name) by {
            let i = choose|i: int| 0 <= i < r.len() && r[i].0 == x;
            if i > 0 {
                assert(m[i].0 == x);
            }
        }
        assert forall|x: Seq<u8>| (has_name(m, x) || x == name) implies has_name(r, x) by {
            if x == name {
                assert(r[0].0 == name);
            } else {
                let i = choose|i: int| 0 <= i < m.len() && m[i].0 == x;
                assert(i > 0);
                assert(r[i].0 == x);
            }
        }
        if names_unique(m) {
            assert forall|i: int, j: int| 0 <= i < j < r.len() implies r[i].0 != r[j].0 by {
                if i == 0 {
                    assert(r[j].0 == m[j].0);
                    assert(m[0].0 != m[j].0);
                } else {
                    assert(r[i].0 == m[i].0 && r[j].0 == m[j].0);
                }
            }
        }
    } else {
        let m1 = m.drop_first();
        let r1 = spec_insert(m1, name, path);
        lemma_insert_props(m1, name, path);
        assert(r == seq![m[0]] + r1);
        assert(forall|i: int| 0 <= i < m1.len() ==> m1[i] == m[i + 1]);
        assert(has_name(m, name) <==> has_name(m1, name)) by {
            if has_name(m, name) {
                let i = choose|i: int| 0 <= i < m.len() && m[i].0 == name;
                assert(i > 0);
                assert(m1[i - 1].0 == name);
            }
            if has_name(m1, name) {
                let i = choose|i: int| 0 <= i < m1.len() && m1[i].0 == name;
                assert(m[i + 1].0 == name);
            }
        }
        if !has_name(m, name) {
            assert(r =~= m.push((name, path)));
        }
        assert forall|x: Seq<u8>| has_name(r, x) implies (has_name(m, x) || x == name) by {
            let i = choose|i: int| 0 <= i < r.len() && r[i].0 == x;
            if i == 0 {
                assert(m[0].0 == x);
            } else {
                assert(r1[i - 1].0 == x);
                assert(has_name(r1, x));
                if has_name(m1, x) {
                    let k = choose|k: int| 0 <= k < m1.len() && m1[k].0 == x;
                    assert(m[k + 1].0 == x);
                }
            }
        }
        assert forall|x: Seq<u8>| (has_name(m, x) || x == name) implies has_name(r, x) by {
            if x == name {
                assert(has_name(r1, name));
                let k = choose|k: int| 0 <= k < r1.len() && r1[k].0 == name;
                assert(r[k + 1].0 == name);
            } else {
                let i = choose|i: int| 0 <= i < m.len() && m[i].0 == x;
                if i == 0 {
                    assert(r[0].0 == x);
                } else {
                    assert(0 <= i - 1 < m1.len() && m1[i - 1].0 == x);
                    assert(has_name(m1, x));
                    assert(has_name(r1, x));
                    let k = choose|k: int| 0 <= k < r1.len() && r1[k].0 == x;
                    assert(r[k + 1].0 == x);
                }
            }
        }
        if names_unique(m) {
            assert(names_unique(m1)) by {
                assert forall|i: int, j: int| 0 <= i < j < m1.len() implies m1[i].0 != m1[j].0 by {
                    assert(m[i + 1].0 != m[j + 1].0);
                }
            }
            assert(names_unique(r1));
            assert forall|i: int, j: int| 0 <= i < j < r.len() implies r[i].0 != r[j].0 by {
                if i == 0 {
                    assert(has_name(r1, r[j].0) ==> (has_name(m1, r[j].0) || r[j].0 == name));
                    assert(r1[j - 1].0 == r[j].0);
                    if has_name(m1, r[j].0) {
                        let k = choose|k: int| 0 <= k < m1.len() && m1[k].0 == r[j].0;
                        assert(m[k + 1].0 == r[j].0);
                        assert(m[0].0 != m[k + 1].0);
                    }
                } else {
                    assert(r1[i - 1].0 != r1[j - 1].0);
                }
            }
        }
    }
}

/// Merging a run of discovered paths into the model, in order: each path is
/// keyed by its leaf name; a later path with the same leaf overwrites an
/// earlier one.
pub open spec fn spec_build(
    m: Seq<(Seq<u8>, Seq<u8>)>,
    discovered: Seq<Seq<u8>>,
) -> Seq<(Seq<u8>, Seq<u8>)>
    decreases discovered.len(),
{
    if discovered.len() == 0 {
        m
    } else {
        spec_build(
            spec_insert(m, leaf_of(discovered[0]), discovered[0]),
            discovered.drop_first(),
        )
    }
}

/// Merging an empty run of discovered paths is a no-op: the index model is
/// returned unchanged.
pub proof fn lemma_build_empty(m: Seq<(Seq<u8>, Seq<u8>)>)
    ensures
        spec_build(m, Seq::<Seq<u8>>::empty()) == m,
{
}

/// Two discovered paths sharing one leaf name collapse to a single entry,
/// and the later path wins.
pub proof fn lemma_build_same_leaf(p1: Seq<u8>, p2: Seq<u8>)
    requires
        leaf_of(p1) == leaf_of(p2),
    ensures
        spec_build(Seq::<(Seq<u8>, Seq<u8>)>::empty(), seq![p1, p2]) == seq![(leaf_of(p2), p2)],
{
    let s = seq![p1, p2];
    let empty = Seq::<(Seq<u8>, Seq<u8>)>::empty();
    assert(s[0] == p1);
    assert(s.drop_first() =~= seq![p2]);
    let m1 = spec_insert(empty, leaf_of(p1), p1);
    assert(m1 == seq![(leaf_of(p1), p1)]);
    assert(seq![p2][0] == p2);
    assert(seq![p2].drop_first() =~= Seq::<Seq<u8>>::empty());
    let m2 = spec_insert(m1, leaf_of(p2), p2);
    assert(m1[0].0 == leaf_of(p2));
    assert(m2 == seq![(leaf_of(p2), p2)] + m1.drop_first());
    assert(m2 =~= seq![(leaf_of(p2), p2)]);
    assert(spec_build(empty, s) == spec_build(m1, s.drop_first()));
    assert(spec_build(m1, seq![p2]) == spec_build(m2, Seq::<Seq<u8>>::empty()));
}

/// The leaf name of a path: the bytes after the last `/` separator, or the
/// whole path when it has no separator. Paths are taken as `/`-separated
/// throughout the crate; a caller on a platform with another separator
/// converts before handing paths in.
pub open spec fn leaf_of(p: Seq<u8>) -> Seq<u8>
    decreases p.len(),
{
    if p.len() == 0 {
        Seq::empty()
    } else if p.last() == 47 {
        Seq::empty()
    } else {
        leaf_of(p.drop_last()).push(p.last())
    }
}

/// A path that is empty or ends in a separator has an empty leaf.
proof fn lemma_leaf_ends_empty(p: Seq<u8>)
    requires
        p.len() == 0 || p.last() == 47,
    ensures
        leaf_of(p) == Seq::<u8>::empty(),
{
}

impl Index {
    /// Names are pairwise distinct.
    pub open spec fn wf(&self) -> bool {
        names_unique(self@)
    }

    /// The empty index.
    pub fn new() -> (r: Index)
        ensures
            r@ == Seq::<(Seq<u8>, Seq<u8>)>::empty(),
            r.wf(),
    {
        let r = Index { entries: Vec::new() };
        proof {
            assert(r@ =~= Seq::<(Seq<u8>, Seq<u8>)>::empty());
        }
        r
    }

    /// Number of indexed repositories.
    pub fn len(&self) -> (n: usize)
        ensures
            n == self@.len(),
    {
        self.entries.len()
    }

    /// The name of the entry at a position, as a copy.
    pub fn name_at(&self, i: usize) -> (r: Vec<u8>)
        requires
            i < self@.len(),
        ensures
            r@ == self@[i as int].0,
    {
        self.entries[i].name.clone()
    }

    /// The path of the entry at a position, as a copy.
    pub fn path_at(&self, i: usize) -> (r: Vec<u8>)
        requires
            i < self@.len(),
        ensures
            r@ == self@[i as int].1,
    {
        self.entries[i].path.clone()
    }

    /// Insert a repository under a name: the first entry already carrying
    /// the name is overwritten in place, otherwise a new entry is appended.
    pub fn insert(&mut self, name: Vec<u8>, path: Vec<u8>)
        requires
            old(self).wf(),
        ensures
            final(self)@ == spec_insert(old(self)@, name@, path@),
            final(self).wf(),
    {
        let ghost m0 = self@;
        let ghost gname = name@;
        let ghost gpath = path@;
        let n = self.entries.len();
        let mut i: usize = 0;
        while i < n
            invariant
                n == self.entries.len(),
                self@ == m0,
                m0 == old(self)@,
                names_unique(m0),
                forall|j: int| 0 <= j < i ==> m0[j].0 != gname,
                i <= n,
                name@ == gname,
                path@ == gpath,
            decreases n - i,
        {
            if bytes_eq(&self.entries[i].name, &name) {
                proof {
                    assert(m0[i as int].0 == gname);
                }
                let e = Entry { name, path };
                proof {
                    assert(e@ == (gname, gpath));
                }
                self.entries.remove(i);
                self.entries.insert(i, e);
                proof {
                    assert(self@ =~= m0.remove(i as int).insert(i as int, (gname, gpath)));
                    lemma_insert_at_first(m0, gname, gpath, i as int);
                    lemma_insert_props(m0, gname, gpath);
                }
                return;
            }
            i += 1;
        }
        let e = Entry { name, path };
        proof {
            assert(e@ == (gname, gpath));
        }
        self.entries.push(e);
        proof {
            assert(!has_name(m0, gname));
            lemma_insert_props(m0, gname, gpath);
            assert(self@ =~= m0.push((gname, gpath)));
        }
    }

    /// Merge discovered repository-root paths into the index, in order,
    /// keying each by its leaf name.
    pub fn build(&mut self, discovered: &Vec<Vec<u8>>)
        requires
            old(self).wf(),
        ensures
            final(self)@ == spec_build(old(self)@, discovered@.map_values(|p: Vec<u8>| p@)),
            final(self).wf(),
    {
        let ghost paths = discovered@.map_values(|p: Vec<u8>| p@);
        proof {
            assert(paths.skip(0) =~= paths);
        }
        let n = discovered.len();
        let mut i: usize = 0;
        while i < n
            invariant
                n == discovered.len(),
                paths == discovered@.map_values(|p: Vec<u8>| p@),
                i <= n,
                self.wf(),
                spec_build(self@, paths.skip(i as int)) == spec_build(old(self)@, paths),
            decreases n - i,
        {
            let ghost pre = self@;
            let name = leaf_name(&discovered[i]);
            self.insert(name, discovered[i].clone());
            proof {
                assert(paths.skip(i as int).drop_first() =~= paths.skip(i as int + 1));
                assert(paths.skip(i as int)[0] == paths[i as int]);
            }
            i += 1;
        }
        proof {
            assert(paths.skip(n as int) =~= Seq::<Seq<u8>>::empty());
        }
    }
}

/// The model-level insert at the first matching position equals an in-place
/// update of that position.
proof fn lemma_insert_at_first(m: Seq<(Seq<u8>, Seq<u8>)>, name: Seq<u8>, path: Seq<u8>, i: int)
    requires
        0 <= i < m.len(),
        m[i].0 == name,
        forall|j: int| 0 <= j < i ==> m[j].0 != name,
    ensures
        spec_insert(m, name, path) == m.remove(i).insert(i, (name, path)),
    decreases i,
{
    if i == 0 {
        assert(spec_insert(m, name, path) == seq![(name, path)] + m.drop_first());
        assert(spec_insert(m, name, path) =~= m.remove(0).insert(0, (name, path)));
    } else {
        let m1 = m.drop_first();
        assert(forall|j: int| 0 <= j < m1.len() ==> m1[j] == m[j + 1]);
        lemma_insert_at_first(m1, name, path, i - 1);
        assert(spec_insert(m, name, path) == seq![m[0]] + spec_insert(m1, name, path));
        assert(spec_insert(m, name, path) =~= m.remove(i).insert(i, (name, path)));
    }
}

/// Extract the leaf name of a `/`-separated path: the bytes after the last
/// separator.
pub fn leaf_name(p: &Vec<u8>) -> (r: Vec<u8>)
    ensures
        r@ == leaf_of(p@),
{
    let n = p.len();
    let mut i: usize = n;
    while i > 0 && p[i - 1] != 47
        invariant
            i <= n,
            n == p.len(),
            forall|j: int| i <= j < n ==> p@[j] != 47,
        decreases i,
    {
        i -= 1;
    }
    let mut r: Vec<u8> = Vec::new();
    let mut k: usize = i;
    while k < n
        invariant
            i <= k <= n,
            n == p.len(),
            forall|j: int| i <= j < n ==> p@[j] != 47,
            r@ == p@.subrange(i as int, k as int),
        decreases n - k,
    {
        r.push(p[k]);
        proof {
            assert(r@ =~= p@.subrange(i as int, k as int + 1));
        }
        k += 1;
    }
    proof {
        lemma_leaf_suffix_cases(p@, i as int);
        assert(p@.subrange(i as int, n as int) =~= p@.skip(i as int));
    }
    r
}

/// The suffix characterization of `leaf_of`: when position `i` is the start
/// of the path or sits just after the last separator, the leaf is the suffix
/// from `i`.
proof fn lemma_leaf_suffix_cases(p: Seq<u8>, i: int)
    requires
        0 <= i <= p.len(),
        forall|j: int| i <= j < p.len() ==> p[j] != 47,
        i > 0 ==> p[i - 1] == 47,
    ensures
        leaf_of(p) == p.skip(i),
    decreases p.len(),
{
    if i == p.len() {
        if p.len() == 0 {
            assert(leaf_of(p) =~= p.skip(i));
        } else {
            assert(p.last() == 47);
            lemma_leaf_ends_empty(p);
            assert(leaf_of(p) =~= p.skip(i));
        }
    } else {
        let q = p.drop_last();
        assert(p.last() != 47);
        assert(forall|j: int| i <= j < q.len() ==> q[j] == p[j]);
        lemma_leaf_suffix_cases(q, i);
        assert(leaf_of(p) == leaf_of(q).push(p.last()));
        assert(leaf_of(p) =~= p.skip(i));
    }
}

} // verus!
