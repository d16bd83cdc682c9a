//! The match resolver: scores every indexed name against a query with a
//! fuzzy subsequence matcher and deterministically picks the best entry.
//!
//! The winner is the entry with the highest score; among equally scored
//! entries the one earliest in the index order wins, so resolution is a
//! function of the index value and the query alone.
use vstd::prelude::*;

use crate::index::Index;
use fuzzy_matcher::FuzzyMatcher;

verus! {

/// The score that the skim fuzzy matcher, in its default configuration,
/// assigns to a candidate name for a pattern; `None` when the pattern's
/// characters do not occur in order within the name. The score depends on
/// the two byte strings alone.
pub uninterp spec fn skim_score(name: Seq<u8>, pattern: Seq<u8>) -> Option<int>;

/// Relies on fuzzy_matcher's `SkimMatcherV2::fuzzy_match` with the default
/// configuration: a deterministic function of the name and the pattern.
#[verifier::external_body]
fn fuzzy_score(name: &Vec<u8>, pattern: &Vec<u8>) -> (r: Option<i64>)
    ensures
        match r {
            None => skim_score(name@, pattern@) is None,
            Some(v) => skim_score(name@, pattern@) == Some(v as int),
        },
{
    let matcher = fuzzy_matcher::skim::SkimMatcherV2::default();
    let choice = String::from_utf8_lossy(name.as_slice());
    let pat = String::from_utf8_lossy(pattern.as_slice());
    matcher.fuzzy_match(&choice, &pat)
}

/// The winning position and score for a query over the index model: the
/// highest skim score, earliest entry first on ties.
pub open spec fn spec_best(m: Seq<(Seq<u8>, Seq<u8>)>, q: Seq<u8>) -> Option<(int, int)>
    decreases m.len(),
{
    if m.len() == 0 {
        None
    } else {
        let prev = spec_best(m.drop_last(), q);
        match skim_score(m.last().0, q) {
            None => prev,
            Some(sc) => match prev {
                None => Some((m.len() - 1, sc)),
                Some((pi, ps)) => if sc > ps {
                    Some((m.len() - 1, sc))
                } else {
                    prev
                },
            },
        }
    }
}

/// The path that a query resolves to over the index model, if any entry
/// matches at all.
pub open spec fn spec_resolve(m: Seq<(Seq<u8>, Seq<u8>)>, q: Seq<u8>) -> Option<Seq<u8>> {
    match spec_best(m, q) {
        None => None,
        Some((i, sc)) => Some(m[i].1),
    }
}

/// What the selected position means: it carries the maximal score over all
/// entries that match at all, no earlier entry reaches that score, and when
/// no position is selected no entry matches. This pins the tie-break: among
/// equally scored entries the earliest wins.
pub proof fn lemma_best_props(m: Seq<(Seq<u8>, Seq<u8>)>, q: Seq<u8>)
    ensures
        match spec_best(m, q) {
            None => forall|j: int| 0 <= j < m.len() ==> skim_score(#[trigger] m[j].0, q) is None,
            Some((i, sc)) => {
                &&& 0 <= i < m.len()
                &&& skim_score(m[i].0, q) == Some(sc)
                &&& forall|j: int|
                    0 <= j < m.len() && skim_score(#[trigger] m[j].0, q) is Some
                        ==> skim_score(m[j].0, q).unwrap() <= sc
                &&& forall|j: int|
                    0 <= j < i ==> !(skim_score(#[trigger] m[j].0, q) == Some(sc))
            },
        },
    decreases m.len(),
{
    if m.len() > 0 {
        let prefix = m.drop_last();
        lemma_best_props(prefix, q);
        assert(forall|j: int| 0 <= j < prefix.len() ==> prefix[j] == m[j]);
        assert(m.last() == m[m.len() - 1]);
    }
}

/// Resolve a query against the index: the path of the best-matching entry,
/// or `None` when no indexed name matches the query, in particular when the
/// index is empty. The result is a function of the index value and the
/// query, so repeated calls agree.
pub fn resolve(index: &Index, query: &Vec<u8>) -> (r: Option<Vec<u8>>)
    ensures
        match r {
            None => spec_resolve(index@, query@) is None,
            Some(p) => spec_resolve(index@, query@) == Some(p@),
        },
{
    let ghost m = index@;
    let n = index.len();
    let mut have: bool = false;
    let mut best_idx: usize = 0;
    let mut best_score: i64 = 0;
    let mut i: usize = 0;
    while i < n
        invariant
            m == index@,
            n == m.len(),
            i <= n,
            match spec_best(m.take(i as int), query@) {
                None => !have,
                Some((bi, bs)) => have && best_idx == bi && best_score == bs && bi < i,
            },
        decreases n - i,
    {
        let ghost mpre = m.take(i as int);
        let name = index.name_at(i);
        let sc = fuzzy_score(&name, query);
        proof {
            assert(m.take(i as int + 1).drop_last() =~= mpre);
            assert(m.take(i as int + 1).last() == m[i as int]);
        }
        match sc {
            None => {},
            Some(v) => {
                if !have || v > best_score {
                    have = true;
                    best_idx = i;
                    best_score = v;
                }
            },
        }
        i += 1;
    }
    proof {
        assert(m.take(n as int) =~= m);
    }
    if have {
        Some(index.path_at(best_idx))
    } else {
        None
    }
}

/// What resolution means, over the index model. Resolution is a function of
/// the model and the query, so two calls on equal values return the same
/// path: that is the determinism of the resolver, tie-breaks included. The
/// result is `None` exactly when no entry's name matches the query at all;
/// otherwise it is the path of the entry with the maximal score that stands
/// earliest in the index order among the equally scored.
pub proof fn lemma_resolve_props(m: Seq<(Seq<u8>, Seq<u8>)>, q: Seq<u8>)
    ensures
        (spec_resolve(m, q) is None) <==> (forall|j: int|
            0 <= j < m.len() ==> skim_score(#[trigger] m[j].0, q) is None),
        spec_resolve(m, q) matches Some(p) ==> exists|i: int|
            {
                &&& 0 <= i < m.len()
                &&& #[trigger] m[i].1 == p
                &&& skim_score(m[i].0, q) is Some
                &&& forall|j: int|
                    0 <= j < m.len() && skim_score(#[trigger] m[j].0, q) is Some ==> skim_score(
                        m[j].0,
                        q,
                    ).unwrap() <= skim_score(m[i].0, q).unwrap()
                &&& forall|j: int|
                    0 <= j < i ==> skim_score(#[trigger] m[j].0, q) != skim_score(m[i].0, q)
            },
{
    lemma_best_props(m, q);
    if spec_resolve(m, q) is Some {
        let (i, sc) = spec_best(m, q).unwrap();
        assert(m[i].1 == spec_resolve(m, q).unwrap());
    }
}

/// Resolution is deterministic: any two results that `resolve`'s contract
/// admits for one index model and one query are the same, tie-break cases
/// included.
pub proof fn lemma_resolve_deterministic(
    m: Seq<(Seq<u8>, Seq<u8>)>,
    q: Seq<u8>,
    r1: Option<Seq<u8>>,
    r2: Option<Seq<u8>>,
)
    requires
        match r1 {
            None => spec_resolve(m, q) is None,
            Some(p) => spec_resolve(m, q) == Some(p),
        },
        match r2 {
            None => spec_resolve(m, q) is None,
            Some(p) => spec_resolve(m, q) == Some(p),
        },
    ensures
        r1 == r2,
{
}

/// Over an empty index no query resolves: there is no entry to score.
pub proof fn lemma_resolve_empty(q: Seq<u8>)
    ensures
        spec_resolve(Seq::<(Seq<u8>, Seq<u8>)>::empty(), q) is None,
{
}

} // verus!
