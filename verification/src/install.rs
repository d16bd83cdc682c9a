//! The one decision of shell-profile installation: append an integration
//! block to a profile exactly once, guarded by a marker line.
use vstd::prelude::*;

verus! {

/// The needle occurs in the haystack starting at position `i`.
pub open spec fn matches_at(h: Seq<u8>, n: Seq<u8>, i: int) -> bool {
    0 <= i && i + n.len() <= h.len() && h.subrange(i, i + n.len()) == n
}

/// The needle occurs somewhere in the haystack.
pub open spec fn contains_sub(h: Seq<u8>, n: Seq<u8>) -> bool {
    exists|i: int| matches_at(h, n, i)
}

/// Compare the needle against the haystack at one position.
fn matches_here(h: &Vec<u8>, n: &Vec<u8>, i: usize) -> (r: bool)
    requires
        i + n@.len() <= h@.len(),
    ensures
        r == matches_at(h@, n@, i as int),
{
    let m = n.len();
    let hl = h.len();
    let mut j: usize = 0;
    while j < m
        invariant
            m == n@.len(),
            hl == h@.len(),
            i + m <= hl,
            j <= m,
            forall|l: int| 0 <= l < j ==> h@[i + l] == n@[l],
        decreases m - j,
    {
        if h[i + j] != n[j] {
            proof {
                assert(h@.subrange(i as int, i as int + n@.len())[j as int] != n@[j as int]);
            }
            return false;
        }
        j += 1;
    }
    proof {
        assert(h@.subrange(i as int, i as int + n@.len()) =~= n@);
    }
    true
}

/// Search the haystack for the needle.
pub fn find_sub(h: &Vec<u8>, n: &Vec<u8>) -> (r: bool)
    ensures
        r == contains_sub(h@, n@),
{
    if n.len() > h.len() {
        proof {
            assert(forall|i: int| !matches_at(h@, n@, i));
        }
        return false;
    }
    if n.len() == 0 {
        proof {
            assert(h@.subrange(0, 0) =~= n@);
            assert(matches_at(h@, n@, 0));
        }
        return true;
    }
    let hl = h.len();
    let last = h.len() - n.len();
    let mut i: usize = 0;
    while i <= last
        invariant
            1 <= n@.len() <= h@.len(),
            hl == h@.len(),
            last == h@.len() - n@.len(),
            i <= last + 1,
            forall|k: int| 0 <= k < i ==> !matches_at(h@, n@, k),
        decreases last + 1 - i,
    {
        if matches_here(h, n, i) {
            proof {
                assert(contains_sub(h@, n@));
            }
            return true;
        }
        i += 1;
    }
    proof {
        assert(forall|k: int| k > last ==> !matches_at(h@, n@, k));
    }
    false
}

/// Decide the profile update: when the marker is absent, the new profile
/// contents — the old contents, a newline, the marker line, the block —
/// otherwise nothing, so a second installation never duplicates the block.
pub fn apply_integration(profile: &Vec<u8>, marker: &Vec<u8>, block: &Vec<u8>) -> (r: Option<
    Vec<u8>,
>)
    ensures
        match r {
            None => contains_sub(profile@, marker@),
            Some(out) => !contains_sub(profile@, marker@) && out@ == profile@ + seq![10u8]
                + marker@ + seq![10u8] + block@,
        },
{
    if find_sub(profile, marker) {
        return None;
    }
    let mut out = profile.clone();
    out.push(10);
    out.extend_from_slice(marker.as_slice());
    out.push(10);
    out.extend_from_slice(block.as_slice());
    proof {
        assert(out@ =~= profile@ + seq![10u8] + marker@ + seq![10u8] + block@);
    }
    Some(out)
}

} // verus!
