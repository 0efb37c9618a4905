//! Display prefixes for an ordered hierarchical list of key paths: each
//! row's prefix encodes its depth in the tree spanned by the structural
//! parent relation, assuming rows arrive pre-order (a parent precedes its
//! descendants, which are contiguous).

use vstd::prelude::*;
use vstd::slice::slice_index_get;
use vstd::string::StringExecFns;
use crate::usage::views_of;

verus! {

/// The structural parent relation on key paths: one component shorter,
/// and a component-wise prefix.
pub open spec fn is_parent(a: Seq<Seq<char>>, b: Seq<Seq<char>>) -> bool {
    a.len() + 1 == b.len() && a == b.take(a.len() as int)
}

/// The views of a list of key paths.
pub open spec fn paths_views(s: Seq<Vec<String>>) -> Seq<Seq<Seq<char>>> {
    Seq::new(s.len(), |i: int| views_of(s[i]@))
}

/// Index of the most recent row at or before `j` that is a parent of row
/// `i`; `-1` when there is none.
pub open spec fn parent_from(ps: Seq<Seq<Seq<char>>>, i: int, j: int) -> int
    decreases j + 1,
{
    if j < 0 {
        -1
    } else if is_parent(ps[j], ps[i]) {
        j
    } else {
        parent_from(ps, i, j - 1)
    }
}

pub proof fn lemma_parent_from_le(ps: Seq<Seq<Seq<char>>>, i: int, j: int)
    requires
        j >= -1,
    ensures
        parent_from(ps, i, j) <= j,
    decreases j + 1,
{
    if j >= 0 && !is_parent(ps[j], ps[i]) {
        lemma_parent_from_le(ps, i, j - 1);
    }
}

/// Depth of row `i`: the length of its chain of most-recent parents.
pub open spec fn depth_of(ps: Seq<Seq<Seq<char>>>, i: int) -> nat
    decreases i,
    via depth_of_decreases
{
    if i <= 0 {
        0
    } else {
        let p = parent_from(ps, i, i - 1);
        if p < 0 {
            0
        } else {
            depth_of(ps, p) + 1
        }
    }
}

#[via_fn]
proof fn depth_of_decreases(ps: Seq<Seq<Seq<char>>>, i: int) {
    if i > 0 {
        lemma_parent_from_le(ps, i, i - 1);
    }
}

/// The prefix drawn for a row at depth `d`: nothing at the root, else a
/// dash marker pushed right by two spaces per further level.
pub open spec fn prefix_chars(d: nat) -> Seq<char>
    decreases d,
{
    if d == 0 {
        Seq::empty()
    } else if d == 1 {
        seq!['-', ' ']
    } else {
        seq![' ', ' '] + prefix_chars((d - 1) as nat)
    }
}

/// A prefix is two characters per depth level, so a deeper row's prefix
/// strictly extends its parent's.
pub proof fn lemma_prefix_chars_len(d: nat)
    ensures
        prefix_chars(d).len() == 2 * d,
    decreases d,
{
    if d > 1 {
        lemma_prefix_chars_len((d - 1) as nat);
    }
}

/// The nesting structure can be read back from the prefixes alone: equal
/// prefixes mean equal depths.
pub proof fn lemma_prefix_chars_inj(d1: nat, d2: nat)
    requires
        prefix_chars(d1) == prefix_chars(d2),
    ensures
        d1 == d2,
{
    lemma_prefix_chars_len(d1);
    lemma_prefix_chars_len(d2);
}

/// Whether `a` is the structural parent of `b`.
fn is_parent_exec(a: &Vec<String>, b: &Vec<String>) -> (r: bool)
    ensures
        r == is_parent(views_of(a@), views_of(b@)),
{
    if b.len() == 0 || a.len() != b.len() - 1 {
        return false;
    }
    let mut i: usize = 0;
    while i < a.len()
        invariant
            i <= a.len(),
            a@.len() + 1 == b@.len(),
            forall|j: int| 0 <= j < i ==> views_of(a@)[j] == views_of(b@)[j],
        decreases a.len() - i,
    {
        let same = a[i] == b[i];
        if !same {
            proof {
                assert(views_of(a@)[i as int] != views_of(b@).take(a@.len() as int)[i as int]);
            }
            return false;
        }
        i = i + 1;
    }
    proof {
        assert(views_of(a@) =~= views_of(b@).take(a@.len() as int));
    }
    true
}

/// The prefix string for depth `d`.
fn prefix_exec(d: usize) -> (r: String)
    ensures
        r@ == prefix_chars(d as nat),
    decreases d,
{
    if d == 0 {
        let r = String::new();
        proof {
            assert(r@ =~= prefix_chars(0));
        }
        r
    } else if d == 1 {
        proof {
            reveal_strlit("- ");
        }
        let r = String::from_str("- ");
        proof {
            assert(r@ =~= prefix_chars(1));
        }
        r
    } else {
        proof {
            reveal_strlit("  ");
        }
        let mut r = String::from_str("  ");
        let rest = prefix_exec(d - 1);
        r.append(rest.as_str());
        proof {
            assert(r@ =~= prefix_chars(d as nat));
        }
        r
    }
}

/// One display prefix per row, encoding the depth given by the chain of
/// most-recent structural parents. The rows are expected pre-order, as
/// the aggregator emits them: a parent before its descendants, and the
/// descendants contiguous; for other orders the prefixes still follow
/// the chain of most recent preceding parents.
pub fn provide_prefix(paths: &[Vec<String>]) -> (out: Vec<String>)
    ensures
        out@.len() == paths@.len(),
        forall|i: int| 0 <= i < out@.len() ==> out@[i]@ == prefix_chars(
            depth_of(paths_views(paths@), i),
        ),
{
    let ghost pv = paths_views(paths@);
    let n = paths.len();
    let mut depths: Vec<usize> = Vec::new();
    let mut i: usize = 0;
    while i < n
        invariant
            i <= n,
            n == paths@.len(),
            pv == paths_views(paths@),
            depths@.len() == i,
            forall|k: int| 0 <= k < i ==> (#[trigger] depths@[k]) as nat == depth_of(pv, k)
                && depths@[k] <= k,
        decreases n - i,
    {
        let mut jj = i;
        let mut found = false;
        let mut d: usize = 0;
        while jj > 0 && !found
            invariant
                jj <= i < n,
                n == paths@.len(),
                pv == paths_views(paths@),
                depths@.len() == i,
                forall|k: int| 0 <= k < i ==> (#[trigger] depths@[k]) as nat == depth_of(pv, k)
                    && depths@[k] <= k,
                !found ==> parent_from(pv, i as int, i - 1) == parent_from(pv, i as int, jj - 1)
                    && d == 0,
                found ==> parent_from(pv, i as int, i - 1) >= 0 && d as nat == depth_of(
                    pv,
                    i as int,
                ) && d <= i,
            decreases jj,
        {
            let cand = jj - 1;
            let pa: &Vec<String> = slice_index_get(paths, cand);
            let pb: &Vec<String> = slice_index_get(paths, i);
            proof {
                assert(pv[cand as int] == views_of(paths@[cand as int]@));
                assert(pv[i as int] == views_of(paths@[i as int]@));
            }
            let p = is_parent_exec(pa, pb);
            if p {
                found = true;
                jj = cand;
                proof {
                    assert(depths@[cand as int] <= cand as int);
                }
                d = depths[cand] + 1;
                proof {
                    assert(parent_from(pv, i as int, cand as int) == cand);
                    assert(parent_from(pv, i as int, i - 1) == cand);
                    assert(depth_of(pv, i as int) == depth_of(pv, cand as int) + 1);
                }
            } else {
                jj = cand;
            }
        }
        if !found {
            proof {
                assert(parent_from(pv, i as int, i - 1) == -1);
                assert(depth_of(pv, i as int) == 0);
            }
        }
        depths.push(d);
        i = i + 1;
    }
    let mut out: Vec<String> = Vec::new();
    let mut t: usize = 0;
    while t < n
        invariant
            t <= n,
            n == paths@.len(),
            pv == paths_views(paths@),
            depths@.len() == n,
            forall|k: int| 0 <= k < n ==> depths@[k] as nat == depth_of(pv, k),
            out@.len() == t,
            forall|k: int| 0 <= k < t ==> out@[k]@ == prefix_chars(depth_of(pv, k)),
        decreases n - t,
    {
        let p = prefix_exec(depths[t]);
        out.push(p);
        t = t + 1;
    }
    out
}

} // verus!
