use vstd::prelude::*;
use crate::atom::SemanticAtom;
use crate::store::derefs;

verus! {

/// `a` ranks no later than `b`: higher confidence first, then earlier timestamp.
pub open spec fn ranks_no_later(a: SemanticAtom, b: SemanticAtom) -> bool {
    a.confidence > b.confidence || (a.confidence == b.confidence && a.timestamp <= b.timestamp)
}

/// Every atom ranks no later than those after it.
pub open spec fn rank_sorted(s: Seq<SemanticAtom>) -> bool {
    forall|i: int, j: int| 0 <= i < j < s.len() ==> ranks_no_later(s[i], s[j])
}

/// The length of the leading run of `s` that ranks no later than `x`.
pub open spec fn rank_prefix(s: Seq<SemanticAtom>, x: SemanticAtom) -> nat
    decreases s.len(),
{
    if s.len() == 0 {
        0
    } else if ranks_no_later(s[0], x) {
        1 + rank_prefix(s.drop_first(), x)
    } else {
        0
    }
}

/// `s` ranked by descending confidence, then ascending timestamp; atoms that tie
/// on both keep their order in `s`.
pub open spec fn ranked(s: Seq<SemanticAtom>) -> Seq<SemanticAtom>
    decreases s.len(),
{
    if s.len() == 0 {
        Seq::empty()
    } else {
        let r = ranked(s.drop_last());
        r.insert(rank_prefix(r, s.last()) as int, s.last())
    }
}

/// The run that ranks no later than `x` ends where the atoms turn later.
pub proof fn lemma_rank_prefix_exact(s: Seq<SemanticAtom>, x: SemanticAtom, p: int)
    requires
        0 <= p <= s.len(),
        forall|i: int| 0 <= i < p ==> ranks_no_later(s[i], x),
        forall|i: int| p <= i < s.len() ==> !ranks_no_later(s[i], x),
    ensures
        rank_prefix(s, x) == p,
    decreases s.len(),
{
    if s.len() > 0 && p > 0 {
        lemma_rank_prefix_exact(s.drop_first(), x, p - 1);
    }
}

/// In a sorted ranking the run no later than `x` is followed only by later atoms.
pub proof fn lemma_rank_prefix_sorted(s: Seq<SemanticAtom>, x: SemanticAtom)
    requires
        rank_sorted(s),
    ensures
        rank_prefix(s, x) <= s.len(),
        forall|i: int| 0 <= i < rank_prefix(s, x) ==> ranks_no_later(s[i], x),
        forall|i: int| rank_prefix(s, x) <= i < s.len() ==> !ranks_no_later(s[i], x),
    decreases s.len(),
{
    if s.len() > 0 && ranks_no_later(s[0], x) {
        let d = s.drop_first();
        assert(rank_sorted(d)) by {
            assert forall|i: int, j: int| 0 <= i < j < d.len() implies ranks_no_later(d[i], d[j]) by {
                assert(d[i] == s[i + 1] && d[j] == s[j + 1]);
            }
        }
        lemma_rank_prefix_sorted(d, x);
        assert forall|i: int| 0 <= i < rank_prefix(s, x) implies ranks_no_later(s[i], x) by {
            if i > 0 {
                assert(s[i] == d[i - 1]);
            }
        }
        assert forall|i: int| rank_prefix(s, x) <= i < s.len() implies !ranks_no_later(s[i], x) by {
            assert(s[i] == d[i - 1]);
        }
    } else if s.len() > 0 {
        assert forall|i: int| 0 <= i < s.len() implies !ranks_no_later(s[i], x) by {
            assert(ranks_no_later(s[0], s[i]));
        }
    }
}

/// A ranking is sorted and holds as many atoms as it was given.
pub proof fn lemma_ranked_sorted(s: Seq<SemanticAtom>)
    ensures
        rank_sorted(ranked(s)),
        ranked(s).len() == s.len(),
    decreases s.len(),
{
    if s.len() > 0 {
        let r = ranked(s.drop_last());
        let x = s.last();
        lemma_ranked_sorted(s.drop_last());
        lemma_rank_prefix_sorted(r, x);
        let p = rank_prefix(r, x) as int;
        let t = ranked(s);
        assert(t == r.insert(p, x));
        assert forall|i: int, j: int| 0 <= i < j < t.len() implies ranks_no_later(t[i], t[j]) by {
            if j < p {
                assert(t[i] == r[i] && t[j] == r[j]);
            } else if j == p {
                assert(t[i] == r[i]);
            } else if i > p {
                assert(t[i] == r[i - 1] && t[j] == r[j - 1]);
            } else if i == p {
                assert(t[j] == r[j - 1]);
            } else {
                assert(t[i] == r[i] && t[j] == r[j - 1]);
            }
        }
    }
}

/// A ranking holds the same atoms as its input, each as often.
pub proof fn lemma_ranked_permutes(s: Seq<SemanticAtom>)
    ensures
        ranked(s).to_multiset() =~= s.to_multiset(),
    decreases s.len(),
{
    if s.len() > 0 {
        let prev = s.drop_last();
        let x = s.last();
        lemma_ranked_permutes(prev);
        lemma_ranked_sorted(prev);
        let r = ranked(prev);
        lemma_rank_prefix_sorted(r, x);
        let p = rank_prefix(r, x) as int;
        let t = ranked(s);
        assert(t == r.insert(p, x));
        assert(t.remove(p) =~= r);
        t.to_multiset_ensures();
        prev.to_multiset_ensures();
        assert(prev.push(x) =~= s);
        assert(prev.push(x).to_multiset() =~= prev.to_multiset().insert(x));
        assert(t.to_multiset().count(x) > 0) by {
            assert(t[p] == x);
            assert(t.contains(x));
        }
        assert(t.to_multiset() =~= r.to_multiset().insert(x));
        assert(r.to_multiset() =~= prev.to_multiset());
        assert(s.to_multiset() =~= prev.to_multiset().insert(x));
        assert(t.to_multiset() =~= s.to_multiset());
    } else {
        assert(ranked(s) =~= s);
    }
}

/// Inserts `x` into a ranking of `s`, giving the ranking of `s.push(x)`.
pub fn insert_ranked<'a>(v: &mut Vec<&'a SemanticAtom>, x: &'a SemanticAtom, Ghost(s): Ghost<Seq<SemanticAtom>>)
    requires
        derefs(old(v)@) == ranked(s),
    ensures
        derefs(final(v)@) == ranked(s.push(*x)),
{
    proof {
        lemma_ranked_sorted(s);
        assert(s.push(*x).drop_last() == s);
    }
    let ghost r = ranked(s);
    let mut lo: usize = 0;
    let mut hi: usize = v.len();
    while lo < hi
        invariant
            derefs(v@) == r,
            rank_sorted(r),
            lo <= hi <= r.len(),
            v@.len() == r.len(),
            forall|i: int| 0 <= i < lo ==> ranks_no_later(r[i], *x),
            forall|i: int| hi <= i < r.len() ==> !ranks_no_later(r[i], *x),
        decreases hi - lo,
    {
        let mid = lo + (hi - lo) / 2;
        let m = v[mid];
        assert(*m == r[mid as int]);
        if m.confidence > x.confidence || (m.confidence == x.confidence && m.timestamp <= x.timestamp) {
            assert forall|i: int| 0 <= i <= mid implies ranks_no_later(r[i], *x) by {
                if i < mid {
                    assert(ranks_no_later(r[i], r[mid as int]));
                }
            }
            lo = mid + 1;
        } else {
            assert forall|i: int| mid <= i < r.len() implies !ranks_no_later(r[i], *x) by {
                if i > mid {
                    assert(ranks_no_later(r[mid as int], r[i]));
                }
            }
            hi = mid;
        }
    }
    proof {
        lemma_rank_prefix_exact(r, *x, lo as int);
    }
    let ghost before = v@;
    v.insert(lo, x);
    proof {
        let t = ranked(s.push(*x));
        assert(t == r.insert(lo as int, *x));
        assert forall|i: int| 0 <= i < t.len() implies derefs(v@)[i] == t[i] by {
            if i < lo {
                assert(v@[i] == before[i]);
            } else if i > lo {
                assert(v@[i] == before[i - 1]);
            }
        }
        assert(derefs(v@) =~= t);
    }
}

} // verus!
