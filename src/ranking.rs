//! The integer side of ranking: query term counts and ordering by count.
use vstd::prelude::*;
use crate::common::TermId;

verus! {

broadcast use vstd::seq_lib::to_multiset_build, vstd::seq_lib::to_multiset_insert;

/// How many times `t` occurs in `s`.
pub open spec fn count_in(s: Seq<TermId>, t: TermId) -> nat
    decreases s.len(),
{
    if s.len() == 0 {
        0
    } else {
        count_in(s.drop_last(), t) + if s.last() == t { 1nat } else { 0nat }
    }
}

/// Counts are in descending order.
pub open spec fn sorted_by_count_desc(s: Seq<(u32, u64)>) -> bool {
    forall|i: int, j: int| 0 <= i < j < s.len() ==> s[i].1 >= s[j].1
}

/// Merges two lists sorted by count, largest first, into one.
fn merge_desc(a: &Vec<(u32, u64)>, b: &Vec<(u32, u64)>) -> (r: Vec<(u32, u64)>)
    requires
        sorted_by_count_desc(a@),
        sorted_by_count_desc(b@),
    ensures
        sorted_by_count_desc(r@),
        r@.to_multiset() == a@.to_multiset().add(b@.to_multiset()),
        r@.len() == a@.len() + b@.len(),
{
    let mut r: Vec<(u32, u64)> = Vec::new();
    let mut i: usize = 0;
    let mut j: usize = 0;
    assert(a@.subrange(0, 0) =~= Seq::<(u32, u64)>::empty());
    assert(b@.subrange(0, 0) =~= Seq::<(u32, u64)>::empty());
    assert(r@ =~= Seq::<(u32, u64)>::empty());
    proof {
        let e = Seq::<(u32, u64)>::empty();
        vstd::seq_lib::lemma_multiset_commutative(e, e);
        assert(e + e =~= e);
    }
    while i < a.len() || j < b.len()
        invariant
            sorted_by_count_desc(a@),
            sorted_by_count_desc(b@),
            i <= a@.len(),
            j <= b@.len(),
            r@.len() == i + j,
            sorted_by_count_desc(r@),
            r@.to_multiset() == a@.subrange(0, i as int).to_multiset().add(b@.subrange(0, j as int).to_multiset()),
            r@.len() > 0 && i < a@.len() ==> r@.last().1 >= a@[i as int].1,
            r@.len() > 0 && j < b@.len() ==> r@.last().1 >= b@[j as int].1,
        decreases a@.len() + b@.len() - i - j,
    {
        let take_a = j >= b.len() || (i < a.len() && a[i].1 >= b[j].1);
        let ghost before = r@;
        if take_a {
            let x = a[i];
            r.push(x);
            assert(a@.subrange(0, i + 1) == a@.subrange(0, i as int).push(x));
            i = i + 1;
        } else {
            let x = b[j];
            r.push(x);
            assert(b@.subrange(0, j + 1) == b@.subrange(0, j as int).push(x));
            j = j + 1;
        }
        assert forall|p: int, q: int| 0 <= p < q < r@.len() implies r@[p].1 >= r@[q].1 by {
            if q == r@.len() - 1 && p < before.len() {
                assert(before[p].1 >= before.last().1 || p == before.len() - 1);
                assert(r@[p] == before[p]);
            } else if q < before.len() {
                assert(r@[p] == before[p] && r@[q] == before[q]);
            }
        }
    }
    assert(a@.subrange(0, i as int) == a@);
    assert(b@.subrange(0, j as int) == b@);
    r
}

/// The items of `v[lo..hi]`, sorted by count, largest first.
fn sort_range(v: &Vec<(u32, u64)>, lo: usize, hi: usize) -> (r: Vec<(u32, u64)>)
    requires
        lo <= hi <= v@.len(),
    ensures
        r@.to_multiset() == v@.subrange(lo as int, hi as int).to_multiset(),
        r@.len() == hi - lo,
        sorted_by_count_desc(r@),
    decreases hi - lo,
{
    if hi - lo <= 1 {
        let mut r: Vec<(u32, u64)> = Vec::new();
        if hi - lo == 1 {
            r.push(v[lo]);
        }
        assert(r@ =~= v@.subrange(lo as int, hi as int));
        return r;
    }
    let mid = lo + (hi - lo) / 2;
    let left = sort_range(v, lo, mid);
    let right = sort_range(v, mid, hi);
    proof {
        assert(v@.subrange(lo as int, hi as int) =~= v@.subrange(lo as int, mid as int) + v@.subrange(mid as int, hi as int));
        vstd::seq_lib::lemma_multiset_commutative(v@.subrange(lo as int, mid as int), v@.subrange(mid as int, hi as int));
    }
    merge_desc(&left, &right)
}

/// The items of `v`, reordered by count, largest first.
pub fn sort_by_count_desc(v: Vec<(u32, u64)>) -> (r: Vec<(u32, u64)>)
    ensures
        r@.to_multiset() == v@.to_multiset(),
        r@.len() == v@.len(),
        sorted_by_count_desc(r@),
{
    let r = sort_range(&v, 0, v.len());
    assert(v@.subrange(0, v@.len() as int) == v@);
    r
}

/// Each distinct term of `terms` with the number of times it occurs, in first-seen order.
pub fn query_term_frequencies(terms: &Vec<TermId>) -> (r: Vec<(TermId, u32)>)
    requires
        terms@.len() <= u32::MAX,
    ensures
        forall|i: int, j: int| 0 <= i < j < r@.len() ==> r@[i].0 != r@[j].0,
        forall|i: int| 0 <= i < r@.len() ==> #[trigger] r@[i].1 == count_in(terms@, r@[i].0) && r@[i].1 > 0,
        forall|t: TermId| #[trigger] terms@.contains(t) <==> exists|i: int| 0 <= i < r@.len() && r@[i].0 == t,
{
    let mut result: Vec<(TermId, u32)> = Vec::new();
    let mut i: usize = 0;
    while i < terms.len()
        invariant
            i <= terms@.len() <= u32::MAX,
            forall|a: int, b: int| 0 <= a < b < result@.len() ==> result@[a].0 != result@[b].0,
            forall|a: int| 0 <= a < result@.len() ==> #[trigger] result@[a].1 == count_in(terms@.subrange(0, i as int), result@[a].0) && result@[a].1 > 0,
            forall|t: TermId| #[trigger] terms@.subrange(0, i as int).contains(t) <==> exists|a: int| 0 <= a < result@.len() && result@[a].0 == t,
            forall|t: TermId| count_in(terms@.subrange(0, i as int), t) <= i,
        decreases terms@.len() - i,
    {
        let t = terms[i];
        let ghost prev = terms@.subrange(0, i as int);
        let ghost next = terms@.subrange(0, i + 1);
        assert(next.drop_last() == prev);
        assert(next.last() == t);
        let mut j: usize = 0;
        while j < result.len() && result[j].0 != t
            invariant
                j <= result@.len(),
                forall|a: int| 0 <= a < j ==> #[trigger] result@[a].0 != t,
            decreases result@.len() - j,
        {
            j = j + 1;
        }
        let ghost before = result@;
        if j < result.len() {
            let c = result[j].1;
            result.set(j, (t, c + 1));
        } else {
            result.push((t, 1));
            assert(!prev.contains(t));
            assert(count_in(prev, t) == 0) by {
                lemma_count_absent(prev, t);
            }
        }
        assert forall|x: TermId| count_in(next, x) <= i + 1 by {
            assert(count_in(next, x) == count_in(prev, x) + if next.last() == x { 1nat } else { 0nat });
        }
        assert forall|a: int| 0 <= a < result@.len() implies #[trigger] result@[a].1 == count_in(next, result@[a].0) && result@[a].1 > 0 by {
            if a < before.len() && a != j {
                assert(result@[a] == before[a]);
            }
        }
        assert forall|x: TermId| #[trigger] next.contains(x) <==> exists|a: int| 0 <= a < result@.len() && result@[a].0 == x by {
            if next.contains(x) {
                let k = choose|k: int| 0 <= k < next.len() && next[k] == x;
                if k < i {
                    assert(prev[k] == x);
                    assert(prev.contains(x));
                    let a = choose|a: int| 0 <= a < before.len() && before[a].0 == x;
                    assert(result@[a].0 == x);
                } else {
                    assert(result@[j as int].0 == x);
                }
            }
            if exists|a: int| 0 <= a < result@.len() && result@[a].0 == x {
                let a = choose|a: int| 0 <= a < result@.len() && result@[a].0 == x;
                if x != t {
                    assert(a < before.len() && result@[a] == before[a]);
                    assert(prev.contains(x));
                    let k = choose|k: int| 0 <= k < prev.len() && prev[k] == x;
                    assert(next[k] == x);
                } else {
                    assert(next[i as int] == x);
                }
            }
        }
        i = i + 1;
    }
    assert(terms@.subrange(0, i as int) == terms@);
    result
}

/// A term that a sequence does not hold is counted zero times.
pub proof fn lemma_count_absent(s: Seq<TermId>, t: TermId)
    requires
        !s.contains(t),
    ensures
        count_in(s, t) == 0,
    decreases s.len(),
{
    if s.len() > 0 {
        assert(!s.drop_last().contains(t)) by {
            if s.drop_last().contains(t) {
                let k = choose|k: int| 0 <= k < s.drop_last().len() && s.drop_last()[k] == t;
                assert(s[k] == t);
            }
        }
        assert(s.last() != t) by {
            assert(s[s.len() - 1] == s.last());
        }
        lemma_count_absent(s.drop_last(), t);
    }
}

} // verus!
