//! Phrase matching over the position lists of a phrase's terms, one list per
//! term in phrase order, all within one document.
use vstd::prelude::*;
use crate::common::{TermOffset, DOC_BEGIN, DOC_END};
use crate::positions::{next_position, prev_position, valid_positions};

verus! {

/// The contents of the position lists.
pub open spec fn views(lists: Seq<&Vec<TermOffset>>) -> Seq<Seq<u32>> {
    lists.map_values(|l: &Vec<TermOffset>| l@)
}

/// Every list is a valid position list.
pub open spec fn all_valid(ls: Seq<Seq<u32>>) -> bool {
    forall|i: int| 0 <= i < ls.len() ==> valid_positions(#[trigger] ls[i])
}

/// The phrase occurs starting at offset `u`: its `i`-th term stands at `u + i`.
pub open spec fn occurs_at(ls: Seq<Seq<u32>>, u: u32) -> bool {
    &&& 0 < ls.len()
    &&& u as int + ls.len() <= DOC_END as int
    &&& forall|i: int| 0 <= i < ls.len() ==> #[trigger] ls[i].contains((u + i) as u32)
}

/// `r` is the first occurrence starting after `pos`, as a (start, end) pair, or
/// `None` when there is none.
pub open spec fn is_next_occurrence(ls: Seq<Seq<u32>>, pos: u32, r: Option<(u32, u32)>) -> bool {
    match r {
        Some((s, e)) => {
            &&& occurs_at(ls, s)
            &&& e == s + ls.len() - 1
            &&& pos < s
            &&& forall|u: u32| #[trigger] occurs_at(ls, u) && pos < u ==> s <= u
        },
        None => forall|u: u32| #[trigger] occurs_at(ls, u) ==> u <= pos,
    }
}

/// `r` lists every occurrence of the phrase, as (start, end) pairs in ascending order.
pub open spec fn is_all_occurrences(ls: Seq<Seq<u32>>, r: Seq<(u32, u32)>) -> bool {
    &&& forall|i: int| 0 <= i < r.len() ==> occurs_at(ls, #[trigger] r[i].0)
    &&& forall|i: int| 0 <= i < r.len() ==> #[trigger] r[i].1 == r[i].0 + ls.len() - 1
    &&& forall|i: int, j: int| 0 <= i < j < r.len() ==> r[i].0 < r[j].0
    &&& forall|u: u32| #[trigger] occurs_at(ls, u) ==> exists|i: int| 0 <= i < r.len() && r[i].0 == u
}

/// First occurrence of a phrase of two or more terms that starts after `pos`.
/// A forward walk takes the next offset of each term in turn; a backward walk from
/// where it ended takes the previous offset of each earlier term. When the two
/// meet on a window of the phrase's length it is an occurrence; otherwise the
/// search goes on from where the backward walk ended.
pub fn next_phrase_in(lists: &Vec<&Vec<TermOffset>>, pos: TermOffset) -> (r: Option<(TermOffset, TermOffset)>)
    requires
        all_valid(views(lists@)),
    ensures
        lists@.len() <= 1 ==> r is None,
        lists@.len() > 1 ==> is_next_occurrence(views(lists@), pos, r),
{
    let k = lists.len();
    if k <= 1 {
        return None;
    }
    let ghost ls = views(lists@);
    if pos == DOC_END {
        return None;
    }
    let mut start = pos;
    loop
        invariant
            k == lists@.len() == ls.len(),
            k > 1,
            ls == views(lists@),
            all_valid(ls),
            pos <= start < DOC_END,
            forall|u: u32| #[trigger] occurs_at(ls, u) && pos < u ==> start < u,
        decreases DOC_END - start,
    {
        // Forward: each term's next offset after the previous term's.
        let mut end = start;
        let mut i: usize = 0;
        let ghost mut fwd: Seq<u32> = Seq::empty();
        while i < k
            invariant
                k == lists@.len() == ls.len(),
                ls == views(lists@),
                all_valid(ls),
                i <= k,
                fwd.len() == i,
                pos <= start < DOC_END,
                forall|u: u32| #[trigger] occurs_at(ls, u) && pos < u ==> start < u,
                i == 0 ==> end == start,
                i > 0 ==> end == fwd[i - 1],
                forall|t: int| 0 <= t < i ==> #[trigger] ls[t].contains(fwd[t]),
                forall|t: int| 0 <= t < i ==> start < #[trigger] fwd[t],
                forall|t: int, w: int| 0 <= t < w < i ==> fwd[t] < fwd[w],
                forall|u: u32| #[trigger] occurs_at(ls, u) && start < u ==> i == 0 || end as int <= u as int + i - 1,
            decreases k - i,
        {
            let ghost ii = i as int;
            assert(lists@[ii]@ == ls[ii]);
            assert(valid_positions(ls[ii]));
            let found = next_position(lists[i], end);
            match found {
                Some(p) => {
                    assert forall|u: u32| #[trigger] occurs_at(ls, u) && start < u implies p as int <= u as int + ii by {
                        assert(ls[ii].contains((u + ii) as u32));
                    }
                    end = p;
                    proof {
                        fwd = fwd.push(p);
                    }
                },
                None => {
                    assert forall|u: u32| #[trigger] occurs_at(ls, u) implies u <= pos by {
                        if pos < u {
                            assert(start < u);
                            let y = (u + ii) as u32;
                            assert(ls[ii].contains(y));
                            assert(lists@[ii]@.contains(y));
                            assert(y as int == u as int + ii);
                            assert(y <= end);
                        }
                    }
                    return None;
                },
            }
            i = i + 1;
        }
        // Backward: each earlier term's previous offset before the later term's.
        let mut s = end;
        let mut j: usize = k - 1;
        let ghost mut chain: Seq<u32> = seq![end];
        while j > 0
            invariant
                k == lists@.len() == ls.len(),
                ls == views(lists@),
                all_valid(ls),
                fwd.len() == k,
                j < k,
                end == fwd[k - 1],
                forall|t: int| 0 <= t < k ==> #[trigger] ls[t].contains(fwd[t]),
                forall|t: int| 0 <= t < k ==> start < #[trigger] fwd[t],
                forall|t: int, w: int| 0 <= t < w < k ==> fwd[t] < fwd[w],
                chain.len() == k - j,
                chain[0] == s,
                chain[chain.len() - 1] == end,
                forall|t: int| 0 <= t < chain.len() ==> #[trigger] ls[j + t].contains(chain[t]),
                forall|t: int| 0 <= t < chain.len() ==> fwd[j + t] <= #[trigger] chain[t],
                forall|t: int| 0 <= t < chain.len() ==> s + t <= #[trigger] chain[t],
                forall|t: int| 0 <= t < chain.len() ==> #[trigger] chain[t] + (chain.len() - 1 - t) <= end,
                forall|u: u32, t: int| #[trigger] occurs_at(ls, u) && start < u && 0 <= t < chain.len()
                    ==> #[trigger] chain[t] as int <= u as int + j + t,
            decreases j,
        {
            j = j - 1;
            assert(lists@[j as int]@ == ls[j as int]);
            assert(valid_positions(ls[j as int]));
            assert(ls[j as int].contains(fwd[j as int]));
            let found = prev_position(lists[j], s);
            match found {
                Some(p) => {
                    let ghost old_chain = chain;
                    proof {
                        chain = seq![p].add(old_chain);
                        assert(fwd[j as int] <= p);
                        assert forall|t: int| 0 <= t < chain.len() implies #[trigger] ls[j + t].contains(chain[t]) by {
                            if t > 0 {
                                assert(chain[t] == old_chain[t - 1]);
                                assert(ls[j + t] == ls[(j + 1) + (t - 1)]);
                            }
                        }
                        assert forall|t: int| 0 <= t < chain.len() implies fwd[j + t] <= #[trigger] chain[t] by {
                            if t > 0 {
                                assert(chain[t] == old_chain[t - 1]);
                            }
                        }
                        assert forall|t: int| 0 <= t < chain.len() implies p + t <= #[trigger] chain[t] by {
                            if t > 0 {
                                assert(chain[t] == old_chain[t - 1]);
                            }
                        }
                        assert forall|t: int| 0 <= t < chain.len() implies #[trigger] chain[t] + (chain.len() - 1 - t) <= end by {
                            if t > 0 {
                                assert(chain[t] == old_chain[t - 1]);
                            } else {
                                assert(old_chain[0] + (old_chain.len() - 1) <= end);
                            }
                        }
                        assert forall|u: u32, t: int| #[trigger] occurs_at(ls, u) && start < u && 0 <= t < chain.len()
                            implies #[trigger] chain[t] as int <= u as int + j + t by {
                            if t > 0 {
                                assert(chain[t] == old_chain[t - 1]);
                            } else {
                                assert(old_chain[0] as int <= u as int + (j + 1) + 0);
                            }
                        }
                    }
                    s = p;
                },
                None => {
                    assert(false);
                    return None;
                },
            }
        }
        assert(chain.len() == k);
        assert(ls[k - 1].contains(end)) by {
            assert(ls[0 + (k - 1)].contains(chain[k - 1]));
        }
        assert(valid_positions(ls[k - 1]));
        if s < end && end - s == (k - 1) as u32 {
            assert(occurs_at(ls, s)) by {
                assert forall|i: int| 0 <= i < ls.len() implies #[trigger] ls[i].contains((s + i) as u32) by {
                    assert(chain[i] == s + i);
                    assert(ls[0 + i].contains(chain[i]));
                }
            }
            return Some((s, end));
        }
        assert forall|u: u32| #[trigger] occurs_at(ls, u) && pos < u implies s < u by {
            assert(start < u);
            assert(chain[0] as int <= u as int + 0 + 0);
            if s == u {
                assert forall|t: int| 0 <= t < k implies #[trigger] chain[t] == s + t by {
                    assert(chain[t] as int <= u as int + 0 + t);
                }
                assert(chain[k - 1] == s + k - 1);
            }
        }
        start = s;
    }
}

/// Every occurrence of the phrase, as (start, end) pairs in ascending order. A
/// phrase of one term occurs at each of its offsets; an empty phrase nowhere.
pub fn all_phrase_in(lists: &Vec<&Vec<TermOffset>>) -> (r: Vec<(TermOffset, TermOffset)>)
    requires
        all_valid(views(lists@)),
    ensures
        is_all_occurrences(views(lists@), r@),
{
    let ghost ls = views(lists@);
    let mut result: Vec<(TermOffset, TermOffset)> = Vec::new();
    let k = lists.len();
    if k == 0 {
        return result;
    }
    if k == 1 {
        let only = lists[0];
        assert(only@ == ls[0]);
        let mut i: usize = 0;
        while i < only.len()
            invariant
                k == 1 == ls.len(),
                only@ == ls[0],
                all_valid(ls),
                i <= only@.len(),
                result@.len() == i,
                forall|t: int| 0 <= t < i ==> #[trigger] result@[t] == (only@[t], only@[t]),
            decreases only@.len() - i,
        {
            result.push((only[i], only[i]));
            i = i + 1;
        }
        assert forall|t: int| 0 <= t < result@.len() implies occurs_at(ls, #[trigger] result@[t].0) by {
            assert(valid_positions(ls[0]));
            assert(ls[0][t] == result@[t].0);
            assert(ls[0].contains((result@[t].0 + 0) as u32));
        }
        assert forall|u: u32| #[trigger] occurs_at(ls, u) implies exists|t: int| 0 <= t < result@.len() && result@[t].0 == u by {
            assert(ls[0].contains((u + 0) as u32));
            let t = choose|t: int| 0 <= t < ls[0].len() && ls[0][t] == u;
            assert(result@[t].0 == u);
        }
        return result;
    }
    let mut pos: TermOffset = DOC_BEGIN;
    assert forall|u: u32| #[trigger] occurs_at(ls, u) implies pos < u by {
        assert(ls[0].contains((u + 0) as u32));
        assert(valid_positions(ls[0]));
    }
    loop
        invariant
            ls == views(lists@),
            all_valid(ls),
            k == ls.len() > 1,
            pos < DOC_END,
            is_prefix_of_occurrences(ls, result@, pos),
        decreases DOC_END - pos,
    {
        match next_phrase_in(lists, pos) {
            Some(found) => {
                let ghost before = result@;
                result.push(found);
                assert forall|u: u32| #[trigger] occurs_at(ls, u) && u <= found.0
                    implies exists|i: int| 0 <= i < result@.len() && result@[i].0 == u by {
                    if u <= pos {
                        let i = choose|i: int| 0 <= i < before.len() && before[i].0 == u;
                        assert(result@[i] == before[i]);
                    } else {
                        assert(result@[before.len() as int] == found);
                    }
                }
                assert forall|i: int| 0 <= i < result@.len() implies occurs_at(ls, #[trigger] result@[i].0) by {
                    if i < before.len() {
                        assert(result@[i] == before[i]);
                    }
                }
                assert(occurs_at(ls, found.0));
                assert(found.0 as int + ls.len() <= DOC_END as int);
                pos = found.0;
            },
            None => {
                return result;
            },
        }
    }
}

/// `r` lists, in ascending order, exactly the occurrences that start at or before `pos`.
pub open spec fn is_prefix_of_occurrences(ls: Seq<Seq<u32>>, r: Seq<(u32, u32)>, pos: u32) -> bool {
    &&& forall|i: int| 0 <= i < r.len() ==> occurs_at(ls, #[trigger] r[i].0)
    &&& forall|i: int| 0 <= i < r.len() ==> #[trigger] r[i].1 == r[i].0 + ls.len() - 1
    &&& forall|i: int, j: int| 0 <= i < j < r.len() ==> r[i].0 < r[j].0
    &&& forall|i: int| 0 <= i < r.len() ==> #[trigger] r[i].0 <= pos
    &&& forall|u: u32| #[trigger] occurs_at(ls, u) && u <= pos ==> exists|i: int| 0 <= i < r.len() && r[i].0 == u
}

} // verus!
