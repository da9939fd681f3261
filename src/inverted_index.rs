//! Positions of string terms within a single document.
use vstd::prelude::*;
use crate::common::{TermOffset, DOC_BEGIN, DOC_END};
use crate::dictionary::{names, Dictionary};
use crate::phrase::{all_phrase_in, all_valid, is_all_occurrences, is_next_occurrence, next_phrase_in, occurs_at, views};
use crate::positions::{is_next, is_prev, next_position, prev_position, valid_positions};

verus! {

/// The position list of each phrase term; a term that never occurs has none.
pub open spec fn phrase_lists(m: Map<Seq<char>, Seq<u32>>, phrase: Seq<Seq<char>>) -> Seq<Seq<u32>> {
    phrase.map_values(|t: Seq<char>| if m.contains_key(t) { m[t] } else { Seq::<u32>::empty() })
}

/// The text of each string.
pub open spec fn string_views(s: Seq<String>) -> Seq<Seq<char>> {
    s.map_values(|t: String| t@)
}

/// Positions of each term of one document, in ascending order.
pub struct InvertedIndex {
    dict: Dictionary,
    lists: Vec<Vec<TermOffset>>,
}

impl View for InvertedIndex {
    type V = Map<Seq<char>, Seq<u32>>;

    /// Each term that occurs, with its offsets in ascending order.
    closed spec fn view(&self) -> Map<Seq<char>, Seq<u32>> {
        Map::new(
            |t: Seq<char>| self.dict@.contains(t),
            |t: Seq<char>| self.lists@[self.dict@.index_of(t)]@,
        )
    }
}

impl InvertedIndex {
    /// Every list is a valid, non-empty position list, one per known term.
    pub closed spec fn wf(&self) -> bool {
        &&& self.dict.wf()
        &&& self.lists@.len() == self.dict@.len()
        &&& forall|i: int| 0 <= i < self.lists@.len() ==> valid_positions(#[trigger] self.lists@[i]@)
        &&& forall|i: int| 0 <= i < self.lists@.len() ==> #[trigger] self.lists@[i]@.len() > 0
    }

    /// The view's lists are valid and non-empty.
    pub proof fn lemma_view_valid(&self)
        requires
            self.wf(),
        ensures
            forall|t: Seq<char>| #[trigger] self@.contains_key(t) ==> valid_positions(self@[t]) && self@[t].len() > 0,
    {
        assert forall|t: Seq<char>| #[trigger] self@.contains_key(t) implies valid_positions(self@[t]) && self@[t].len() > 0 by {
            let i = self.dict@.index_of(t);
            assert(0 <= i < self.lists@.len());
        }
    }

    /// Position list of the term named `id`.
    proof fn lemma_list_of(&self, id: u32, t: Seq<char>)
        requires
            self.wf(),
            names(self.dict@, id, t),
        ensures
            self@.contains_key(t),
            self@[t] == self.lists@[id - 1]@,
    {
        self.dict.lemma_distinct();
        let i = self.dict@.index_of(t);
        assert(self.dict@[i] == t);
        crate::dictionary::lemma_distinct_index(self.dict@, i, id - 1);
    }

    /// An empty index.
    pub fn new() -> (r: Self)
        ensures
            r.wf(),
            r@ == Map::<Seq<char>, Seq<u32>>::empty(),
    {
        let r = InvertedIndex { dict: Dictionary::new(), lists: Vec::new() };
        assert(r@ =~= Map::<Seq<char>, Seq<u32>>::empty());
        r
    }

    /// Records that `term` occurs at `position`, which comes after its earlier offsets.
    pub fn insert(&mut self, term: String, position: TermOffset)
        requires
            old(self).wf(),
            position != DOC_BEGIN,
            position != DOC_END,
            old(self)@.contains_key(term@) ==> old(self)@[term@].last() < position,
            old(self)@.dom().len() < u32::MAX - 1,
        ensures
            final(self).wf(),
            final(self)@ == old(self)@.insert(
                term@,
                if old(self)@.contains_key(term@) { old(self)@[term@].push(position) } else { seq![position] },
            ),
    {
        proof {
            self.lemma_dom_len();
        }
        let ghost old_dict = self.dict@;
        let id = self.dict.add(term.as_str());
        let ghost new_dict = self.dict@;
        proof {
            self.dict.lemma_distinct();
        }
        let idx = (id - 1) as usize;
        if idx == self.lists.len() {
            let mut fresh: Vec<TermOffset> = Vec::new();
            fresh.push(position);
            self.lists.push(fresh);
        } else {
            proof {
                self.lemma_list_of(id, term@);
            }
            self.lists[idx].push(position);
        }
        assert(self.wf()) by {
            assert forall|i: int| 0 <= i < self.lists@.len() implies valid_positions(#[trigger] self.lists@[i]@) by {
                if i == idx && idx < old(self).lists@.len() {
                    assert(self.lists@[i]@ == old(self).lists@[i]@.push(position));
                }
            }
        }
        proof {
            self.lemma_list_of(id, term@);
        }
        assert(self@ =~= old(self)@.insert(
            term@,
            if old(self)@.contains_key(term@) { old(self)@[term@].push(position) } else { seq![position] },
        )) by {
            assert forall|t: Seq<char>| #[trigger] self@.contains_key(t) && t != term@ implies old(self)@.contains_key(t) && self@[t] == old(self)@[t] by {
                let j = new_dict.index_of(t);
                assert(new_dict[j] == t);
                assert(j != idx);
                assert(old_dict.contains(t));
                let oj = old_dict.index_of(t);
                assert(old_dict[oj] == t);
                assert(new_dict[oj] == t);
                crate::dictionary::lemma_distinct_index(new_dict, j, oj);
            }
            assert forall|t: Seq<char>| #[trigger] old(self)@.contains_key(t) implies self@.contains_key(t) by {
                let oj = old_dict.index_of(t);
                assert(new_dict[oj] == t);
            }
            if old(self)@.contains_key(term@) {
                old(self).lemma_list_of(id, term@);
            }
        }
    }

    /// Number of distinct terms is the dictionary's size.
    proof fn lemma_dom_len(&self)
        requires
            self.wf(),
        ensures
            self@.dom().len() == self.dict@.len(),
    {
        self.dict.lemma_distinct();
        crate::dictionary::lemma_distinct_set_len(self.dict@);
        assert(self@.dom() =~= self.dict@.to_set());
    }

    /// Position list of `t`, when it occurs.
    fn list_of(&self, t: &String) -> (r: Option<&Vec<TermOffset>>)
        requires
            self.wf(),
        ensures
            match r {
                Some(l) => self@.contains_key(t@) && l@ == self@[t@],
                None => !self@.contains_key(t@),
            },
    {
        match self.dict.get(t.as_str()) {
            Some(id) => {
                proof {
                    self.lemma_list_of(id, t@);
                }
                Some(&self.lists[(id - 1) as usize])
            },
            None => None,
        }
    }

    /// First offset of `t`.
    pub fn first(&self, t: &String) -> (r: Option<TermOffset>)
        requires
            self.wf(),
        ensures
            r == if self@.contains_key(t@) { Some(self@[t@][0]) } else { None::<u32> },
    {
        match self.list_of(t) {
            Some(l) => {
                proof {
                    self.lemma_view_valid();
                }
                Some(l[0])
            },
            None => None,
        }
    }

    /// Last offset of `t`.
    pub fn last(&self, t: &String) -> (r: Option<TermOffset>)
        requires
            self.wf(),
        ensures
            r == if self@.contains_key(t@) { Some(self@[t@].last()) } else { None::<u32> },
    {
        match self.list_of(t) {
            Some(l) => {
                proof {
                    self.lemma_view_valid();
                }
                Some(l[l.len() - 1])
            },
            None => None,
        }
    }

    /// Smallest offset of `t` above `pos`.
    pub fn next(&self, t: &String, pos: TermOffset) -> (r: Option<TermOffset>)
        requires
            self.wf(),
        ensures
            is_next(self.positions(t@), pos, r),
    {
        proof {
            self.lemma_view_valid();
        }
        match self.list_of(t) {
            Some(l) => next_position(l, pos),
            None => None,
        }
    }

    /// Largest offset of `t` below `pos`.
    pub fn prev(&self, t: &String, pos: TermOffset) -> (r: Option<TermOffset>)
        requires
            self.wf(),
        ensures
            is_prev(self.positions(t@), pos, r),
    {
        proof {
            self.lemma_view_valid();
        }
        match self.list_of(t) {
            Some(l) => prev_position(l, pos),
            None => None,
        }
    }

    /// Offsets of `t`, empty when it never occurs.
    pub open spec fn positions(&self, t: Seq<char>) -> Seq<u32> {
        if self@.contains_key(t) { self@[t] } else { Seq::empty() }
    }

    /// Number of offsets of `t`.
    pub fn len(&self, t: &String) -> (r: usize)
        requires
            self.wf(),
        ensures
            r == self.positions(t@).len(),
    {
        match self.list_of(t) {
            Some(l) => l.len(),
            None => 0,
        }
    }

    /// Position lists of the phrase's terms, or `None` when one of them never occurs.
    fn phrase_refs(&self, phrase: &Vec<String>) -> (r: Option<Vec<&Vec<TermOffset>>>)
        requires
            self.wf(),
        ensures
            all_valid(phrase_lists(self@, string_views(phrase@))),
            match r {
                Some(lists) => views(lists@) == phrase_lists(self@, string_views(phrase@)),
                None => exists|i: int| 0 <= i < phrase@.len() && !self@.contains_key(#[trigger] phrase@[i]@),
            },
    {
        proof {
            self.lemma_view_valid();
        }
        let ghost want = phrase_lists(self@, string_views(phrase@));
        assert(all_valid(want)) by {
            assert forall|i: int| 0 <= i < want.len() implies valid_positions(#[trigger] want[i]) by {
                let t = phrase@[i]@;
                if !self@.contains_key(t) {
                    assert(want[i] == Seq::<u32>::empty());
                }
            }
        }
        let mut lists: Vec<&Vec<TermOffset>> = Vec::new();
        let mut i: usize = 0;
        while i < phrase.len()
            invariant
                self.wf(),
                want == phrase_lists(self@, string_views(phrase@)),
                i <= phrase@.len(),
                lists@.len() == i,
                forall|t: int| 0 <= t < i ==> #[trigger] lists@[t]@ == want[t],
            decreases phrase@.len() - i,
        {
            match self.list_of(&phrase[i]) {
                Some(l) => {
                    lists.push(l);
                },
                None => {
                    return None;
                },
            }
            i = i + 1;
        }
        assert(views(lists@) =~= want);
        Some(lists)
    }

    /// First occurrence of `phrase` (two or more terms) starting after `position`.
    pub fn next_phrase(&self, phrase: &Vec<String>, position: TermOffset) -> (r: Option<(TermOffset, TermOffset)>)
        requires
            self.wf(),
        ensures
            phrase@.len() <= 1 ==> r is None,
            phrase@.len() > 1 ==> is_next_occurrence(phrase_lists(self@, string_views(phrase@)), position, r),
    {
        match self.phrase_refs(phrase) {
            Some(lists) => next_phrase_in(&lists, position),
            None => {
                proof {
                    let ls = phrase_lists(self@, string_views(phrase@));
                    let i = choose|i: int| 0 <= i < phrase@.len() && !self@.contains_key(#[trigger] phrase@[i]@);
                    assert(ls[i].len() == 0);
                    lemma_no_occurrence(ls);
                }
                None
            },
        }
    }

    /// Every occurrence of `phrase`, as (start, end) offsets in ascending order.
    pub fn all_phrase(&self, phrase: &Vec<String>) -> (r: Vec<(TermOffset, TermOffset)>)
        requires
            self.wf(),
        ensures
            is_all_occurrences(phrase_lists(self@, string_views(phrase@)), r@),
    {
        match self.phrase_refs(phrase) {
            Some(lists) => all_phrase_in(&lists),
            None => {
                proof {
                    let ls = phrase_lists(self@, string_views(phrase@));
                    let i = choose|i: int| 0 <= i < phrase@.len() && !self@.contains_key(#[trigger] phrase@[i]@);
                    assert(ls[i].len() == 0);
                    lemma_no_occurrence(ls);
                }
                Vec::new()
            },
        }
    }
}

/// A phrase with a term that has no offsets occurs nowhere.
pub proof fn lemma_no_occurrence(ls: Seq<Seq<u32>>)
    requires
        exists|i: int| 0 <= i < ls.len() && #[trigger] ls[i].len() == 0,
    ensures
        forall|u: u32| !#[trigger] occurs_at(ls, u),
{
    let i = choose|i: int| 0 <= i < ls.len() && #[trigger] ls[i].len() == 0;
    assert forall|u: u32| !#[trigger] occurs_at(ls, u) by {
        if occurs_at(ls, u) {
            assert(ls[i].contains((u + i) as u32));
        }
    }
}

} // verus!
