//! The positional inverted index over a collection of documents.
use vstd::prelude::*;
use std::collections::HashMap;
use crate::common::{DocId, TermId, TermOffset, DOC_BEGIN, DOC_END};
use crate::positions::valid_positions;
use crate::phrase::occurs_at;
use crate::ranking::{sort_by_count_desc, sorted_by_count_desc};
use crate::dictionary::Dictionary;
use std::collections::HashSet;

verus! {

broadcast use vstd::std_specs::hash::group_hash_axioms;

/// The offsets (one-based) at which `t` stands in the token sequence `ids`.
pub open spec fn occurrences(ids: Seq<TermId>, t: TermId) -> Seq<TermOffset>
    decreases ids.len(),
{
    if ids.len() == 0 {
        Seq::empty()
    } else if ids.last() == t {
        occurrences(ids.drop_last(), t).push(ids.len() as u32)
    } else {
        occurrences(ids.drop_last(), t)
    }
}

/// Sum of the document lengths.
pub open spec fn sum_lengths(s: Seq<u32>) -> int
    decreases s.len(),
{
    if s.len() == 0 {
        0
    } else {
        sum_lengths(s.drop_last()) + s.last()
    }
}

/// The occurrences of one term within one document.
pub struct Posting {
    doc_id: DocId,
    term_frequency: u32,
    positions: Vec<TermOffset>,
}

impl Posting {
    /// The document this posting belongs to.
    pub closed spec fn doc(&self) -> DocId {
        self.doc_id
    }

    /// The recorded occurrence count.
    pub closed spec fn frequency(&self) -> u32 {
        self.term_frequency
    }

    /// The offsets, as recorded.
    pub closed spec fn offsets(&self) -> Seq<TermOffset> {
        self.positions@
    }

    /// A posting for `doc_id` with the given offsets.
    pub fn new(doc_id: DocId, positions: Vec<TermOffset>) -> (r: Self)
        requires
            positions@.len() <= u32::MAX,
        ensures
            r.doc() == doc_id,
            r.offsets() == positions@,
            r.frequency() == positions@.len(),
    {
        let term_frequency = positions.len() as u32;
        Posting { doc_id, term_frequency, positions }
    }

    /// The document this posting belongs to.
    pub fn get_doc_id(&self) -> (r: DocId)
        ensures
            r == self.doc(),
    {
        self.doc_id
    }

    /// The offsets of the term within the document.
    pub fn get_positions(&self) -> (r: &Vec<TermOffset>)
        ensures
            r@ == self.offsets(),
    {
        &self.positions
    }

    /// The number of occurrences.
    pub fn get_term_frequency(&self) -> (r: u32)
        ensures
            r == self.frequency(),
    {
        self.term_frequency
    }

    /// A copy of this posting.
    pub fn duplicate(&self) -> (r: Self)
        ensures
            r.doc() == self.doc(),
            r.frequency() == self.frequency(),
            r.offsets() == self.offsets(),
    {
        Posting { doc_id: self.doc_id, term_frequency: self.term_frequency, positions: self.positions.clone() }
    }
}

/// A postings list is well formed against the document lengths `lens`.
pub open spec fn postings_wf(pl: Seq<Posting>, lens: Seq<u32>) -> bool {
    &&& pl.len() > 0
    &&& forall|i: int, j: int| 0 <= i < j < pl.len() ==> pl[i].doc() < pl[j].doc()
    &&& forall|i: int| 0 <= i < pl.len() ==> posting_wf(#[trigger] pl[i], lens)
}

/// One posting is well formed: a known document, a non-empty ascending list of
/// offsets within the document, and a frequency that counts them.
pub open spec fn posting_wf(p: Posting, lens: Seq<u32>) -> bool {
    &&& 1 <= p.doc() <= lens.len()
    &&& p.frequency() == p.offsets().len()
    &&& p.offsets().len() > 0
    &&& valid_positions(p.offsets())
    &&& forall|k: int| 0 <= k < p.offsets().len() ==> #[trigger] p.offsets()[k] <= lens[p.doc() - 1]
}

/// Offsets recorded for document `d` in a postings list; empty when it has none.
pub open spec fn positions_in(pl: Seq<Posting>, d: DocId) -> Seq<TermOffset> {
    if exists|i: int| 0 <= i < pl.len() && #[trigger] pl[i].doc() == d {
        pl[choose|i: int| 0 <= i < pl.len() && #[trigger] pl[i].doc() == d].offsets()
    } else {
        Seq::empty()
    }
}

/// In a postings list with ascending documents, the posting at `i` holds `d`'s offsets.
pub proof fn lemma_positions_at(pl: Seq<Posting>, i: int, d: DocId)
    requires
        forall|a: int, b: int| 0 <= a < b < pl.len() ==> pl[a].doc() < pl[b].doc(),
        0 <= i < pl.len(),
        pl[i].doc() == d,
    ensures
        positions_in(pl, d) == pl[i].offsets(),
{
    let j = choose|j: int| 0 <= j < pl.len() && #[trigger] pl[j].doc() == d;
    if j < i {
        assert(pl[j].doc() < pl[i].doc());
    } else if i < j {
        assert(pl[i].doc() < pl[j].doc());
    }
}

/// A positional inverted index: for each term, the documents that hold it in
/// ascending order, each with the ascending offsets of the term.
pub struct PositionList {
    postings_lists: HashMap<TermId, Vec<Posting>>,
    document_length: Vec<u32>,
    total_document_length: u64,
    doc_terms: Vec<Vec<TermId>>,
    term_order: Vec<TermId>,
}

impl PositionList {
    /// Length of each document, document `d` at index `d - 1`.
    pub closed spec fn lengths(&self) -> Seq<u32> {
        self.document_length@
    }

    /// Postings list of each term that occurs.
    pub closed spec fn postings(&self) -> Map<TermId, Seq<Posting>> {
        self.postings_lists@.map_values(|pl: Vec<Posting>| pl@)
    }

    /// The terms that occur, in the order they first occurred.
    pub closed spec fn terms(&self) -> Seq<TermId> {
        self.term_order@
    }

    /// Offsets of term `t` in document `d`, in ascending order; empty when it does not occur there.
    pub open spec fn positions_of(&self, t: TermId, d: DocId) -> Seq<TermOffset> {
        if self.postings().contains_key(t) {
            positions_in(self.postings()[t], d)
        } else {
            Seq::empty()
        }
    }

    /// The stored total of the document lengths.
    pub closed spec fn total_length(&self) -> u64 {
        self.total_document_length
    }

    /// Number of documents.
    pub open spec fn document_count(&self) -> nat {
        self.lengths().len()
    }

    /// Number of documents that hold `t`.
    pub open spec fn document_frequency(&self, t: TermId) -> nat {
        if self.postings().contains_key(t) {
            self.postings()[t].len()
        } else {
            0
        }
    }

    /// The stored aggregate counts agree with the lengths and postings.
    pub closed spec fn wf(&self) -> bool {
        let lens = self.document_length@;
        &&& lens.len() < u32::MAX - 1
        &&& self.total_document_length == sum_lengths(lens)
        &&& self.doc_terms@.len() == lens.len()
        &&& forall|t: TermId| #[trigger] self.postings_lists@.contains_key(t) ==> postings_wf(self.postings_lists@[t]@, lens)
        &&& self.term_order@.no_duplicates()
        &&& forall|t: TermId| #[trigger] self.term_order@.contains(t) <==> self.postings_lists@.contains_key(t)
        &&& forall|d: int| 0 <= d < lens.len() ==> (#[trigger] self.doc_terms@[d])@.no_duplicates()
        &&& forall|d: int, t: TermId| 0 <= d < lens.len() ==> (#[trigger] self.doc_terms@[d]@.contains(t)
            <==> self.positions_of(t, (d + 1) as u32).len() > 0)
    }

    /// An empty index.
    pub fn new() -> (r: Self)
        ensures
            r.wf(),
            r.lengths() == Seq::<u32>::empty(),
            r.postings() == Map::<TermId, Seq<Posting>>::empty(),
            r.terms() == Seq::<TermId>::empty(),
    {
        let r = PositionList {
            postings_lists: HashMap::new(),
            document_length: Vec::new(),
            total_document_length: 0,
            doc_terms: Vec::new(),
            term_order: Vec::new(),
        };
        assert(r.postings() =~= Map::<TermId, Seq<Posting>>::empty());
        r
    }
}


/// Each offset in `occurrences(ids, t)` is within `1..=ids.len()`, and they ascend.
pub proof fn lemma_occurrences_props(ids: Seq<TermId>, t: TermId)
    requires
        ids.len() < u32::MAX,
    ensures
        occurrences(ids, t).len() <= ids.len(),
        crate::positions::strictly_increasing(occurrences(ids, t)),
        forall|k: int| 0 <= k < occurrences(ids, t).len() ==> 1 <= #[trigger] occurrences(ids, t)[k] <= ids.len(),
    decreases ids.len(),
{
    if ids.len() > 0 {
        let prev = ids.drop_last();
        lemma_occurrences_props(prev, t);
        let o = occurrences(ids, t);
        let po = occurrences(prev, t);
        if ids.last() == t {
            assert(o == po.push(ids.len() as u32));
            assert forall|k: int| 0 <= k < o.len() implies 1 <= #[trigger] o[k] <= ids.len() by {
                if k < po.len() {
                    assert(o[k] == po[k]);
                }
            }
            assert forall|a: int, b: int| 0 <= a < b < o.len() implies o[a] < o[b] by {
                assert(o[a] == po[a]);
                if b < po.len() {
                    assert(o[b] == po[b]);
                }
            }
        } else {
            assert(o == po);
        }
    }
}

/// The lengths sum to at most their number times the largest `u32`.
pub proof fn lemma_sum_bound(s: Seq<u32>)
    ensures
        0 <= sum_lengths(s) <= s.len() * 0xffff_ffff,
    decreases s.len(),
{
    if s.len() > 0 {
        lemma_sum_bound(s.drop_last());
    }
}

impl PositionList {
    /// Records that term `t` occurs at offset `off` of the latest document `d`.
    fn record(&mut self, t: TermId, d: DocId, off: TermOffset)
        requires
            old(self).wf(),
            1 <= d == old(self).document_count(),
            1 <= off < DOC_END,
            off <= old(self).lengths()[d - 1],
            old(self).positions_of(t, d).len() < off,
            forall|k: int| 0 <= k < old(self).positions_of(t, d).len() ==> #[trigger] old(self).positions_of(t, d)[k] < off,
        ensures
            final(self).wf(),
            final(self).lengths() == old(self).lengths(),
            final(self).positions_of(t, d) == old(self).positions_of(t, d).push(off),
            forall|x: TermId, e: DocId| !(x == t && e == d) ==> #[trigger] final(self).positions_of(x, e) == old(self).positions_of(x, e),
    {
        let ghost lens = self.document_length@;
        let ghost old_map = self.postings_lists@;
        let mut ps: Vec<TermOffset> = Vec::new();
        ps.push(off);
        let fresh = Posting { doc_id: d, term_frequency: 1, positions: ps };
        assert(fresh.offsets() =~= seq![off]);
        assert(fresh.offsets()[0] <= lens[d - 1]);
        assert(valid_positions(fresh.offsets()));
        assert(posting_wf(fresh, lens));
        let removed = self.postings_lists.remove(&t);
        match removed {
            None => {
                let mut pl: Vec<Posting> = Vec::new();
                pl.push(fresh);
                proof {
                    lemma_positions_at(pl@, 0, d);
                }
                self.postings_lists.insert(t, pl);
                self.term_order.push(t);
                self.doc_terms[(d - 1) as usize].push(t);
            },
            Some(mut pl) => {
                let ghost old_pl = pl@;
                assert(postings_wf(old_pl, lens));
                let last_idx = pl.len() - 1;
                if pl[last_idx].doc_id == d {
                    proof {
                        lemma_positions_at(old_pl, last_idx as int, d);
                    }
                    let mut p = pl.pop().unwrap();
                    p.term_frequency = p.term_frequency + 1;
                    p.positions.push(off);
                    pl.push(p);
                    proof {
                        assert forall|i: int| 0 <= i < pl@.len() implies posting_wf(#[trigger] pl@[i], lens) by {
                            if i < last_idx {
                                assert(pl@[i] == old_pl[i]);
                            }
                        }
                        lemma_positions_at(pl@, last_idx as int, d);
                        assert forall|e: DocId| e != d implies positions_in(pl@, e) == positions_in(old_pl, e) by {
                            if exists|i: int| 0 <= i < old_pl.len() && #[trigger] old_pl[i].doc() == e {
                                let i = choose|i: int| 0 <= i < old_pl.len() && #[trigger] old_pl[i].doc() == e;
                                assert(i < last_idx);
                                assert(pl@[i] == old_pl[i]);
                                lemma_positions_at(old_pl, i, e);
                                lemma_positions_at(pl@, i, e);
                            } else {
                                assert forall|i: int| 0 <= i < pl@.len() implies #[trigger] pl@[i].doc() != e by {
                                    if i < last_idx {
                                        assert(pl@[i] == old_pl[i]);
                                    }
                                }
                            }
                        }
                    }
                } else {
                    proof {
                        assert(old_pl[last_idx as int].doc() < d);
                        assert forall|i: int| 0 <= i < old_pl.len() implies #[trigger] old_pl[i].doc() != d by {
                            if i < last_idx {
                                assert(old_pl[i].doc() < old_pl[last_idx as int].doc());
                            }
                        }
                    }
                    pl.push(fresh);
                    proof {
                        assert forall|i: int| 0 <= i < pl@.len() implies posting_wf(#[trigger] pl@[i], lens) by {
                            if i < last_idx + 1 {
                                assert(pl@[i] == old_pl[i]);
                            }
                        }
                        lemma_positions_at(pl@, last_idx + 1, d);
                        assert forall|e: DocId| e != d implies positions_in(pl@, e) == positions_in(old_pl, e) by {
                            if exists|i: int| 0 <= i < old_pl.len() && #[trigger] old_pl[i].doc() == e {
                                let i = choose|i: int| 0 <= i < old_pl.len() && #[trigger] old_pl[i].doc() == e;
                                assert(pl@[i] == old_pl[i]);
                                lemma_positions_at(old_pl, i, e);
                                lemma_positions_at(pl@, i, e);
                            } else {
                                assert forall|i: int| 0 <= i < pl@.len() implies #[trigger] pl@[i].doc() != e by {
                                    if i < last_idx + 1 {
                                        assert(pl@[i] == old_pl[i]);
                                    }
                                }
                            }
                        }
                    }
                    self.doc_terms[(d - 1) as usize].push(t);
                }
                self.postings_lists.insert(t, pl);
            },
        }
        proof {
            assert forall|x: TermId, e: DocId| !(x == t && e == d) implies #[trigger] self.positions_of(x, e) == old(self).positions_of(x, e) by {
                if x != t {
                    assert(self.postings_lists@[x] == old_map[x]);
                }
            }
            assert(self.positions_of(t, d) =~= old(self).positions_of(t, d).push(off));
            let new_dt = self.doc_terms@[d - 1]@;
            let old_dt = old(self).doc_terms@[d - 1]@;
            assert forall|x: TermId| #[trigger] new_dt.contains(x) <==> self.positions_of(x, d).len() > 0 by {
                if x != t {
                    if new_dt.contains(x) {
                        let k = choose|k: int| 0 <= k < new_dt.len() && new_dt[k] == x;
                        assert(k < old_dt.len());
                        assert(old_dt[k] == x);
                    }
                    if old_dt.contains(x) {
                        let k = choose|k: int| 0 <= k < old_dt.len() && old_dt[k] == x;
                        assert(new_dt[k] == x);
                    }
                } else if old_dt.contains(t) {
                    let k = choose|k: int| 0 <= k < old_dt.len() && old_dt[k] == t;
                    assert(new_dt[k] == t);
                } else {
                    assert(new_dt.last() == t);
                }
            }
            assert forall|e: int, x: TermId| 0 <= e < lens.len() implies (#[trigger] self.doc_terms@[e]@.contains(x)
                <==> self.positions_of(x, (e + 1) as u32).len() > 0) by {
                if e != d - 1 {
                    assert(self.doc_terms@[e] == old(self).doc_terms@[e]);
                }
            }
            assert forall|e: int| 0 <= e < lens.len() implies (#[trigger] self.doc_terms@[e])@.no_duplicates() by {
                if e == d - 1 && new_dt != old_dt {
                    assert(!old_dt.contains(t));
                    assert(new_dt == old_dt.push(t));
                    assert forall|a: int, b: int| 0 <= a < b < new_dt.len() implies new_dt[a] != new_dt[b] by {
                        if b == new_dt.len() - 1 {
                            assert(old_dt[a] == new_dt[a]);
                        }
                    }
                }
            }
            let old_order = old(self).term_order@;
            if old_map.contains_key(t) {
                assert(self.term_order@ == old_order);
                assert(self.postings_lists@.dom() =~= old_map.dom());
            } else {
                assert(self.term_order@ == old_order.push(t));
                assert(!old_order.contains(t));
                assert forall|x: TermId| #[trigger] self.term_order@.contains(x) <==> self.postings_lists@.contains_key(x) by {
                    if x != t && self.term_order@.contains(x) {
                        let k = choose|k: int| 0 <= k < self.term_order@.len() && self.term_order@[k] == x;
                        assert(old_order[k] == x);
                    }
                    if old_order.contains(x) {
                        let k = choose|k: int| 0 <= k < old_order.len() && old_order[k] == x;
                        assert(self.term_order@[k] == x);
                    }
                    if x == t {
                        assert(self.term_order@[old_order.len() as int] == t);
                    }
                }
                assert forall|a: int, b: int| 0 <= a < b < self.term_order@.len() implies self.term_order@[a] != self.term_order@[b] by {
                    if b == self.term_order@.len() - 1 {
                        assert(old_order[a] == self.term_order@[a]);
                    } else {
                        assert(old_order[a] == self.term_order@[a]);
                        assert(old_order[b] == self.term_order@[b]);
                    }
                }
            }
        }
    }

    /// Adds a document, given as the identifiers of its tokens in order, and returns
    /// its identifier: one more than the number of documents before.
    pub fn add_document(&mut self, term_ids: &Vec<TermId>) -> (d: DocId)
        requires
            old(self).wf(),
            old(self).document_count() < u32::MAX - 2,
            term_ids@.len() < u32::MAX,
        ensures
            final(self).wf(),
            d == old(self).document_count() + 1,
            final(self).lengths() == old(self).lengths().push(term_ids@.len() as u32),
            forall|t: TermId, e: DocId| e != d ==> #[trigger] final(self).positions_of(t, e) == old(self).positions_of(t, e),
            forall|t: TermId| #[trigger] final(self).positions_of(t, d) == occurrences(term_ids@, t),
    {
        let len = term_ids.len();
        let d = (self.document_length.len() + 1) as DocId;
        proof {
            lemma_sum_bound(self.document_length@);
            assert(sum_lengths(self.document_length@) + len <= 0xffff_ffff_ffff_ffff) by (nonlinear_arith)
                requires
                    sum_lengths(self.document_length@) <= self.document_length@.len() * 0xffff_ffff,
                    self.document_length@.len() < 0xffff_fffd,
                    len < 0xffff_ffff;
        }
        let ghost old_lens = self.document_length@;
        self.document_length.push(len as u32);
        self.total_document_length = self.total_document_length + len as u64;
        self.doc_terms.push(Vec::new());
        proof {
            let lens = self.document_length@;
            assert(lens.drop_last() == old_lens);
            assert forall|t: TermId| #[trigger] self.postings_lists@.contains_key(t) implies postings_wf(self.postings_lists@[t]@, lens) by {
                let pl = self.postings_lists@[t]@;
                assert(postings_wf(pl, old_lens));
                assert forall|i: int| 0 <= i < pl.len() implies posting_wf(#[trigger] pl[i], lens) by {
                    assert(posting_wf(pl[i], old_lens));
                    assert(lens[pl[i].doc() - 1] == old_lens[pl[i].doc() - 1]);
                }
            }
            assert forall|t: TermId| self.postings_lists@.contains_key(t) implies #[trigger] positions_in(self.postings_lists@[t]@, d) == Seq::<u32>::empty() by {
                let pl = self.postings_lists@[t]@;
                assert(postings_wf(pl, old_lens));
                assert forall|i: int| 0 <= i < pl.len() implies #[trigger] pl[i].doc() != d by {
                    assert(posting_wf(pl[i], old_lens));
                }
            }
            assert forall|e: int| 0 <= e < lens.len() implies (#[trigger] self.doc_terms@[e])@.no_duplicates() by {
                if e < old_lens.len() {
                    assert(self.doc_terms@[e] == old(self).doc_terms@[e]);
                }
            }
            assert forall|e: int, x: TermId| 0 <= e < lens.len() implies (#[trigger] self.doc_terms@[e]@.contains(x)
                <==> self.positions_of(x, (e + 1) as u32).len() > 0) by {
                if e < old_lens.len() {
                    assert(self.doc_terms@[e] == old(self).doc_terms@[e]);
                } else {
                    assert(self.doc_terms@[e]@ == Seq::<TermId>::empty());
                }
            }
        }
        let mut i: usize = 0;
        while i < len
            invariant
                self.wf(),
                len == term_ids@.len(),
                len < u32::MAX,
                i <= len,
                d == old(self).document_count() + 1,
                self.lengths() == old(self).lengths().push(len as u32),
                forall|t: TermId, e: DocId| e != d ==> #[trigger] self.positions_of(t, e) == old(self).positions_of(t, e),
                forall|t: TermId| #[trigger] self.positions_of(t, d) == occurrences(term_ids@.subrange(0, i as int), t),
            decreases len - i,
        {
            let t = term_ids[i];
            let off = (i + 1) as TermOffset;
            proof {
                lemma_occurrences_props(term_ids@.subrange(0, i as int), t);
            }
            let ghost before = *self;
            self.record(t, d, off);
            proof {
                let next = term_ids@.subrange(0, i + 1);
                assert(next.drop_last() == term_ids@.subrange(0, i as int));
                assert forall|x: TermId| #[trigger] self.positions_of(x, d) == occurrences(next, x) by {
                    if x != t {
                        assert(self.positions_of(x, d) == before.positions_of(x, d));
                    }
                }
                assert forall|x: TermId, e: DocId| e != d implies #[trigger] self.positions_of(x, e) == old(self).positions_of(x, e) by {
                    assert(self.positions_of(x, e) == before.positions_of(x, e));
                }
            }
            i = i + 1;
        }
        assert(term_ids@.subrange(0, len as int) == term_ids@);
        d
    }
}


/// The offsets of each phrase term in document `d`.
pub open spec fn doc_phrase_lists(idx: PositionList, d: DocId, phrase: Seq<TermId>) -> Seq<Seq<u32>> {
    phrase.map_values(|t: TermId| idx.positions_of(t, d))
}

/// In a list of strictly ascending document identifiers starting at 1 or more,
/// the `i`-th is at least `i + 1`.
pub proof fn lemma_doc_ids_grow(pl: Seq<Posting>, lens: Seq<u32>)
    requires
        postings_wf(pl, lens),
    ensures
        forall|i: int| 0 <= i < pl.len() ==> #[trigger] pl[i].doc() >= i + 1,
        pl.len() <= lens.len(),
    decreases pl.len(),
{
    if pl.len() > 1 {
        let prev = pl.drop_last();
        assert forall|i: int| 0 <= i < prev.len() implies posting_wf(#[trigger] prev[i], lens) by {
            assert(prev[i] == pl[i]);
        }
        lemma_doc_ids_grow(prev, lens);
        assert forall|i: int| 0 <= i < pl.len() implies #[trigger] pl[i].doc() >= i + 1 by {
            if i < pl.len() - 1 {
                assert(pl[i] == prev[i]);
            } else {
                assert(pl[i - 1] == prev[i - 1]);
                assert(pl[i - 1].doc() < pl[i].doc());
            }
        }
    } else {
        assert(posting_wf(pl[0], lens));
    }
    assert(posting_wf(pl[pl.len() - 1], lens));
}

impl PositionList {
    /// Each (term, document) offset list is valid, within the document, and
    /// non-empty only for a known document.
    pub proof fn lemma_positions_wf(&self, t: TermId, d: DocId)
        requires
            self.wf(),
        ensures
            valid_positions(self.positions_of(t, d)),
            self.positions_of(t, d).len() > 0 ==> 1 <= d <= self.document_count(),
            self.positions_of(t, d).len() > 0 ==> self.postings().contains_key(t),
            forall|k: int| 0 <= k < self.positions_of(t, d).len() ==> #[trigger] self.positions_of(t, d)[k] <= self.lengths()[d - 1],
    {
        if self.postings().contains_key(t) {
            let pl = self.postings()[t];
            assert(postings_wf(self.postings_lists@[t]@, self.document_length@));
            if exists|i: int| 0 <= i < pl.len() && #[trigger] pl[i].doc() == d {
                let i = choose|i: int| 0 <= i < pl.len() && #[trigger] pl[i].doc() == d;
                lemma_positions_at(pl, i, d);
                assert(posting_wf(pl[i], self.lengths()));
            }
        }
    }

    /// The document frequency of a term fits the document count.
    pub proof fn lemma_frequency_bound(&self, t: TermId)
        requires
            self.wf(),
        ensures
            self.document_frequency(t) <= self.document_count(),
    {
        if self.postings().contains_key(t) {
            lemma_doc_ids_grow(self.postings_lists@[t]@, self.document_length@);
        }
    }

    /// The posting of term `t` in document `d`, found by bisection over the documents.
    fn find_posting(&self, t: TermId, d: DocId) -> (r: Option<&Posting>)
        requires
            self.wf(),
        ensures
            match r {
                Some(p) => p.doc() == d && p.offsets() == self.positions_of(t, d) && p.offsets().len() > 0
                    && p.frequency() == p.offsets().len(),
                None => self.positions_of(t, d).len() == 0,
            },
    {
        match self.postings_lists.get(&t) {
            None => None,
            Some(pl) => {
                let ghost lens = self.document_length@;
                assert(postings_wf(pl@, lens));
                assert(self.postings().contains_key(t));
                assert(self.postings()[t] == pl@);
                let n = pl.len();
                let mut low: usize = 0;
                let mut high: usize = n;
                while low < high
                    invariant
                        self.postings().contains_key(t),
                        pl@ == self.postings()[t],
                        postings_wf(pl@, lens),
                        n == pl@.len(),
                        low <= high <= n,
                        forall|i: int| 0 <= i < low ==> #[trigger] pl@[i].doc() < d,
                        forall|i: int| high <= i < n ==> #[trigger] pl@[i].doc() > d,
                    decreases high - low,
                {
                    let mid = low + (high - low) / 2;
                    let m = pl[mid].doc_id;
                    if m == d {
                        proof {
                            lemma_positions_at(pl@, mid as int, d);
                            assert(posting_wf(pl@[mid as int], lens));
                        }
                        return Some(&pl[mid]);
                    } else if m < d {
                        assert forall|i: int| 0 <= i < mid + 1 implies #[trigger] pl@[i].doc() < d by {
                            if i < mid {
                                assert(pl@[i].doc() < pl@[mid as int].doc());
                            }
                        }
                        low = mid + 1;
                    } else {
                        assert forall|i: int| mid <= i < n implies #[trigger] pl@[i].doc() > d by {
                            if i > mid {
                                assert(pl@[mid as int].doc() < pl@[i].doc());
                            }
                        }
                        high = mid;
                    }
                }
                None
            },
        }
    }

    /// Offsets of `term` in `doc`, when it occurs there.
    pub fn get_positions(&self, term: TermId, doc: DocId) -> (r: Option<&Vec<TermOffset>>)
        requires
            self.wf(),
        ensures
            match r {
                Some(p) => p@ == self.positions_of(term, doc) && p@.len() > 0,
                None => self.positions_of(term, doc).len() == 0,
            },
    {
        match self.find_posting(term, doc) {
            Some(p) => Some(p.get_positions()),
            None => None,
        }
    }

    /// Occurrences of `term` in `doc`, when it occurs there.
    pub fn get_term_frequency(&self, term: TermId, doc: DocId) -> (r: Option<u32>)
        requires
            self.wf(),
        ensures
            match r {
                Some(n) => n == self.positions_of(term, doc).len() && n > 0,
                None => self.positions_of(term, doc).len() == 0,
            },
    {
        match self.find_posting(term, doc) {
            Some(p) => Some(p.term_frequency),
            None => None,
        }
    }

    /// Number of documents that hold `term`, when any does.
    pub fn get_document_frequency(&self, term: TermId) -> (r: Option<u32>)
        requires
            self.wf(),
        ensures
            match r {
                Some(n) => n == self.document_frequency(term) && n > 0,
                None => self.document_frequency(term) == 0,
            },
    {
        proof {
            self.lemma_frequency_bound(term);
        }
        match self.postings_lists.get(&term) {
            Some(pl) => {
                assert(postings_wf(pl@, self.document_length@));
                Some(pl.len() as u32)
            },
            None => None,
        }
    }

    /// Number of documents.
    pub fn get_document_count(&self) -> (r: usize)
        requires
            self.wf(),
        ensures
            r == self.document_count(),
    {
        self.document_length.len()
    }

    /// Number of tokens in all documents together.
    pub fn get_total_document_length(&self) -> (r: u64)
        requires
            self.wf(),
        ensures
            r == self.total_length(),
            r == sum_lengths(self.lengths()),
    {
        self.total_document_length
    }

    /// Number of tokens in document `doc`.
    pub fn get_document_length(&self, doc: DocId) -> (r: u32)
        requires
            self.wf(),
            1 <= doc <= self.document_count(),
        ensures
            r == self.lengths()[doc - 1],
    {
        self.document_length[(doc - 1) as usize]
    }

    /// Whether `doc_id` names a document of the index.
    pub fn is_valid_doc_id(&self, doc_id: DocId) -> (r: bool)
        requires
            self.wf(),
        ensures
            r == (1 <= doc_id <= self.document_count()),
    {
        doc_id >= 1 && (doc_id as usize) <= self.document_length.len()
    }

    /// The distinct terms of document `doc`, in the order they first occur there.
    pub fn get_doc_terms(&self, doc: DocId) -> (r: &Vec<TermId>)
        requires
            self.wf(),
            1 <= doc <= self.document_count(),
        ensures
            r@.no_duplicates(),
            forall|t: TermId| #[trigger] r@.contains(t) <==> self.positions_of(t, doc).len() > 0,
    {
        &self.doc_terms[(doc - 1) as usize]
    }

    /// First offset of `term` in `doc`.
    pub fn first(&self, doc: DocId, term: TermId) -> (r: Option<TermOffset>)
        requires
            self.wf(),
        ensures
            r == if self.positions_of(term, doc).len() > 0 { Some(self.positions_of(term, doc)[0]) } else { None::<u32> },
    {
        match self.get_positions(term, doc) {
            Some(p) => Some(p[0]),
            None => None,
        }
    }

    /// Last offset of `term` in `doc`.
    pub fn last(&self, doc: DocId, term: TermId) -> (r: Option<TermOffset>)
        requires
            self.wf(),
        ensures
            r == if self.positions_of(term, doc).len() > 0 { Some(self.positions_of(term, doc).last()) } else { None::<u32> },
    {
        match self.get_positions(term, doc) {
            Some(p) => Some(p[p.len() - 1]),
            None => None,
        }
    }

    /// Smallest offset of `term` in `doc` above `after_position`.
    pub fn next(&self, doc: DocId, term: TermId, after_position: TermOffset) -> (r: Option<TermOffset>)
        requires
            self.wf(),
        ensures
            crate::positions::is_next(self.positions_of(term, doc), after_position, r),
    {
        proof {
            self.lemma_positions_wf(term, doc);
        }
        match self.get_positions(term, doc) {
            Some(p) => crate::positions::next_position(p, after_position),
            None => None,
        }
    }

    /// Largest offset of `term` in `doc` below `before_position`.
    pub fn prev(&self, doc: DocId, term: TermId, before_position: TermOffset) -> (r: Option<TermOffset>)
        requires
            self.wf(),
        ensures
            crate::positions::is_prev(self.positions_of(term, doc), before_position, r),
    {
        proof {
            self.lemma_positions_wf(term, doc);
        }
        match self.get_positions(term, doc) {
            Some(p) => crate::positions::prev_position(p, before_position),
            None => None,
        }
    }

    /// Position lists of the phrase's terms in `doc`, or `None` when one of them is absent there.
    fn phrase_refs(&self, doc: DocId, phrase: &Vec<TermId>) -> (r: Option<Vec<&Vec<TermOffset>>>)
        requires
            self.wf(),
        ensures
            crate::phrase::all_valid(doc_phrase_lists(*self, doc, phrase@)),
            match r {
                Some(lists) => crate::phrase::views(lists@) == doc_phrase_lists(*self, doc, phrase@),
                None => exists|i: int| 0 <= i < phrase@.len() && #[trigger] doc_phrase_lists(*self, doc, phrase@)[i].len() == 0,
            },
    {
        let ghost want = doc_phrase_lists(*self, doc, phrase@);
        assert forall|i: int| 0 <= i < want.len() implies valid_positions(#[trigger] want[i]) by {
            self.lemma_positions_wf(phrase@[i], doc);
        }
        let mut lists: Vec<&Vec<TermOffset>> = Vec::new();
        let mut i: usize = 0;
        while i < phrase.len()
            invariant
                self.wf(),
                want == doc_phrase_lists(*self, doc, phrase@),
                i <= phrase@.len(),
                lists@.len() == i,
                forall|k: int| 0 <= k < i ==> #[trigger] lists@[k]@ == want[k],
            decreases phrase@.len() - i,
        {
            match self.get_positions(phrase[i], doc) {
                Some(p) => {
                    lists.push(p);
                },
                None => {
                    assert(want[i as int].len() == 0);
                    return None;
                },
            }
            i = i + 1;
        }
        assert(crate::phrase::views(lists@) =~= want);
        Some(lists)
    }

    /// First occurrence in `doc` of `phrase` (two or more terms) that starts after `position`.
    pub fn next_phrase(&self, doc: DocId, phrase: &Vec<TermId>, position: TermOffset) -> (r: Option<(TermOffset, TermOffset)>)
        requires
            self.wf(),
        ensures
            phrase@.len() <= 1 ==> r is None,
            phrase@.len() > 1 ==> crate::phrase::is_next_occurrence(doc_phrase_lists(*self, doc, phrase@), position, r),
    {
        match self.phrase_refs(doc, phrase) {
            Some(lists) => crate::phrase::next_phrase_in(&lists, position),
            None => {
                proof {
                    crate::inverted_index::lemma_no_occurrence(doc_phrase_lists(*self, doc, phrase@));
                }
                None
            },
        }
    }

    /// Every occurrence of `phrase` in `doc`, as (start, end) offsets in ascending order.
    pub fn all_phrase(&self, doc: DocId, phrase: &Vec<TermId>) -> (r: Vec<(TermOffset, TermOffset)>)
        requires
            self.wf(),
        ensures
            crate::phrase::is_all_occurrences(doc_phrase_lists(*self, doc, phrase@), r@),
    {
        match self.phrase_refs(doc, phrase) {
            Some(lists) => crate::phrase::all_phrase_in(&lists),
            None => {
                proof {
                    crate::inverted_index::lemma_no_occurrence(doc_phrase_lists(*self, doc, phrase@));
                }
                Vec::new()
            },
        }
    }
}


impl PositionList {
    /// Each postings list is well formed, and each posting holds its document's offsets.
    pub proof fn lemma_postings_wf(&self, t: TermId)
        requires
            self.wf(),
        ensures
            self.postings().contains_key(t) ==> postings_wf(self.postings()[t], self.lengths()),
            self.postings().contains_key(t) ==> forall|i: int| 0 <= i < self.postings()[t].len()
                ==> (#[trigger] self.postings()[t][i]).offsets() == self.positions_of(t, self.postings()[t][i].doc()),
    {
        if self.postings().contains_key(t) {
            let pl = self.postings()[t];
            assert(postings_wf(self.postings_lists@[t]@, self.document_length@));
            assert forall|i: int| 0 <= i < pl.len() implies (#[trigger] pl[i]).offsets() == self.positions_of(t, pl[i].doc()) by {
                lemma_positions_at(pl, i, pl[i].doc());
            }
        }
    }

    /// The documents holding a term are as many as its postings.
    pub proof fn lemma_document_frequency_set(&self, t: TermId)
        requires
            self.wf(),
        ensures
            self.document_frequency(t) == Set::new(|d: DocId| self.positions_of(t, d).len() > 0).len(),
    {
        let docs = Set::new(|d: DocId| self.positions_of(t, d).len() > 0);
        if self.postings().contains_key(t) {
            self.lemma_postings_wf(t);
            let pl = self.postings()[t];
            let ids = pl.map_values(|p: Posting| p.doc());
            assert(ids.no_duplicates()) by {
                assert forall|i: int, j: int| 0 <= i < ids.len() && 0 <= j < ids.len() && i != j implies ids[i] != ids[j] by {
                    if i < j {
                        assert(pl[i].doc() < pl[j].doc());
                    } else {
                        assert(pl[j].doc() < pl[i].doc());
                    }
                }
            }
            ids.unique_seq_to_set();
            assert(docs =~= ids.to_set()) by {
                assert forall|d: DocId| docs.contains(d) implies ids.to_set().contains(d) by {
                    let i = choose|i: int| 0 <= i < pl.len() && #[trigger] pl[i].doc() == d;
                    assert(ids[i] == d);
                }
                assert forall|d: DocId| ids.to_set().contains(d) implies docs.contains(d) by {
                    let i = choose|i: int| 0 <= i < ids.len() && ids[i] == d;
                    lemma_positions_at(pl, i, d);
                    assert(posting_wf(pl[i], self.lengths()));
                }
            }
        } else {
            assert(docs =~= Set::<DocId>::empty());
        }
    }

    /// The stored total is the sum of the lengths.
    pub proof fn lemma_total(&self)
        requires
            self.wf(),
        ensures
            self.total_length() == sum_lengths(self.lengths()),
    {
    }
}


/// Occurrences over all postings of a list.
pub open spec fn total_frequency(pl: Seq<Posting>) -> int
    decreases pl.len(),
{
    if pl.len() == 0 {
        0
    } else {
        total_frequency(pl.drop_last()) + pl.last().offsets().len()
    }
}

/// The documents named in a postings list.
pub open spec fn docs_in(pl: Seq<Posting>) -> Set<DocId> {
    Set::new(|d: DocId| exists|k: int| 0 <= k < pl.len() && #[trigger] pl[k].doc() == d)
}

/// Corpus statistics.
pub struct IndexStats {
    /// Number of tokens in all documents together.
    pub total_document_length: u64,
    /// Number of documents.
    pub document_count: usize,
    /// Each term's identifier, text and number of occurrences, most frequent first.
    pub term_freq: Vec<(TermId, String, u64)>,
}

impl PositionList {
    /// Documents in which `t` occurs.
    pub open spec fn docs_of(&self, t: TermId) -> Set<DocId> {
        Set::new(|d: DocId| self.positions_of(t, d).len() > 0)
    }

    /// Number of occurrences of `phrase` in document `d`.
    pub open spec fn phrase_count(&self, d: DocId, phrase: Seq<TermId>) -> nat {
        Set::new(|u: u32| occurs_at(doc_phrase_lists(*self, d, phrase), u)).len()
    }

    /// Number of occurrences of `t` over the whole collection.
    pub open spec fn term_occurrences(&self, t: TermId) -> int {
        if self.postings().contains_key(t) {
            total_frequency(self.postings()[t])
        } else {
            0
        }
    }

    /// The documents of a term are those its postings name.
    proof fn lemma_docs_in(&self, t: TermId)
        requires
            self.wf(),
        ensures
            self.postings().contains_key(t) ==> self.docs_of(t) == docs_in(self.postings()[t]),
            !self.postings().contains_key(t) ==> self.docs_of(t) == Set::<DocId>::empty(),
    {
        if self.postings().contains_key(t) {
            self.lemma_postings_wf(t);
            let pl = self.postings()[t];
            assert forall|d: DocId| self.docs_of(t).contains(d) <==> docs_in(pl).contains(d) by {
                if docs_in(pl).contains(d) {
                    let k = choose|k: int| 0 <= k < pl.len() && #[trigger] pl[k].doc() == d;
                    lemma_positions_at(pl, k, d);
                    assert(posting_wf(pl[k], self.lengths()));
                }
            }
            assert(self.docs_of(t) =~= docs_in(pl));
        } else {
            assert(self.docs_of(t) =~= Set::<DocId>::empty());
        }
    }

    /// Adds the documents of a postings list to `s`.
    fn insert_docs(pl: &Vec<Posting>, s: &mut HashSet<DocId>)
        ensures
            final(s)@ == old(s)@.union(docs_in(pl@)),
    {
        let mut k: usize = 0;
        while k < pl.len()
            invariant
                k <= pl@.len(),
                s@ == old(s)@.union(Set::new(|d: DocId| exists|j: int| 0 <= j < k && #[trigger] pl@[j].doc() == d)),
            decreases pl@.len() - k,
        {
            let d = pl[k].doc_id;
            s.insert(d);
            assert(s@ =~= old(s)@.union(Set::new(|e: DocId| exists|j: int| 0 <= j < k + 1 && #[trigger] pl@[j].doc() == e))) by {
                assert(pl@[k as int].doc() == d);
            }
            k = k + 1;
        }
        assert(s@ =~= old(s)@.union(docs_in(pl@)));
    }

    /// The documents in which `term_id` occurs, when it occurs at all.
    pub fn docs(&self, term_id: TermId) -> (r: Option<HashSet<DocId>>)
        requires
            self.wf(),
        ensures
            match r {
                Some(s) => s@ == self.docs_of(term_id) && self.document_frequency(term_id) > 0,
                None => self.docs_of(term_id) == Set::<DocId>::empty() && self.document_frequency(term_id) == 0,
            },
    {
        proof {
            self.lemma_docs_in(term_id);
            self.lemma_postings_wf(term_id);
        }
        match self.postings_lists.get(&term_id) {
            None => None,
            Some(pl) => {
                let mut s: HashSet<DocId> = HashSet::new();
                Self::insert_docs(pl, &mut s);
                assert(s@ =~= self.docs_of(term_id));
                Some(s)
            },
        }
    }

    /// Documents in which at least one of `term_list` occurs.
    pub fn docs_contain_any(&self, term_list: &Vec<TermId>) -> (r: HashSet<DocId>)
        requires
            self.wf(),
        ensures
            r@ == Set::new(|d: DocId| exists|i: int| 0 <= i < term_list@.len() && #[trigger] self.docs_of(term_list@[i]).contains(d)),
    {
        let mut s: HashSet<DocId> = HashSet::new();
        let mut i: usize = 0;
        while i < term_list.len()
            invariant
                self.wf(),
                i <= term_list@.len(),
                s@ == Set::new(|d: DocId| exists|j: int| 0 <= j < i && #[trigger] self.docs_of(term_list@[j]).contains(d)),
            decreases term_list@.len() - i,
        {
            let t = term_list[i];
            proof {
                self.lemma_docs_in(t);
            }
            match self.postings_lists.get(&t) {
                Some(pl) => {
                    Self::insert_docs(pl, &mut s);
                },
                None => {},
            }
            assert(s@ =~= Set::new(|d: DocId| exists|j: int| 0 <= j < i + 1 && #[trigger] self.docs_of(term_list@[j]).contains(d))) by {
                assert forall|d: DocId| (exists|j: int| 0 <= j < i + 1 && #[trigger] self.docs_of(term_list@[j]).contains(d))
                    implies s@.contains(d) by {
                    let j = choose|j: int| 0 <= j < i + 1 && #[trigger] self.docs_of(term_list@[j]).contains(d);
                    if j < i {
                        assert(self.docs_of(term_list@[j]).contains(d));
                    }
                }
            }
            i = i + 1;
        }
        s
    }
    /// Documents that hold every term of `term_list`; `None` for an empty list.
    pub fn docs_contain_all(&self, term_list: &Vec<TermId>) -> (r: Option<HashSet<DocId>>)
        requires
            self.wf(),
        ensures
            r is None <==> term_list@.len() == 0,
            r matches Some(s) ==> s@ == Set::new(|d: DocId| forall|i: int| 0 <= i < term_list@.len()
                ==> #[trigger] self.docs_of(term_list@[i]).contains(d)),
    {
        if term_list.len() == 0 {
            return None;
        }
        let t0 = term_list[0];
        proof {
            self.lemma_docs_in(t0);
        }
        let mut acc: HashSet<DocId> = match self.docs(t0) {
            Some(s) => s,
            None => HashSet::new(),
        };
        assert(acc@ =~= Set::new(|d: DocId| forall|j: int| 0 <= j < 1 ==> #[trigger] self.docs_of(term_list@[j]).contains(d)));
        let mut i: usize = 1;
        while i < term_list.len()
            invariant
                self.wf(),
                1 <= i <= term_list@.len(),
                acc@ == Set::new(|d: DocId| forall|j: int| 0 <= j < i ==> #[trigger] self.docs_of(term_list@[j]).contains(d)),
            decreases term_list@.len() - i,
        {
            let t = term_list[i];
            proof {
                self.lemma_docs_in(t);
            }
            let mut next: HashSet<DocId> = HashSet::new();
            match self.postings_lists.get(&t) {
                Some(pl) => {
                    let mut k: usize = 0;
                    while k < pl.len()
                        invariant
                            k <= pl@.len(),
                            next@ == Set::new(|d: DocId| (exists|j: int| 0 <= j < k && #[trigger] pl@[j].doc() == d) && acc@.contains(d)),
                        decreases pl@.len() - k,
                    {
                        let d = pl[k].doc_id;
                        if acc.contains(&d) {
                            next.insert(d);
                        }
                        assert(next@ =~= Set::new(|e: DocId| (exists|j: int| 0 <= j < k + 1 && #[trigger] pl@[j].doc() == e) && acc@.contains(e))) by {
                            assert(pl@[k as int].doc() == d);
                        }
                        k = k + 1;
                    }
                    assert(docs_in(pl@) == self.docs_of(t));
                },
                None => {},
            }
            let ghost want = Set::new(|d: DocId| forall|j: int| 0 <= j < i + 1 ==> #[trigger] self.docs_of(term_list@[j]).contains(d));
            assert(next@ =~= want) by {
                assert forall|d: DocId| next@.contains(d) implies want.contains(d) by {
                    assert(self.docs_of(t).contains(d));
                    assert forall|j: int| 0 <= j < i + 1 implies #[trigger] self.docs_of(term_list@[j]).contains(d) by {
                        if j < i {
                            assert(acc@.contains(d));
                        }
                    }
                }
                assert forall|d: DocId| want.contains(d) implies next@.contains(d) by {
                    assert(self.docs_of(term_list@[i as int]).contains(d));
                    assert(docs_in(self.postings()[t]).contains(d));
                    assert forall|j: int| 0 <= j < i implies #[trigger] self.docs_of(term_list@[j]).contains(d) by {
                        assert(want.contains(d));
                    }
                    assert(acc@.contains(d));
                }
            }
            acc = next;
            i = i + 1;
        }
        Some(acc)
    }

    /// Number of occurrences of `term` over the whole collection.
    pub fn get_term_occurences_num(&self, term: TermId) -> (r: u64)
        requires
            self.wf(),
        ensures
            r == self.term_occurrences(term),
    {
        proof {
            self.lemma_postings_wf(term);
        }
        match self.postings_lists.get(&term) {
            None => 0,
            Some(pl) => {
                proof {
                    lemma_doc_ids_grow(pl@, self.document_length@);
                }
                let mut sum: u64 = 0;
                let mut k: usize = 0;
                while k < pl.len()
                    invariant
                        k <= pl@.len() < u32::MAX,
                        postings_wf(pl@, self.lengths()),
                        sum == total_frequency(pl@.subrange(0, k as int)),
                        sum <= k * 0xffff_ffff,
                    decreases pl@.len() - k,
                {
                    assert(pl@.subrange(0, k + 1).drop_last() == pl@.subrange(0, k as int));
                    assert(posting_wf(pl@[k as int], self.lengths()));
                    let f = pl[k].term_frequency;
                    assert(sum + f <= (k + 1) * 0xffff_ffff) by (nonlinear_arith)
                        requires
                            sum <= k * 0xffff_ffff,
                            f <= 0xffff_ffff;
                    assert((k + 1) * 0xffff_ffff <= 0xffff_ffff_ffff_ffff) by (nonlinear_arith)
                        requires
                            k + 1 < 0xffff_ffff;
                    sum = sum + f as u64;
                    k = k + 1;
                }
                assert(pl@.subrange(0, k as int) == pl@);
                sum
            },
        }
    }

    /// Number of occurrences of `phrase` in each document where it occurs, most first.
    pub fn search_phrase(&self, term_ids: &Vec<TermId>) -> (r: Vec<(DocId, u64)>)
        requires
            self.wf(),
        ensures
            sorted_by_count_desc(r@),
            forall|i: int, j: int| 0 <= i < j < r@.len() ==> r@[i].0 != r@[j].0,
            forall|i: int| 0 <= i < r@.len() ==> #[trigger] r@[i].1 == self.phrase_count(r@[i].0, term_ids@) && r@[i].1 > 0,
            forall|d: DocId| #[trigger] self.phrase_count(d, term_ids@) > 0 ==> exists|i: int| 0 <= i < r@.len() && r@[i].0 == d,
    {
        let mut hits: Vec<(DocId, u64)> = Vec::new();
        if term_ids.len() > 0 {
            proof {
                self.lemma_docs_in(term_ids@[0]);
            }
            match self.postings_lists.get(&term_ids[0]) {
                Some(pl) => {
                    proof {
                        self.lemma_postings_wf(term_ids@[0]);
                    }
                    let mut k: usize = 0;
                    while k < pl.len()
                        invariant
                            self.wf(),
                            term_ids@.len() > 0,
                            self.postings().contains_key(term_ids@[0]),
                            pl@ == self.postings()[term_ids@[0]],
                            postings_wf(pl@, self.lengths()),
                            k <= pl@.len(),
                            hits@.len() <= k,
                            forall|a: int, b: int| 0 <= a < b < hits@.len() ==> hits@[a].0 < hits@[b].0,
                            forall|a: int| #![trigger hits@[a]] 0 <= a < hits@.len() ==> exists|j: int| 0 <= j < k && #[trigger] pl@[j].doc() == hits@[a].0,
                            forall|a: int| 0 <= a < hits@.len() ==> #[trigger] hits@[a].1 == self.phrase_count(hits@[a].0, term_ids@) && hits@[a].1 > 0,
                            forall|j: int| 0 <= j < k && self.phrase_count(#[trigger] pl@[j].doc(), term_ids@) > 0
                                ==> exists|a: int| 0 <= a < hits@.len() && hits@[a].0 == pl@[j].doc(),
                        decreases pl@.len() - k,
                    {
                        let d = pl[k].doc_id;
                        let found = self.all_phrase(d, term_ids);
                        proof {
                            lemma_occurrence_count(doc_phrase_lists(*self, d, term_ids@), found@);
                        }
                        let ghost before = hits@;
                        if found.len() > 0 {
                            hits.push((d, found.len() as u64));
                            proof {
                                assert forall|a: int| 0 <= a < hits@.len() - 1 implies hits@[a].0 < d by {
                                    let j = choose|j: int| 0 <= j < k && #[trigger] pl@[j].doc() == before[a].0;
                                    assert(pl@[j].doc() < pl@[k as int].doc());
                                }
                                assert forall|a: int| #![trigger hits@[a]] 0 <= a < hits@.len() implies exists|j: int| 0 <= j < k + 1 && #[trigger] pl@[j].doc() == hits@[a].0 by {
                                    if a < before.len() {
                                        assert(hits@[a] == before[a]);
                                        let j = choose|j: int| 0 <= j < k && #[trigger] pl@[j].doc() == before[a].0;
                                    } else {
                                        assert(pl@[k as int].doc() == hits@[a].0);
                                    }
                                }
                                assert forall|a: int| 0 <= a < hits@.len() implies #[trigger] hits@[a].1 == self.phrase_count(hits@[a].0, term_ids@) && hits@[a].1 > 0 by {
                                    if a < before.len() {
                                        assert(hits@[a] == before[a]);
                                    }
                                }
                            }
                        }
                        proof {
                            assert forall|j: int| 0 <= j < k + 1 && self.phrase_count(#[trigger] pl@[j].doc(), term_ids@) > 0
                                implies exists|a: int| 0 <= a < hits@.len() && hits@[a].0 == pl@[j].doc() by {
                                if j < k {
                                    let a = choose|a: int| 0 <= a < before.len() && before[a].0 == pl@[j].doc();
                                    assert(hits@[a] == before[a]);
                                } else {
                                    assert(hits@[hits@.len() - 1].0 == d);
                                }
                            }
                        }
                        k = k + 1;
                    }
                    proof {
                        assert forall|d: DocId| #[trigger] self.phrase_count(d, term_ids@) > 0 implies exists|a: int| 0 <= a < hits@.len() && hits@[a].0 == d by {
                            self.lemma_counted_doc_holds_first(d, term_ids@);
                            assert(docs_in(pl@).contains(d));
                            let j = choose|j: int| 0 <= j < pl@.len() && #[trigger] pl@[j].doc() == d;
                        }
                    }
                },
                None => {
                    proof {
                        assert forall|d: DocId| #[trigger] self.phrase_count(d, term_ids@) == 0 by {
                            self.lemma_counted_doc_holds_first(d, term_ids@);
                        }
                    }
                },
            }
        } else {
            proof {
                assert forall|d: DocId| #[trigger] self.phrase_count(d, term_ids@) == 0 by {
                    assert(Set::new(|u: u32| occurs_at(doc_phrase_lists(*self, d, term_ids@), u)) =~= Set::<u32>::empty());
                }
            }
        }
        let ghost unsorted = hits@;
        proof {
            assert(unsorted.no_duplicates()) by {
                assert forall|a: int, b: int| 0 <= a < unsorted.len() && 0 <= b < unsorted.len() && a != b implies unsorted[a] != unsorted[b] by {
                    if a < b {
                        assert(unsorted[a].0 < unsorted[b].0);
                    } else {
                        assert(unsorted[b].0 < unsorted[a].0);
                    }
                }
            }
            unsorted.lemma_multiset_has_no_duplicates();
        }
        let r = sort_by_count_desc(hits);
        proof {
            broadcast use vstd::seq_lib::to_multiset_contains;
            assert forall|x: (DocId, u64)| r@.to_multiset().contains(x) implies r@.to_multiset().count(x) == 1 by {
                assert(unsorted.to_multiset().contains(x));
            }
            r@.lemma_multiset_has_no_duplicates_conv();
            assert forall|i: int| 0 <= i < r@.len() implies unsorted.contains(#[trigger] r@[i]) by {
                assert(r@.contains(r@[i]));
                assert(r@.to_multiset().count(r@[i]) > 0);
            }
            assert forall|i: int| 0 <= i < unsorted.len() implies r@.contains(#[trigger] unsorted[i]) by {
                assert(unsorted.contains(unsorted[i]));
                assert(unsorted.to_multiset().count(unsorted[i]) > 0);
            }
            assert forall|i: int| 0 <= i < r@.len() implies #[trigger] r@[i].1 == self.phrase_count(r@[i].0, term_ids@) && r@[i].1 > 0 by {
                assert(unsorted.contains(r@[i]));
            }
            assert forall|i: int, j: int| 0 <= i < j < r@.len() implies r@[i].0 != r@[j].0 by {
                assert(unsorted.contains(r@[i]));
                assert(unsorted.contains(r@[j]));
                if r@[i].0 == r@[j].0 {
                    assert(r@[i] == r@[j]);
                }
            }
            assert forall|d: DocId| #[trigger] self.phrase_count(d, term_ids@) > 0 implies exists|i: int| 0 <= i < r@.len() && r@[i].0 == d by {
                let a = choose|a: int| 0 <= a < unsorted.len() && unsorted[a].0 == d;
                assert(r@.contains(unsorted[a]));
            }
        }
        r
    }

    /// A document where a non-empty phrase occurs holds the phrase's first term.
    proof fn lemma_counted_doc_holds_first(&self, d: DocId, phrase: Seq<TermId>)
        requires
            self.wf(),
            phrase.len() > 0,
        ensures
            self.phrase_count(d, phrase) > 0 ==> self.docs_of(phrase[0]).contains(d),
    {
        let ls = doc_phrase_lists(*self, d, phrase);
        let occ = Set::new(|u: u32| occurs_at(ls, u));
        if !self.docs_of(phrase[0]).contains(d) {
            assert(ls[0].len() == 0);
            crate::inverted_index::lemma_no_occurrence(ls);
            assert(occ =~= Set::<u32>::empty());
        }
    }

    /// Statistics of the collection, with each term's text looked up in `dict`.
    pub fn stats(&self, dict: &Dictionary) -> (r: IndexStats)
        requires
            self.wf(),
            dict.wf(),
        ensures
            r.total_document_length == sum_lengths(self.lengths()),
            r.document_count == self.document_count(),
            r.term_freq@.len() == self.terms().len(),
            forall|i: int, j: int| 0 <= i < j < r.term_freq@.len() ==> r.term_freq@[i].2 >= r.term_freq@[j].2,
            forall|i: int, j: int| 0 <= i < j < r.term_freq@.len() ==> r.term_freq@[i].0 != r.term_freq@[j].0,
            forall|i: int| 0 <= i < r.term_freq@.len() ==> {
                let (t, text, n) = #[trigger] r.term_freq@[i];
                &&& self.postings().contains_key(t)
                &&& n == self.term_occurrences(t)
                &&& (1 <= t <= dict@.len() ==> text@ == dict@[t - 1])
                &&& (!(1 <= t <= dict@.len()) ==> text@ == Seq::<char>::empty())
            },
            forall|t: TermId| #[trigger] self.postings().contains_key(t) ==> exists|i: int| 0 <= i < r.term_freq@.len() && r.term_freq@[i].0 == t,
    {
        let mut counts: Vec<(TermId, u64)> = Vec::new();
        let mut k: usize = 0;
        while k < self.term_order.len()
            invariant
                self.wf(),
                k <= self.term_order@.len(),
                counts@.len() == k,
                forall|a: int| 0 <= a < k ==> #[trigger] counts@[a] == (self.term_order@[a], self.term_occurrences(self.term_order@[a]) as u64),
            decreases self.term_order@.len() - k,
        {
            let t = self.term_order[k];
            let n = self.get_term_occurences_num(t);
            counts.push((t, n));
            k = k + 1;
        }
        let ghost unsorted = counts@;
        proof {
            assert(unsorted.no_duplicates()) by {
                assert forall|a: int, b: int| 0 <= a < unsorted.len() && 0 <= b < unsorted.len() && a != b implies unsorted[a] != unsorted[b] by {
                    assert(self.term_order@[a] != self.term_order@[b]);
                }
            }
            unsorted.lemma_multiset_has_no_duplicates();
        }
        let sorted = sort_by_count_desc(counts);
        proof {
            broadcast use vstd::seq_lib::to_multiset_contains;
            assert forall|x: (TermId, u64)| sorted@.to_multiset().contains(x) implies sorted@.to_multiset().count(x) == 1 by {
                assert(unsorted.to_multiset().contains(x));
            }
            sorted@.lemma_multiset_has_no_duplicates_conv();
            assert forall|i: int| 0 <= i < sorted@.len() implies unsorted.contains(#[trigger] sorted@[i]) by {
                assert(sorted@.contains(sorted@[i]));
                assert(sorted@.to_multiset().count(sorted@[i]) > 0);
            }
            assert forall|i: int| 0 <= i < unsorted.len() implies sorted@.contains(#[trigger] unsorted[i]) by {
                assert(unsorted.contains(unsorted[i]));
                assert(unsorted.to_multiset().count(unsorted[i]) > 0);
            }
        }
        let mut term_freq: Vec<(TermId, String, u64)> = Vec::new();
        let mut j: usize = 0;
        while j < sorted.len()
            invariant
                self.wf(),
                dict.wf(),
                j <= sorted@.len(),
                term_freq@.len() == j,
                forall|a: int| 0 <= a < j ==> {
                    let (t, text, n) = #[trigger] term_freq@[a];
                    &&& t == sorted@[a].0
                    &&& n == sorted@[a].1
                    &&& (1 <= t <= dict@.len() ==> text@ == dict@[t - 1])
                    &&& (!(1 <= t <= dict@.len()) ==> text@ == Seq::<char>::empty())
                },
            decreases sorted@.len() - j,
        {
            let (t, n) = sorted[j];
            let text = dict.get_term_by_id(t);
            term_freq.push((t, text, n));
            j = j + 1;
        }
        proof {
            assert forall|i: int, j: int| 0 <= i < j < term_freq@.len() implies term_freq@[i].0 != term_freq@[j].0 by {
                assert(term_freq@[i].0 == sorted@[i].0 && term_freq@[j].0 == sorted@[j].0);
                assert(unsorted.contains(sorted@[i]) && unsorted.contains(sorted@[j]));
                let a = choose|a: int| 0 <= a < unsorted.len() && unsorted[a] == sorted@[i];
                let b = choose|b: int| 0 <= b < unsorted.len() && unsorted[b] == sorted@[j];
                if sorted@[i].0 == sorted@[j].0 {
                    assert(self.term_order@[a] == self.term_order@[b]);
                    assert(a == b);
                    assert(sorted@[i] == sorted@[j]);
                }
            }
            assert forall|i: int| 0 <= i < term_freq@.len() implies {
                let (t, text, n) = #[trigger] term_freq@[i];
                &&& self.postings().contains_key(t)
                &&& n == self.term_occurrences(t)
            } by {
                assert(unsorted.contains(sorted@[i]));
                let a = choose|a: int| 0 <= a < unsorted.len() && unsorted[a] == sorted@[i];
                assert(self.term_order@.contains(self.term_order@[a]));
                self.lemma_occurrences_fit(self.term_order@[a]);
            }
            assert forall|t: TermId| #[trigger] self.postings().contains_key(t) implies exists|i: int| 0 <= i < term_freq@.len() && term_freq@[i].0 == t by {
                assert(self.term_order@.contains(t));
                let a = choose|a: int| 0 <= a < self.term_order@.len() && self.term_order@[a] == t;
                assert(sorted@.contains(unsorted[a]));
                let i = choose|i: int| 0 <= i < sorted@.len() && sorted@[i] == unsorted[a];
                assert(term_freq@[i].0 == t);
            }
            assert(self.terms().len() == unsorted.len());
        }
        IndexStats {
            total_document_length: self.total_document_length,
            document_count: self.document_length.len(),
            term_freq,
        }
    }

    /// The occurrence total of a term fits a `u64`.
    proof fn lemma_occurrences_fit(&self, t: TermId)
        requires
            self.wf(),
        ensures
            0 <= self.term_occurrences(t) <= 0xffff_ffff_ffff_ffff,
    {
        if self.postings().contains_key(t) {
            self.lemma_postings_wf(t);
            let pl = self.postings()[t];
            lemma_doc_ids_grow(pl, self.lengths());
            lemma_total_frequency_bound(pl, self.lengths());
            assert(pl.len() * 0xffff_ffff <= 0xffff_ffff_ffff_ffff) by (nonlinear_arith)
                requires
                    pl.len() < 0xffff_ffff;
        }
    }
}

/// Occurrences over a postings list are at most its length times the largest `u32`.
pub proof fn lemma_total_frequency_bound(pl: Seq<Posting>, lens: Seq<u32>)
    requires
        forall|i: int| 0 <= i < pl.len() ==> posting_wf(#[trigger] pl[i], lens),
    ensures
        0 <= total_frequency(pl) <= pl.len() * 0xffff_ffff,
    decreases pl.len(),
{
    if pl.len() > 0 {
        let prev = pl.drop_last();
        assert forall|i: int| 0 <= i < prev.len() implies posting_wf(#[trigger] prev[i], lens) by {
            assert(prev[i] == pl[i]);
        }
        lemma_total_frequency_bound(prev, lens);
        assert(posting_wf(pl[pl.len() - 1], lens));
    }
}

/// The number of reported occurrences is the number of offsets where the phrase occurs.
pub proof fn lemma_occurrence_count(ls: Seq<Seq<u32>>, r: Seq<(u32, u32)>)
    requires
        crate::phrase::is_all_occurrences(ls, r),
    ensures
        r.len() == Set::new(|u: u32| occurs_at(ls, u)).len(),
{
    let starts = r.map_values(|p: (u32, u32)| p.0);
    assert(starts.no_duplicates()) by {
        assert forall|a: int, b: int| 0 <= a < starts.len() && 0 <= b < starts.len() && a != b implies starts[a] != starts[b] by {
            if a < b {
                assert(r[a].0 < r[b].0);
            } else {
                assert(r[b].0 < r[a].0);
            }
        }
    }
    starts.unique_seq_to_set();
    assert(starts.to_set() =~= Set::new(|u: u32| occurs_at(ls, u))) by {
        assert forall|u: u32| starts.to_set().contains(u) implies occurs_at(ls, u) by {
            let a = choose|a: int| 0 <= a < starts.len() && starts[a] == u;
            assert(occurs_at(ls, r[a].0));
        }
        assert forall|u: u32| occurs_at(ls, u) implies starts.to_set().contains(u) by {
            let a = choose|a: int| 0 <= a < r.len() && r[a].0 == u;
            assert(starts[a] == u);
        }
    }
}


/// The stored form of an index: each term's postings list, in the order the terms
/// first occurred, and the length of each document.
pub struct IndexParts {
    pub postings: Vec<(TermId, Vec<Posting>)>,
    pub document_length: Vec<u32>,
}

/// Stored parts describe a well-formed index.
pub open spec fn parts_valid(parts: &IndexParts) -> bool {
    let lens = parts.document_length@;
    let ps = parts.postings@;
    &&& lens.len() < u32::MAX - 1
    &&& forall|i: int, j: int| 0 <= i < j < ps.len() ==> ps[i].0 != ps[j].0
    &&& forall|i: int| 0 <= i < ps.len() ==> postings_wf((#[trigger] ps[i]).1@, lens)
}

/// Two postings lists hold the same documents and offsets.
pub open spec fn same_postings(a: Seq<Posting>, b: Seq<Posting>) -> bool {
    &&& a.len() == b.len()
    &&& forall|i: int| 0 <= i < a.len() ==> {
        &&& (#[trigger] a[i]).doc() == b[i].doc()
        &&& a[i].offsets() == b[i].offsets()
        &&& a[i].frequency() == b[i].frequency()
    }
}

/// `idx` is the index that `parts` describe.
pub open spec fn describes(parts: &IndexParts, idx: PositionList) -> bool {
    let ps = parts.postings@;
    &&& parts.document_length@ == idx.lengths()
    &&& ps.len() == idx.terms().len()
    &&& forall|i: int| 0 <= i < ps.len() ==> (#[trigger] ps[i]).0 == idx.terms()[i]
    &&& forall|i: int| 0 <= i < ps.len() ==> idx.postings().contains_key((#[trigger] ps[i]).0)
        && same_postings(ps[i].1@, idx.postings()[ps[i].0])
    &&& forall|t: TermId| #[trigger] idx.postings().contains_key(t) ==> exists|i: int| 0 <= i < ps.len() && ps[i].0 == t
}

/// A copy of a postings list.
fn duplicate_list(pl: &Vec<Posting>) -> (r: Vec<Posting>)
    ensures
        same_postings(r@, pl@),
{
    let mut out: Vec<Posting> = Vec::new();
    let mut k: usize = 0;
    while k < pl.len()
        invariant
            k <= pl@.len(),
            out@.len() == k,
            forall|i: int| 0 <= i < k ==> {
                &&& (#[trigger] out@[i]).doc() == pl@[i].doc()
                &&& out@[i].offsets() == pl@[i].offsets()
                &&& out@[i].frequency() == pl@[i].frequency()
            },
        decreases pl@.len() - k,
    {
        out.push(pl[k].duplicate());
        k = k + 1;
    }
    out
}

/// Lists with the same documents and offsets are equally well formed and hold the same offsets.
pub proof fn lemma_same_postings(a: Seq<Posting>, b: Seq<Posting>, lens: Seq<u32>)
    requires
        same_postings(a, b),
    ensures
        postings_wf(a, lens) <==> postings_wf(b, lens),
        postings_wf(a, lens) ==> forall|d: DocId| #[trigger] positions_in(a, d) == positions_in(b, d),
        docs_in(a) == docs_in(b),
{
    assert forall|i: int| 0 <= i < a.len() implies (#[trigger] a[i]).doc() == b[i].doc()
        && posting_wf(a[i], lens) == posting_wf(b[i], lens) by {
        assert(a[i].offsets() == b[i].offsets());
    }
    if postings_wf(a, lens) {
        assert forall|i: int, j: int| 0 <= i < j < b.len() implies b[i].doc() < b[j].doc() by {
            assert(a[i].doc() == b[i].doc() && a[j].doc() == b[j].doc());
        }
        assert forall|i: int| 0 <= i < b.len() implies posting_wf(#[trigger] b[i], lens) by {
            assert(posting_wf(a[i], lens));
        }
    }
    if postings_wf(b, lens) {
        assert forall|i: int, j: int| 0 <= i < j < a.len() implies a[i].doc() < a[j].doc() by {
            assert(a[i].doc() == b[i].doc() && a[j].doc() == b[j].doc());
        }
        assert forall|i: int| 0 <= i < a.len() implies posting_wf(#[trigger] a[i], lens) by {
            assert(posting_wf(b[i], lens));
        }
    }
    if postings_wf(a, lens) {
        assert forall|d: DocId| #[trigger] positions_in(a, d) == positions_in(b, d) by {
            if exists|i: int| 0 <= i < a.len() && #[trigger] a[i].doc() == d {
                let i = choose|i: int| 0 <= i < a.len() && #[trigger] a[i].doc() == d;
                assert(b[i].doc() == d);
                lemma_positions_at(a, i, d);
                lemma_positions_at(b, i, d);
                assert(a[i].offsets() == b[i].offsets());
            } else {
                assert forall|i: int| 0 <= i < b.len() implies #[trigger] b[i].doc() != d by {
                    assert(a[i].doc() == b[i].doc());
                }
            }
        }
    }
    assert(docs_in(a) =~= docs_in(b)) by {
        assert forall|d: DocId| docs_in(a).contains(d) implies docs_in(b).contains(d) by {
            let k = choose|k: int| 0 <= k < a.len() && #[trigger] a[k].doc() == d;
            assert(b[k].doc() == d);
        }
        assert forall|d: DocId| docs_in(b).contains(d) implies docs_in(a).contains(d) by {
            let k = choose|k: int| 0 <= k < b.len() && #[trigger] b[k].doc() == d;
            assert(a[k].doc() == d);
        }
    }
}

/// In a well-formed list, a document is named exactly when it has offsets.
pub proof fn lemma_docs_in_list(pl: Seq<Posting>, lens: Seq<u32>)
    requires
        postings_wf(pl, lens),
    ensures
        forall|d: DocId| #[trigger] docs_in(pl).contains(d) <==> positions_in(pl, d).len() > 0,
{
    assert forall|d: DocId| #[trigger] docs_in(pl).contains(d) <==> positions_in(pl, d).len() > 0 by {
        if docs_in(pl).contains(d) {
            let k = choose|k: int| 0 <= k < pl.len() && #[trigger] pl[k].doc() == d;
            lemma_positions_at(pl, k, d);
            assert(posting_wf(pl[k], lens));
        }
    }
}

/// Whether a postings list is well formed against the document lengths.
fn check_postings(pl: &Vec<Posting>, lens: &Vec<u32>) -> (r: bool)
    ensures
        r == postings_wf(pl@, lens@),
{
    if pl.len() == 0 {
        return false;
    }
    let mut k: usize = 0;
    while k < pl.len()
        invariant
            0 < pl@.len(),
            k <= pl@.len(),
            forall|a: int, b: int| 0 <= a < b < k ==> pl@[a].doc() < pl@[b].doc(),
            forall|a: int| 0 <= a < k ==> posting_wf(#[trigger] pl@[a], lens@),
        decreases pl@.len() - k,
    {
        let p = &pl[k];
        let d = p.doc_id;
        if d < 1 || (d as usize) > lens.len() {
            assert(!posting_wf(pl@[k as int], lens@));
            return false;
        }
        if k > 0 && pl[k - 1].doc_id >= d {
            assert(!(pl@[k - 1].doc() < pl@[k as int].doc()));
            return false;
        }
        let n = p.positions.len();
        if n == 0 || p.term_frequency as usize != n {
            assert(!posting_wf(pl@[k as int], lens@));
            return false;
        }
        let limit = lens[(d - 1) as usize];
        let mut j: usize = 0;
        while j < n
            invariant
                k < pl@.len(),
                *p == pl@[k as int],
                1 <= d <= lens@.len(),
                d == p.doc_id,
                n == p.positions@.len(),
                j <= n,
                limit == lens@[d - 1],
                forall|a: int, b: int| 0 <= a < b < j ==> p.positions@[a] < p.positions@[b],
                forall|a: int| 0 <= a < j ==> DOC_BEGIN < #[trigger] p.positions@[a] < DOC_END,
                forall|a: int| 0 <= a < j ==> #[trigger] p.positions@[a] <= limit,
            decreases n - j,
        {
            let x = p.positions[j];
            if x == DOC_BEGIN || x == DOC_END || x > limit {
                assert(p.offsets()[j as int] == x);
                assert(!posting_wf(pl@[k as int], lens@));
                return false;
            }
            if j > 0 && p.positions[j - 1] >= x {
                assert(!valid_positions(p.offsets()));
                assert(!posting_wf(pl@[k as int], lens@));
                return false;
            }
            j = j + 1;
        }
        assert(posting_wf(pl@[k as int], lens@));
        k = k + 1;
    }
    true
}

impl PositionList {
    /// The stored form of this index.
    pub fn to_parts(&self) -> (r: IndexParts)
        requires
            self.wf(),
        ensures
            describes(&r, *self),
            parts_valid(&r),
    {
        let mut postings: Vec<(TermId, Vec<Posting>)> = Vec::new();
        let mut k: usize = 0;
        while k < self.term_order.len()
            invariant
                self.wf(),
                k <= self.term_order@.len(),
                postings@.len() == k,
                forall|i: int| 0 <= i < k ==> (#[trigger] postings@[i]).0 == self.term_order@[i],
                forall|i: int| 0 <= i < k ==> self.postings().contains_key((#[trigger] postings@[i]).0)
                    && same_postings(postings@[i].1@, self.postings()[postings@[i].0]),
            decreases self.term_order@.len() - k,
        {
            let t = self.term_order[k];
            assert(self.term_order@.contains(t));
            let pl = self.postings_lists.get(&t).unwrap();
            postings.push((t, duplicate_list(pl)));
            k = k + 1;
        }
        let r = IndexParts { postings, document_length: self.document_length.clone() };
        proof {
            let ps = r.postings@;
            assert forall|t: TermId| #[trigger] self.postings().contains_key(t) implies exists|i: int| 0 <= i < ps.len() && ps[i].0 == t by {
                assert(self.term_order@.contains(t));
                let i = choose|i: int| 0 <= i < self.term_order@.len() && self.term_order@[i] == t;
                assert(ps[i].0 == t);
            }
            assert forall|i: int| 0 <= i < ps.len() implies postings_wf((#[trigger] ps[i]).1@, r.document_length@) by {
                self.lemma_postings_wf(ps[i].0);
                lemma_same_postings(ps[i].1@, self.postings()[ps[i].0], self.lengths());
            }
            assert forall|i: int, j: int| 0 <= i < j < ps.len() implies ps[i].0 != ps[j].0 by {
                assert(self.term_order@[i] != self.term_order@[j]);
            }
        }
        r
    }

    /// The index that stored parts describe, or `None` when they describe no
    /// well-formed index. The per-document term lists are rebuilt.
    pub fn from_parts(parts: &IndexParts) -> (r: Option<PositionList>)
        ensures
            r is Some <==> parts_valid(parts),
            r matches Some(idx) ==> idx.wf() && describes(parts, idx),
    {
        let lens = &parts.document_length;
        let ps = &parts.postings;
        if lens.len() >= (u32::MAX - 1) as usize {
            return None;
        }
        // Validate the postings and the distinctness of the terms.
        let mut seen: HashSet<TermId> = HashSet::new();
        let mut k: usize = 0;
        while k < ps.len()
            invariant
                ps@ == parts.postings@,
                lens@ == parts.document_length@,
                k <= ps@.len(),
                seen@ == Set::new(|t: TermId| exists|i: int| 0 <= i < k && (#[trigger] ps@[i]).0 == t),
                forall|i: int, j: int| 0 <= i < j < k ==> ps@[i].0 != ps@[j].0,
                forall|i: int| 0 <= i < k ==> postings_wf((#[trigger] ps@[i]).1@, lens@),
            decreases ps@.len() - k,
        {
            let t = ps[k].0;
            if seen.contains(&t) {
                proof {
                    let i = choose|i: int| 0 <= i < k && (#[trigger] ps@[i]).0 == t;
                    assert(ps@[i].0 == ps@[k as int].0);
                }
                return None;
            }
            if !check_postings(&ps[k].1, lens) {
                assert(!postings_wf(ps@[k as int].1@, lens@));
                return None;
            }
            seen.insert(t);
            assert(seen@ =~= Set::new(|x: TermId| exists|i: int| 0 <= i < k + 1 && (#[trigger] ps@[i]).0 == x)) by {
                assert(ps@[k as int].0 == t);
            }
            k = k + 1;
        }
        assert(parts_valid(parts));
        // Sum the lengths.
        let mut total: u64 = 0;
        let mut j: usize = 0;
        while j < lens.len()
            invariant
                ps@ == parts.postings@,
                lens@ == parts.document_length@,
                j <= lens@.len() < u32::MAX - 1,
                total == sum_lengths(lens@.subrange(0, j as int)),
            decreases lens@.len() - j,
        {
            proof {
                assert(lens@.subrange(0, j + 1).drop_last() == lens@.subrange(0, j as int));
                lemma_sum_bound(lens@.subrange(0, j + 1));
                assert(sum_lengths(lens@.subrange(0, j + 1)) <= 0xffff_ffff_ffff_ffff) by (nonlinear_arith)
                    requires
                        sum_lengths(lens@.subrange(0, j + 1)) <= (j + 1) * 0xffff_ffff,
                        j + 1 < 0xffff_ffff;
            }
            total = total + lens[j] as u64;
            j = j + 1;
        }
        assert(lens@.subrange(0, j as int) == lens@);
        let mut doc_terms: Vec<Vec<TermId>> = Vec::new();
        let mut j: usize = 0;
        while j < lens.len()
            invariant
                ps@ == parts.postings@,
                lens@ == parts.document_length@,
                j <= lens@.len(),
                doc_terms@.len() == j,
                forall|a: int| 0 <= a < j ==> (#[trigger] doc_terms@[a])@ == Seq::<TermId>::empty(),
            decreases lens@.len() - j,
        {
            doc_terms.push(Vec::new());
            j = j + 1;
        }
        let mut idx = PositionList {
            postings_lists: HashMap::new(),
            document_length: lens.clone(),
            total_document_length: total,
            doc_terms,
            term_order: Vec::new(),
        };
        let mut k: usize = 0;
        while k < ps.len()
            invariant
                ps@ == parts.postings@,
                lens@ == parts.document_length@,
                parts_valid(parts),
                k <= ps@.len(),
                idx.document_length@ == lens@,
                idx.total_document_length == sum_lengths(lens@),
                idx.doc_terms@.len() == lens@.len(),
                idx.term_order@.len() == k,
                forall|i: int| 0 <= i < k ==> (#[trigger] ps@[i]).0 == idx.term_order@[i],
                forall|t: TermId| #[trigger] idx.postings_lists@.contains_key(t) <==> exists|i: int| 0 <= i < k && ps@[i].0 == t,
                forall|i: int| 0 <= i < k ==> same_postings(idx.postings_lists@[(#[trigger] ps@[i]).0]@, ps@[i].1@),
                forall|d: int| 0 <= d < lens@.len() ==> (#[trigger] idx.doc_terms@[d])@.no_duplicates(),
                forall|d: int, t: TermId| 0 <= d < lens@.len() ==> (#[trigger] idx.doc_terms@[d]@.contains(t)
                    <==> exists|i: int| 0 <= i < k && ps@[i].0 == t && docs_in(ps@[i].1@).contains((d + 1) as u32)),
            decreases ps@.len() - k,
        {
            let t = ps[k].0;
            let pl = &ps[k].1;
            let ghost plv = pl@;
            assert(postings_wf(ps@[k as int].1@, lens@));
            assert forall|i: int| 0 <= i < k implies (#[trigger] ps@[i]).0 != t by {
                assert(ps@[i].0 != ps@[k as int].0);
            }
            let ghost order_before = idx.term_order@;
            let ghost map_before = idx.postings_lists@;
            let mut m: usize = 0;
            while m < pl.len()
                invariant
                    ps@ == parts.postings@,
                    lens@ == parts.document_length@,
                ps@ == parts.postings@,
                lens@ == parts.document_length@,
                    idx.document_length@ == lens@,
                    idx.total_document_length == sum_lengths(lens@),
                    idx.term_order@ == order_before,
                    idx.postings_lists@ == map_before,
                    parts_valid(parts),
                    k < ps@.len(),
                    t == ps@[k as int].0,
                    plv == ps@[k as int].1@,
                    *pl == ps@[k as int].1,
                    postings_wf(plv, lens@),
                    m <= plv.len(),
                    idx.doc_terms@.len() == lens@.len(),
                    forall|i: int| 0 <= i < k ==> (#[trigger] ps@[i]).0 != t,
                    forall|d: int| 0 <= d < lens@.len() ==> (#[trigger] idx.doc_terms@[d])@.no_duplicates(),
                    forall|d: int, x: TermId| 0 <= d < lens@.len() ==> (#[trigger] idx.doc_terms@[d]@.contains(x)
                        <==> (exists|i: int| 0 <= i < k && ps@[i].0 == x && docs_in(ps@[i].1@).contains((d + 1) as u32))
                            || (x == t && exists|a: int| 0 <= a < m && #[trigger] plv[a].doc() == (d + 1) as u32)),
                decreases plv.len() - m,
            {
                let d = pl[m].doc_id;
                assert(posting_wf(plv[m as int], lens@));
                let di = (d - 1) as usize;
                let ghost before = idx.doc_terms@[di as int]@;
                assert(!before.contains(t)) by {
                    if before.contains(t) {
                        if exists|i: int| 0 <= i < k && ps@[i].0 == t && docs_in(ps@[i].1@).contains(d) {
                            let i = choose|i: int| 0 <= i < k && ps@[i].0 == t && docs_in(ps@[i].1@).contains(d);
                            assert(ps@[i].0 != t);
                        } else {
                            let a = choose|a: int| 0 <= a < m && #[trigger] plv[a].doc() == d;
                            assert(plv[a].doc() < plv[m as int].doc());
                        }
                    }
                }
                idx.doc_terms[di].push(t);
                proof {
                    let after = idx.doc_terms@[di as int]@;
                    assert(after == before.push(t));
                    assert forall|a: int, b: int| 0 <= a < b < after.len() implies after[a] != after[b] by {
                        if b == after.len() - 1 {
                            assert(after[a] == before[a]);
                            assert(before.contains(before[a]));
                        } else {
                            assert(after[a] == before[a] && after[b] == before[b]);
                        }
                    }
                    assert forall|e: int| 0 <= e < lens@.len() implies (#[trigger] idx.doc_terms@[e])@.no_duplicates() by {
                        if e != di {
                        } else {
                            assert(idx.doc_terms@[e]@ == after);
                        }
                    }
                    assert forall|e: int, x: TermId| 0 <= e < lens@.len() implies (#[trigger] idx.doc_terms@[e]@.contains(x)
                        <==> (exists|i: int| 0 <= i < k && ps@[i].0 == x && docs_in(ps@[i].1@).contains((e + 1) as u32))
                            || (x == t && exists|a: int| 0 <= a < m + 1 && #[trigger] plv[a].doc() == (e + 1) as u32)) by {
                        if e == di {
                            if after.contains(x) && x != t {
                                let q = choose|q: int| 0 <= q < after.len() && after[q] == x;
                                assert(before[q] == x);
                            }
                            if before.contains(x) {
                                let q = choose|q: int| 0 <= q < before.len() && before[q] == x;
                                assert(after[q] == x);
                            }
                            if x == t {
                                assert(after[after.len() - 1] == t);
                                assert(plv[m as int].doc() == (e + 1) as u32);
                            }
                        } else {
                            if x == t && exists|a: int| 0 <= a < m + 1 && #[trigger] plv[a].doc() == (e + 1) as u32 {
                                let a = choose|a: int| 0 <= a < m + 1 && #[trigger] plv[a].doc() == (e + 1) as u32;
                                assert(a != m);
                            }
                        }
                    }
                }
                m = m + 1;
            }
            let list = duplicate_list(pl);
            idx.postings_lists.insert(t, list);
            idx.term_order.push(t);
            proof {
                assert forall|x: TermId| #[trigger] idx.postings_lists@.contains_key(x) <==> exists|i: int| 0 <= i < k + 1 && ps@[i].0 == x by {
                    if x == t {
                        assert(ps@[k as int].0 == t);
                    }
                }
                assert forall|i: int| 0 <= i < k + 1 implies same_postings(idx.postings_lists@[(#[trigger] ps@[i]).0]@, ps@[i].1@) by {
                    if i < k {
                        assert(ps@[i].0 != t);
                    }
                }
                assert forall|d: int, x: TermId| 0 <= d < lens@.len() implies (#[trigger] idx.doc_terms@[d]@.contains(x)
                    <==> exists|i: int| 0 <= i < k + 1 && ps@[i].0 == x && docs_in(ps@[i].1@).contains((d + 1) as u32)) by {
                    if x == t && docs_in(plv).contains((d + 1) as u32) {
                        let a = choose|a: int| 0 <= a < plv.len() && #[trigger] plv[a].doc() == (d + 1) as u32;
                    }
                    if exists|i: int| 0 <= i < k + 1 && ps@[i].0 == x && docs_in(ps@[i].1@).contains((d + 1) as u32) {
                        let i = choose|i: int| 0 <= i < k + 1 && ps@[i].0 == x && docs_in(ps@[i].1@).contains((d + 1) as u32);
                        if i == k {
                            let a = choose|a: int| 0 <= a < plv.len() && #[trigger] plv[a].doc() == (d + 1) as u32;
                        }
                    }
                }
            }
            k = k + 1;
        }
        proof {
            let psv = ps@;
            assert forall|t: TermId| #[trigger] idx.postings_lists@.contains_key(t) implies postings_wf(idx.postings_lists@[t]@, idx.document_length@) by {
                let i = choose|i: int| 0 <= i < psv.len() && psv[i].0 == t;
                lemma_same_postings(idx.postings_lists@[t]@, psv[i].1@, lens@);
            }
            assert(idx.term_order@.no_duplicates()) by {
                assert forall|a: int, b: int| 0 <= a < idx.term_order@.len() && 0 <= b < idx.term_order@.len() && a != b
                    implies idx.term_order@[a] != idx.term_order@[b] by {
                    assert(psv[a].0 == idx.term_order@[a] && psv[b].0 == idx.term_order@[b]);
                }
            }
            assert forall|t: TermId| #[trigger] idx.term_order@.contains(t) <==> idx.postings_lists@.contains_key(t) by {
                if idx.term_order@.contains(t) {
                    let a = choose|a: int| 0 <= a < idx.term_order@.len() && idx.term_order@[a] == t;
                    assert(psv[a].0 == t);
                }
                if idx.postings_lists@.contains_key(t) {
                    let i = choose|i: int| 0 <= i < psv.len() && psv[i].0 == t;
                    assert(idx.term_order@[i] == t);
                }
            }
            assert forall|d: int, t: TermId| 0 <= d < lens@.len() implies (#[trigger] idx.doc_terms@[d]@.contains(t)
                <==> idx.positions_of(t, (d + 1) as u32).len() > 0) by {
                if idx.postings_lists@.contains_key(t) {
                    let i = choose|i: int| 0 <= i < psv.len() && psv[i].0 == t;
                    assert(postings_wf(psv[i].1@, lens@));
                    lemma_same_postings(idx.postings_lists@[t]@, psv[i].1@, lens@);
                    lemma_docs_in_list(idx.postings_lists@[t]@, lens@);
                    assert(idx.postings()[t] == idx.postings_lists@[t]@);
                    if idx.doc_terms@[d]@.contains(t) {
                        let i2 = choose|i2: int| 0 <= i2 < psv.len() && psv[i2].0 == t && docs_in(psv[i2].1@).contains((d + 1) as u32);
                        if i2 != i {
                            if i2 < i { assert(psv[i2].0 != psv[i].0); } else { assert(psv[i].0 != psv[i2].0); }
                        }
                    }
                } else {
                    assert(idx.positions_of(t, (d + 1) as u32) == Seq::<u32>::empty());
                    if idx.doc_terms@[d]@.contains(t) {
                        let i2 = choose|i2: int| 0 <= i2 < psv.len() && psv[i2].0 == t && docs_in(psv[i2].1@).contains((d + 1) as u32);
                    }
                }
            }
            assert(idx.wf());
            assert forall|i: int| 0 <= i < psv.len() implies idx.postings().contains_key((#[trigger] psv[i]).0)
                && same_postings(psv[i].1@, idx.postings()[psv[i].0]) by {
                let a = psv[i].1@;
                let b = idx.postings()[psv[i].0];
                assert(same_postings(b, a));
                assert forall|q: int| 0 <= q < a.len() implies {
                    &&& (#[trigger] a[q]).doc() == b[q].doc()
                    &&& a[q].offsets() == b[q].offsets()
                    &&& a[q].frequency() == b[q].frequency()
                } by {
                    assert(b[q].doc() == a[q].doc());
                }
            }
            assert forall|t: TermId| #[trigger] idx.postings().contains_key(t) implies exists|i: int| 0 <= i < psv.len() && psv[i].0 == t by {
                assert(idx.postings_lists@.contains_key(t));
            }
        }
        Some(idx)
    }
}

/// Lists with the same offsets hold the same number of occurrences.
pub proof fn lemma_same_total(a: Seq<Posting>, b: Seq<Posting>)
    requires
        same_postings(a, b),
    ensures
        total_frequency(a) == total_frequency(b),
    decreases a.len(),
{
    if a.len() > 0 {
        let pa = a.drop_last();
        let pb = b.drop_last();
        assert forall|i: int| 0 <= i < pa.len() implies {
            &&& (#[trigger] pa[i]).doc() == pb[i].doc()
            &&& pa[i].offsets() == pb[i].offsets()
            &&& pa[i].frequency() == pb[i].frequency()
        } by {
            assert(pa[i] == a[i] && pb[i] == b[i]);
        }
        lemma_same_total(pa, pb);
        assert(a[a.len() - 1].offsets() == b[b.len() - 1].offsets());
    }
}

impl PositionList {
    /// The document count leaves room for more identifiers.
    pub proof fn lemma_count_bound(&self)
        requires
            self.wf(),
        ensures
            self.document_count() < u32::MAX - 1,
    {
    }

    /// The terms of the index are listed once each.
    pub proof fn lemma_terms_distinct(&self)
        requires
            self.wf(),
        ensures
            self.terms().no_duplicates(),
    {
    }
}

} // verus!
