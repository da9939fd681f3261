//! Properties that hold of every well-formed index.
use vstd::prelude::*;
use crate::common::{DocId, TermId};
use crate::index::{
    describes, doc_phrase_lists, lemma_same_postings, lemma_same_total, parts_valid, postings_wf, same_postings, sum_lengths,
    IndexParts, PositionList,
};
use crate::phrase::is_all_occurrences;
use crate::positions::{is_next, is_prev, strictly_increasing};
use crate::engine::{engine_describes, Engine, EngineParts};

verus! {

/// The offsets recorded for a term in a document are strictly increasing.
pub proof fn lemma_positions_increasing(idx: PositionList, t: TermId, d: DocId)
    requires
        idx.wf(),
    ensures
        strictly_increasing(idx.positions_of(t, d)),
{
    idx.lemma_positions_wf(t, d);
}

/// Every posting's recorded term frequency is the number of its offsets.
pub proof fn lemma_term_frequency_counts(idx: PositionList, t: TermId)
    requires
        idx.wf(),
    ensures
        idx.postings().contains_key(t) ==> forall|i: int| 0 <= i < idx.postings()[t].len()
            ==> (#[trigger] idx.postings()[t][i]).frequency() == idx.postings()[t][i].offsets().len(),
        idx.postings().contains_key(t) ==> forall|i: int| 0 <= i < idx.postings()[t].len()
            ==> (#[trigger] idx.postings()[t][i]).offsets() == idx.positions_of(t, idx.postings()[t][i].doc()),
{
    idx.lemma_postings_wf(t);
}

/// The document frequency of a term is the number of documents in which it occurs.
pub proof fn lemma_document_frequency(idx: PositionList, t: TermId)
    requires
        idx.wf(),
    ensures
        idx.document_frequency(t) == Set::new(|d: DocId| idx.positions_of(t, d).len() > 0).len(),
{
    idx.lemma_document_frequency_set(t);
}

/// The stored total length is the sum of the document lengths.
pub proof fn lemma_total_length(idx: PositionList)
    requires
        idx.wf(),
    ensures
        idx.total_length() == sum_lengths(idx.lengths()),
{
    idx.lemma_total();
}

/// Each match reported for a phrase spans exactly the phrase's length, with its
/// `i`-th term at the match's start plus `i`.
pub proof fn lemma_phrase_match_sound(idx: PositionList, d: DocId, phrase: Seq<TermId>, r: Seq<(u32, u32)>)
    requires
        idx.wf(),
        is_all_occurrences(doc_phrase_lists(idx, d, phrase), r),
    ensures
        forall|j: int| 0 <= j < r.len() ==> #[trigger] r[j].1 - r[j].0 == phrase.len() - 1,
        forall|j: int, i: int| 0 <= j < r.len() && 0 <= i < phrase.len()
            ==> #[trigger] idx.positions_of(phrase[i], d).contains((r[j].0 + i) as u32),
{
    assert forall|j: int, i: int| 0 <= j < r.len() && 0 <= i < phrase.len()
        implies #[trigger] idx.positions_of(phrase[i], d).contains((r[j].0 + i) as u32) by {
        let ls = doc_phrase_lists(idx, d, phrase);
        assert(crate::phrase::occurs_at(ls, r[j].0));
        assert(ls[i].contains((r[j].0 + i) as u32));
    }
}

/// Searching forward from just before a term's first offset finds that offset.
pub proof fn lemma_next_from_before_first(idx: PositionList, t: TermId, d: DocId)
    requires
        idx.wf(),
        idx.positions_of(t, d).len() > 0,
    ensures
        forall|r: Option<u32>| #[trigger] is_next(idx.positions_of(t, d), (idx.positions_of(t, d)[0] - 1) as u32, r)
            ==> r == Some(idx.positions_of(t, d)[0]),
{
    let p = idx.positions_of(t, d);
    idx.lemma_positions_wf(t, d);
    assert forall|r: Option<u32>| #[trigger] is_next(p, (p[0] - 1) as u32, r) implies r == Some(p[0]) by {
        assert(p.contains(p[0]));
        if let Some(x) = r {
            let k = choose|k: int| 0 <= k < p.len() && p[k] == x;
            assert(k == 0 || p[0] < p[k]);
        }
    }
}

/// Searching backward from just after a term's last offset finds that offset.
pub proof fn lemma_prev_from_after_last(idx: PositionList, t: TermId, d: DocId)
    requires
        idx.wf(),
        idx.positions_of(t, d).len() > 0,
    ensures
        forall|r: Option<u32>| #[trigger] is_prev(idx.positions_of(t, d), (idx.positions_of(t, d).last() + 1) as u32, r)
            ==> r == Some(idx.positions_of(t, d).last()),
{
    let p = idx.positions_of(t, d);
    idx.lemma_positions_wf(t, d);
    let n = p.len() - 1;
    assert forall|r: Option<u32>| #[trigger] is_prev(p, (p.last() + 1) as u32, r) implies r == Some(p.last()) by {
        assert(p.contains(p[n]));
        if let Some(x) = r {
            let k = choose|k: int| 0 <= k < p.len() && p[k] == x;
            assert(k == n || p[k] < p[n]);
        }
    }
}

/// Storing an index and restoring it from the stored parts yields an index that
/// answers every query as the stored index does: the same document lengths, the same
/// postings, and so the same offsets for every term in every document.
pub proof fn lemma_store_restore(idx: PositionList, parts: IndexParts, restored: PositionList)
    requires
        idx.wf(),
        describes(&parts, idx),
        restored.wf(),
        describes(&parts, restored),
    ensures
        parts_valid(&parts),
        restored.lengths() == idx.lengths(),
        restored.terms() == idx.terms(),
        restored.document_count() == idx.document_count(),
        restored.total_length() == idx.total_length(),
        forall|t: TermId, d: DocId| #[trigger] restored.positions_of(t, d) == idx.positions_of(t, d),
        forall|t: TermId| #[trigger] restored.document_frequency(t) == idx.document_frequency(t),
        forall|t: TermId| #[trigger] restored.term_occurrences(t) == idx.term_occurrences(t),
        forall|t: TermId| #[trigger] restored.docs_of(t) == idx.docs_of(t),
        forall|d: DocId, phrase: Seq<TermId>| #[trigger] restored.phrase_count(d, phrase) == idx.phrase_count(d, phrase),
{
    let ps = parts.postings@;
    assert forall|i: int| 0 <= i < restored.terms().len() implies restored.terms()[i] == idx.terms()[i] by {
        assert(ps[i].0 == restored.terms()[i]);
    }
    assert(restored.terms() =~= idx.terms());
    assert forall|t: TermId| #[trigger] restored.postings().contains_key(t) == idx.postings().contains_key(t) by {
        if restored.postings().contains_key(t) {
            let i = choose|i: int| 0 <= i < ps.len() && ps[i].0 == t;
        }
        if idx.postings().contains_key(t) {
            let i = choose|i: int| 0 <= i < ps.len() && ps[i].0 == t;
        }
    }
    assert forall|t: TermId| restored.postings().contains_key(t) implies
        same_postings(restored.postings()[t], idx.postings()[t]) by {
        let i = choose|i: int| 0 <= i < ps.len() && ps[i].0 == t;
        let a = restored.postings()[t];
        let b = idx.postings()[t];
        assert(same_postings(ps[i].1@, a));
        assert(same_postings(ps[i].1@, b));
        assert forall|q: int| 0 <= q < a.len() implies {
            &&& (#[trigger] a[q]).doc() == b[q].doc()
            &&& a[q].offsets() == b[q].offsets()
            &&& a[q].frequency() == b[q].frequency()
        } by {
            assert(ps[i].1@[q].doc() == a[q].doc());
        }
    }
    assert forall|t: TermId, d: DocId| #[trigger] restored.positions_of(t, d) == idx.positions_of(t, d) by {
        if restored.postings().contains_key(t) {
            restored.lemma_postings_wf(t);
            lemma_same_postings(restored.postings()[t], idx.postings()[t], idx.lengths());
        }
    }
    assert forall|t: TermId| #[trigger] restored.term_occurrences(t) == idx.term_occurrences(t) by {
        if restored.postings().contains_key(t) {
            lemma_same_total(restored.postings()[t], idx.postings()[t]);
        }
    }
    assert forall|t: TermId| #[trigger] restored.docs_of(t) == idx.docs_of(t) by {
        assert(restored.docs_of(t) =~= idx.docs_of(t));
    }
    assert forall|d: DocId, phrase: Seq<TermId>| #[trigger] restored.phrase_count(d, phrase) == idx.phrase_count(d, phrase) by {
        assert(doc_phrase_lists(restored, d, phrase) =~= doc_phrase_lists(idx, d, phrase));
    }
    restored.lemma_total();
    idx.lemma_total();
    assert forall|i: int| 0 <= i < ps.len() implies postings_wf((#[trigger] ps[i]).1@, parts.document_length@) by {
        idx.lemma_postings_wf(ps[i].0);
        lemma_same_postings(ps[i].1@, idx.postings()[ps[i].0], idx.lengths());
    }
    assert forall|i: int, j: int| 0 <= i < j < ps.len() implies ps[i].0 != ps[j].0 by {
        idx.lemma_terms_distinct();
    }
    idx.lemma_count_bound();
}


/// Storing an engine and restoring it from the stored parts yields an engine that
/// answers every query as the stored engine does: the same terms and language, so
/// the same query terms; the same index, so the same phrase matches and candidate
/// documents; and the same path for every document.
pub proof fn lemma_engine_store_restore(e: Engine, parts: EngineParts, restored: Engine)
    requires
        e.wf(),
        engine_describes(&parts, e),
        restored.wf(),
        engine_describes(&parts, restored),
    ensures
        restored.analyzer().terms() == e.analyzer().terms(),
        restored.analyzer().language() == e.analyzer().language(),
        restored.analyzer().detected() == e.analyzer().detected(),
        restored.paths() == e.paths(),
        restored.index().lengths() == e.index().lengths(),
        restored.index().total_length() == e.index().total_length(),
        forall|t: TermId, d: DocId| #[trigger] restored.index().positions_of(t, d) == e.index().positions_of(t, d),
        forall|t: TermId| #[trigger] restored.index().docs_of(t) == e.index().docs_of(t),
        forall|t: TermId| #[trigger] restored.index().document_frequency(t) == e.index().document_frequency(t),
        forall|t: TermId| #[trigger] restored.index().term_occurrences(t) == e.index().term_occurrences(t),
        forall|d: DocId, phrase: Seq<TermId>| #[trigger] restored.index().phrase_count(d, phrase) == e.index().phrase_count(d, phrase),
{
    e.lemma_wf();
    restored.lemma_wf();
    lemma_store_restore(e.index(), parts.index, restored.index());
}

} // verus!
