//! The engine core: an index, the analyzer that feeds it, and the path of each document.
use vstd::prelude::*;
use std::collections::HashMap;
use crate::analyzer::{Analyzer, Query};
use crate::common::{DocId, RankingAlgorithm, TermId};
use crate::doc::Document;
use crate::index::{occurrences, IndexParts, PositionList};
use crate::tokenizer::{tokens_of, Language};

verus! {

broadcast use vstd::std_specs::hash::group_hash_axioms;

/// The stored form of an engine.
pub struct EngineParts {
    pub index: IndexParts,
    pub terms: Vec<String>,
    pub language: Language,
    pub language_detected: bool,
    pub doc_meta: Vec<(DocId, String)>,
}

/// An index together with the analyzer that feeds it and the path of each document.
pub struct Engine {
    index: PositionList,
    analyzer: Analyzer,
    doc_meta: HashMap<DocId, String>,
}

impl Engine {
    /// The index.
    pub closed spec fn index(&self) -> PositionList {
        self.index
    }

    /// The analyzer.
    pub closed spec fn analyzer(&self) -> Analyzer {
        self.analyzer
    }

    /// The path of each document.
    pub closed spec fn paths(&self) -> Map<DocId, Seq<char>> {
        self.doc_meta@.map_values(|s: String| s@)
    }

    /// The index and analyzer are consistent, and paths belong to documents of the index.
    pub closed spec fn wf(&self) -> bool {
        &&& self.index.wf()
        &&& self.analyzer.wf()
        &&& forall|d: DocId| #[trigger] self.doc_meta@.contains_key(d) ==> 1 <= d <= self.index.document_count()
    }

    /// An empty engine.
    pub fn new() -> (r: Self)
        ensures
            r.wf(),
            r.index().document_count() == 0,
            r.paths() == Map::<DocId, Seq<char>>::empty(),
    {
        let r = Engine { index: PositionList::new(), analyzer: Analyzer::new(), doc_meta: HashMap::new() };
        assert(r.paths() =~= Map::<DocId, Seq<char>>::empty());
        r
    }

    /// Number of documents indexed.
    pub fn doc_count(&self) -> (r: usize)
        requires
            self.wf(),
        ensures
            r == self.index().document_count(),
    {
        self.index.get_document_count()
    }

    /// The index.
    pub fn get_index(&self) -> (r: &PositionList)
        requires
            self.wf(),
        ensures
            r.wf(),
            *r == self.index(),
    {
        &self.index
    }

    /// The analyzer.
    pub fn get_analyzer(&self) -> (r: &Analyzer)
        requires
            self.wf(),
        ensures
            r.wf(),
            *r == self.analyzer(),
    {
        &self.analyzer
    }

    /// Analyses a document, adds it to the index and remembers its path. `None`, with
    /// the index and paths unchanged, exactly when the index holds as many documents
    /// as identifiers allow, or the document's new terms would not fit the term
    /// identifier range.
    pub fn add_document(&mut self, doc: &Document) -> (r: Option<DocId>)
        requires
            old(self).wf(),
        ensures
            final(self).wf(),
            r is None <==> old(self).index().document_count() >= u32::MAX - 3
                || old(self).analyzer().terms().len() + tokens_of(final(self).analyzer().language(), doc.content()).len() >= u32::MAX - 1,
            r is None ==> final(self).index() == old(self).index() && final(self).paths() == old(self).paths(),
            r matches Some(d) ==> {
                let toks = tokens_of(final(self).analyzer().language(), doc.content());
                &&& d == old(self).index().document_count() + 1
                &&& final(self).index().lengths() == old(self).index().lengths().push(toks.len() as u32)
                &&& final(self).paths() == old(self).paths().insert(d, doc.path())
                &&& forall|t: TermId, e: DocId| e != d ==> #[trigger] final(self).index().positions_of(t, e) == old(self).index().positions_of(t, e)
                &&& exists|ids: Seq<TermId>| {
                    &&& ids.len() == toks.len()
                    &&& forall|i: int| 0 <= i < ids.len() ==> crate::dictionary::names(final(self).analyzer().terms(), #[trigger] ids[i], toks[i])
                    &&& forall|t: TermId| #[trigger] final(self).index().positions_of(t, d) == occurrences(ids, t)
                }
            },
    {
        if self.index.get_document_count() >= (u32::MAX - 3) as usize {
            return None;
        }
        match self.analyzer.analyze(doc.get_content()) {
            None => None,
            Some(term_ids) => {
                if term_ids.len() >= u32::MAX as usize {
                    return None;
                }
                let d = self.index.add_document(&term_ids);
                self.doc_meta.insert(d, doc.get_path().to_owned());
                assert(self.paths() =~= old(self).paths().insert(d, doc.path()));
                assert(term_ids@.len() == tokens_of(self.analyzer().language(), doc.content()).len());
                Some(d)
            },
        }
    }

    /// The identifiers of a query's terms. For an exact match any unknown term
    /// empties the query; the ranked algorithms drop unknown terms.
    pub fn query_terms(&self, phrase: &str, ranking: RankingAlgorithm) -> (r: Vec<TermId>)
        requires
            self.wf(),
        ensures
            ({
                let toks = tokens_of(self.analyzer().language(), phrase@);
                let known = crate::dictionary::known_terms(self.analyzer().terms(), toks);
                if ranking == RankingAlgorithm::ExactMatch && crate::dictionary::unknown_terms(self.analyzer().terms(), toks).len() > 0 {
                    r@.len() == 0
                } else {
                    &&& r@.len() == known.len()
                    &&& forall|i: int| 0 <= i < r@.len() ==> crate::dictionary::names(self.analyzer().terms(), #[trigger] r@[i], known[i])
                }
            }),
    {
        let ignore_non_exist_term = match ranking {
            RankingAlgorithm::ExactMatch => false,
            _ => true,
        };
        Query::parse(phrase, ignore_non_exist_term, &self.analyzer)
    }

    /// Documents where the phrase occurs, the most occurrences first.
    pub fn exact_match(&self, term_ids: &Vec<TermId>) -> (r: Vec<DocId>)
        requires
            self.wf(),
        ensures
            forall|i: int, j: int| 0 <= i < j < r@.len() ==> r@[i] != r@[j],
            forall|i: int, j: int| 0 <= i < j < r@.len() ==>
                self.index().phrase_count(r@[i], term_ids@) >= self.index().phrase_count(r@[j], term_ids@),
            forall|d: DocId| #[trigger] self.index().phrase_count(d, term_ids@) > 0 <==> r@.contains(d),
    {
        let hits = self.index.search_phrase(term_ids);
        let mut docs: Vec<DocId> = Vec::new();
        let mut i: usize = 0;
        while i < hits.len()
            invariant
                i <= hits@.len(),
                docs@.len() == i,
                forall|k: int| 0 <= k < i ==> #[trigger] docs@[k] == hits@[k].0,
            decreases hits@.len() - i,
        {
            docs.push(hits[i].0);
            i = i + 1;
        }
        assert forall|d: DocId| #[trigger] self.index().phrase_count(d, term_ids@) > 0 <==> docs@.contains(d) by {
            if docs@.contains(d) {
                let k = choose|k: int| 0 <= k < docs@.len() && docs@[k] == d;
                assert(hits@[k].0 == d);
            }
            if self.index().phrase_count(d, term_ids@) > 0 {
                let k = choose|k: int| 0 <= k < hits@.len() && hits@[k].0 == d;
                assert(docs@[k] == d);
            }
        }
        assert forall|i: int, j: int| 0 <= i < j < docs@.len() implies
            self.index().phrase_count(docs@[i], term_ids@) >= self.index().phrase_count(docs@[j], term_ids@) by {
            assert(hits@[i].1 >= hits@[j].1);
        }
        docs
    }

    /// The paths of the given documents, in order; documents without one are skipped.
    pub fn resolve(&self, docs: &Vec<DocId>) -> (r: Vec<String>)
        requires
            self.wf(),
        ensures
            r@.map_values(|s: String| s@) == known_paths(self.paths(), docs@),
    {
        let mut out: Vec<String> = Vec::new();
        let mut i: usize = 0;
        while i < docs.len()
            invariant
                i <= docs@.len(),
                out@.map_values(|s: String| s@) == known_paths(self.paths(), docs@.subrange(0, i as int)),
            decreases docs@.len() - i,
        {
            let ghost prev = docs@.subrange(0, i as int);
            assert(docs@.subrange(0, i + 1).drop_last() == prev);
            match self.doc_meta.get(&docs[i]) {
                Some(p) => {
                    out.push(p.clone());
                    assert(out@.map_values(|s: String| s@) =~= known_paths(self.paths(), prev).push(self.paths()[docs@[i as int]]));
                },
                None => {},
            }
            i = i + 1;
        }
        assert(docs@.subrange(0, i as int) == docs@);
        out
    }

    /// The index and analyzer of a consistent engine are consistent.
    pub proof fn lemma_wf(&self)
        requires
            self.wf(),
        ensures
            self.index().wf(),
            self.analyzer().wf(),
    {
    }

    /// The stored form of this engine, which `from_parts` accepts.
    pub fn to_parts(&self) -> (r: EngineParts)
        requires
            self.wf(),
        ensures
            engine_describes(&r, *self),
            engine_parts_valid(&r),
    {
        let n = self.index.get_document_count();
        proof {
            self.index.lemma_count_bound();
        }
        let mut meta: Vec<(DocId, String)> = Vec::new();
        let mut d: usize = 1;
        while d <= n
            invariant
                self.wf(),
                n == self.index().document_count(),
                n < u32::MAX - 1,
                1 <= d <= n + 1,
                forall|i: int| 0 <= i < meta@.len() ==> 1 <= (#[trigger] meta@[i]).0 < d,
                forall|e: DocId| #[trigger] meta_map(meta@).contains_key(e) <==> (self.paths().contains_key(e) && e < d),
                forall|e: DocId| #[trigger] meta_map(meta@).contains_key(e) ==> meta_map(meta@)[e] == self.paths()[e],
            decreases n + 1 - d,
        {
            let id = d as DocId;
            match self.doc_meta.get(&id) {
                Some(p) => {
                    let ghost before = meta@;
                    meta.push((id, p.clone()));
                    assert(meta@.drop_last() == before);
                    assert(meta_map(meta@) == meta_map(before).insert(id, p@));
                    assert(self.paths().contains_key(id) && self.paths()[id] == p@);
                },
                None => {
                    assert(!self.paths().contains_key(id));
                },
            }
            d = d + 1;
        }
        assert(meta_map(meta@) =~= self.paths()) by {
            assert forall|e: DocId| #[trigger] self.paths().contains_key(e) implies e < d by {
                assert(self.doc_meta@.contains_key(e));
            }
        }
        let ghost meta_view = meta@;
        let dict = self.analyzer.get_dictionary();
        proof {
            dict.lemma_distinct();
        }
        let r = EngineParts {
            index: self.index.to_parts(),
            terms: dict.terms().clone(),
            language: self.analyzer.get_language(),
            language_detected: self.analyzer.is_language_detected(),
            doc_meta: meta,
        };
        assert(r.doc_meta@ == meta_view);
        assert(r.index.document_length@.len() == n);
        r
    }

    /// The engine that stored parts describe; `None` exactly when the parts are not
    /// valid: the index or dictionary parts are ill formed, or a path names no
    /// document of the index.
    pub fn from_parts(parts: &EngineParts) -> (r: Option<Engine>)
        ensures
            r is Some <==> engine_parts_valid(parts),
            r matches Some(e) ==> e.wf() && engine_describes(parts, e),
    {
        let index = match PositionList::from_parts(&parts.index) {
            Some(x) => x,
            None => return None,
        };
        let analyzer = match Analyzer::from_parts(&parts.terms, parts.language, parts.language_detected) {
            Some(a) => a,
            None => return None,
        };
        let n = index.get_document_count();
        let mut doc_meta: HashMap<DocId, String> = HashMap::new();
        let mut i: usize = 0;
        while i < parts.doc_meta.len()
            invariant
                index.wf(),
                n == index.document_count() == parts.index.document_length@.len(),
                i <= parts.doc_meta@.len(),
                forall|k: int| 0 <= k < i ==> 1 <= (#[trigger] parts.doc_meta@[k]).0 <= n,
                forall|d: DocId| #[trigger] doc_meta@.contains_key(d) ==> 1 <= d <= n,
                doc_meta@.map_values(|s: String| s@) == meta_map(parts.doc_meta@.subrange(0, i as int)),
            decreases parts.doc_meta@.len() - i,
        {
            let d = parts.doc_meta[i].0;
            if d < 1 || (d as usize) > n {
                return None;
            }
            doc_meta.insert(d, parts.doc_meta[i].1.clone());
            proof {
                assert(parts.doc_meta@.subrange(0, i + 1).drop_last() == parts.doc_meta@.subrange(0, i as int));
                assert(doc_meta@.map_values(|s: String| s@) =~= meta_map(parts.doc_meta@.subrange(0, i + 1)));
            }
            i = i + 1;
        }
        assert(parts.doc_meta@.subrange(0, i as int) == parts.doc_meta@);
        let e = Engine { index, analyzer, doc_meta };
        assert(e.paths() == meta_map(parts.doc_meta@));
        Some(e)
    }
}

/// The paths that stored (document, path) pairs give; a later pair for the same
/// document replaces an earlier one.
pub open spec fn meta_map(meta: Seq<(DocId, String)>) -> Map<DocId, Seq<char>>
    decreases meta.len(),
{
    if meta.len() == 0 {
        Map::empty()
    } else {
        meta_map(meta.drop_last()).insert(meta.last().0, meta.last().1@)
    }
}

/// Stored parts describe a consistent engine.
pub open spec fn engine_parts_valid(parts: &EngineParts) -> bool {
    &&& crate::index::parts_valid(&parts.index)
    &&& crate::dictionary::distinct_terms(parts.terms@.map_values(|s: String| s@))
    &&& parts.terms@.len() < u32::MAX
    &&& forall|i: int| 0 <= i < parts.doc_meta@.len() ==> 1 <= (#[trigger] parts.doc_meta@[i]).0 <= parts.index.document_length@.len()
}

/// `e` is the engine that `parts` describe.
pub open spec fn engine_describes(parts: &EngineParts, e: Engine) -> bool {
    &&& crate::index::describes(&parts.index, e.index())
    &&& parts.terms@.map_values(|s: String| s@) == e.analyzer().terms()
    &&& parts.language == e.analyzer().language()
    &&& parts.language_detected == e.analyzer().detected()
    &&& meta_map(parts.doc_meta@) == e.paths()
}

/// The paths of the documents that have one, in order.
pub open spec fn known_paths(paths: Map<DocId, Seq<char>>, docs: Seq<DocId>) -> Seq<Seq<char>>
    decreases docs.len(),
{
    if docs.len() == 0 {
        Seq::empty()
    } else if paths.contains_key(docs.last()) {
        known_paths(paths, docs.drop_last()).push(paths[docs.last()])
    } else {
        known_paths(paths, docs.drop_last())
    }
}

} // verus!
