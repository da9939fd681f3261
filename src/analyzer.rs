//! Turning text into term identifiers: language detection, normalisation,
//! segmentation and the term dictionary.
use vstd::prelude::*;
use crate::common::TermId;
use crate::dictionary::{add_terms, known_terms, names, unknown_terms, Dictionary, DictionarySummary};
use crate::tokenizer::{tokens_of, Language, Segmentator};

verus! {

/// The language detector, choosing between English and Mandarin, picks Mandarin for the text.
pub uninterp spec fn detected_chinese(s: Seq<char>) -> bool;

/// Relies on whatlang's `Detector::with_allowlist` over English and Mandarin and its
/// `detect_lang`: whether the detected language is Mandarin, which depends on the
/// characters alone.
#[verifier::external_body]
fn detect_chinese(text: &str) -> (r: bool)
    ensures
        r == detected_chinese(text@),
{
    let detector = whatlang::Detector::with_allowlist(vec![whatlang::Lang::Eng, whatlang::Lang::Cmn]);
    matches!(detector.detect_lang(text), Some(whatlang::Lang::Cmn))
}

/// Summary of an analyzer.
pub struct AnalyzerStats {
    pub dict: DictionarySummary,
    pub lang: String,
}

/// Turns text into term identifiers. The language is detected once, on the first
/// text analysed.
pub struct Analyzer {
    dict: Dictionary,
    seg: Segmentator,
    lang_detected: bool,
}

impl Analyzer {
    /// The terms known so far, in identifier order.
    pub closed spec fn terms(&self) -> Seq<Seq<char>> {
        self.dict@
    }

    /// The language texts are segmented for.
    pub closed spec fn language(&self) -> Language {
        self.seg.language()
    }

    /// Whether the language has been detected already.
    pub closed spec fn detected(&self) -> bool {
        self.lang_detected
    }

    /// The dictionary is consistent.
    pub closed spec fn wf(&self) -> bool {
        self.dict.wf()
    }

    /// An analyzer for English with an empty dictionary.
    pub fn new() -> (r: Self)
        ensures
            r.wf(),
            r.terms() == Seq::<Seq<char>>::empty(),
            r.language() == Language::English,
            !r.detected(),
    {
        Analyzer { dict: Dictionary::new(), seg: Segmentator::new(), lang_detected: false }
    }

    /// An analyzer with the given terms, language and detection state; `None` when
    /// the terms do not form a dictionary.
    pub fn from_parts(terms: &Vec<String>, lang: Language, lang_detected: bool) -> (r: Option<Self>)
        ensures
            r is Some <==> crate::dictionary::distinct_terms(terms@.map_values(|s: String| s@)) && terms@.len() < u32::MAX,
            r matches Some(a) ==> a.wf() && a.terms() == terms@.map_values(|s: String| s@) && a.language() == lang
                && a.detected() == lang_detected,
    {
        match Dictionary::from_terms(terms) {
            Some(dict) => {
                let mut seg = Segmentator::new();
                seg.set_language(lang);
                Some(Analyzer { dict, seg, lang_detected })
            },
            None => None,
        }
    }

    /// Whether the language has been detected already.
    pub fn is_language_detected(&self) -> (r: bool)
        ensures
            r == self.detected(),
    {
        self.lang_detected
    }

    /// On the first call only, switches to Chinese when the detector finds Mandarin.
    pub fn detect_language(&mut self, doc_content: &str)
        ensures
            final(self).terms() == old(self).terms(),
            final(self).wf() == old(self).wf(),
            final(self).detected(),
            old(self).detected() ==> final(self).language() == old(self).language(),
            !old(self).detected() ==> final(self).language() == if detected_chinese(doc_content@) {
                Language::Chinese
            } else {
                old(self).language()
            },
    {
        if !self.lang_detected {
            if detect_chinese(doc_content) {
                self.set_language(Language::Chinese);
            }
            self.lang_detected = true;
        }
    }

    /// Sets the language.
    pub fn set_language(&mut self, lang: Language)
        ensures
            final(self).language() == lang,
            final(self).terms() == old(self).terms(),
            final(self).wf() == old(self).wf(),
            final(self).detected() == old(self).detected(),
    {
        self.seg.set_language(lang)
    }

    /// The language.
    pub fn get_language(&self) -> (r: Language)
        ensures
            r == self.language(),
    {
        self.seg.get_language()
    }

    /// The dictionary.
    pub fn get_dictionary(&self) -> (r: &Dictionary)
        requires
            self.wf(),
        ensures
            r.wf(),
            r@ == self.terms(),
    {
        &self.dict
    }

    /// The tokens of a text in the current language.
    fn tokens(&self, text: &str) -> (r: Vec<String>)
        ensures
            r@.map_values(|w: String| w@) == tokens_of(self.language(), text@),
    {
        let normalized = self.seg.normalize(text);
        self.seg.parse_tokens(normalized.as_str())
    }

    /// Identifiers of the tokens of `text`, adding new terms to the dictionary. The
    /// language is detected first if it has not been. `None`, with the dictionary
    /// unchanged, when the new terms would not fit the identifier range.
    pub fn analyze(&mut self, text: &str) -> (r: Option<Vec<TermId>>)
        requires
            old(self).wf(),
        ensures
            final(self).wf(),
            final(self).detected(),
            !old(self).detected() ==> final(self).language() == if detected_chinese(text@) {
                Language::Chinese
            } else {
                old(self).language()
            },
            old(self).detected() ==> final(self).language() == old(self).language(),
            r is None <==> old(self).terms().len() + tokens_of(final(self).language(), text@).len() >= u32::MAX - 1,
            r is None ==> final(self).terms() == old(self).terms(),
            r matches Some(ids) ==> {
                let toks = tokens_of(final(self).language(), text@);
                &&& final(self).terms() == add_terms(old(self).terms(), toks)
                &&& ids@.len() == toks.len()
                &&& forall|i: int| 0 <= i < ids@.len() ==> names(final(self).terms(), #[trigger] ids@[i], toks[i])
            },
    {
        self.detect_language(text);
        let tokens = self.tokens(text);
        let ghost toks = tokens@.map_values(|w: String| w@);
        proof {
            self.dict.lemma_distinct();
        }
        if tokens.len() >= (u32::MAX - 1) as usize - self.dict.get_term_count() {
            return None;
        }
        let mut refs: Vec<&str> = Vec::new();
        let mut i: usize = 0;
        while i < tokens.len()
            invariant
                i <= tokens@.len(),
                refs@.len() == i,
                forall|k: int| 0 <= k < i ==> (#[trigger] refs@[k])@ == tokens@[k]@,
            decreases tokens@.len() - i,
        {
            refs.push(tokens[i].as_str());
            i = i + 1;
        }
        assert(crate::dictionary::token_views(refs@) =~= toks);
        let ids = self.dict.generate_ids(&refs);
        Some(ids)
    }

    /// Identifiers of the known tokens of `text`, in order, and the unknown tokens,
    /// in order. The dictionary is left as it is.
    pub fn parse(&self, text: &str) -> (r: (Vec<TermId>, Vec<String>))
        requires
            self.wf(),
        ensures
            ({
                let toks = tokens_of(self.language(), text@);
                &&& r.0@.len() == known_terms(self.terms(), toks).len()
                &&& forall|i: int| 0 <= i < r.0@.len() ==> names(self.terms(), #[trigger] r.0@[i], known_terms(self.terms(), toks)[i])
                &&& r.1@.map_values(|s: String| s@) == unknown_terms(self.terms(), toks)
            }),
    {
        let tokens = self.tokens(text);
        let ghost toks = tokens@.map_values(|w: String| w@);
        let mut refs: Vec<&str> = Vec::new();
        let mut i: usize = 0;
        while i < tokens.len()
            invariant
                i <= tokens@.len(),
                refs@.len() == i,
                forall|k: int| 0 <= k < i ==> (#[trigger] refs@[k])@ == tokens@[k]@,
            decreases tokens@.len() - i,
        {
            refs.push(tokens[i].as_str());
            i = i + 1;
        }
        assert(crate::dictionary::token_views(refs@) =~= toks);
        self.dict.get_ids(&refs)
    }

    /// Number of terms and the language's name.
    pub fn stats(&self) -> (r: AnalyzerStats)
        requires
            self.wf(),
        ensures
            r.dict.term_count == self.terms().len(),
            self.language() == Language::English ==> r.lang@ == "English"@,
            self.language() == Language::Chinese ==> r.lang@ == "Chinese"@,
    {
        let lang = match self.seg.get_language() {
            Language::English => "English".to_string(),
            Language::Chinese => "Chinese".to_string(),
        };
        AnalyzerStats { dict: self.dict.summary(), lang }
    }

    /// The term named `tid`, or the empty string.
    pub fn get_term_by_id(&self, tid: TermId) -> (r: String)
        requires
            self.wf(),
        ensures
            1 <= tid <= self.terms().len() ==> r@ == self.terms()[tid - 1],
            !(1 <= tid <= self.terms().len()) ==> r@ == Seq::<char>::empty(),
    {
        self.dict.get_term_by_id(tid)
    }
}

/// Turning a query string into term identifiers.
pub struct Query {}

impl Query {
    /// Identifiers of the known terms of `phrase`. When unknown terms may not be
    /// ignored and the phrase has one, the result is empty.
    pub fn parse(phrase: &str, ignore_non_exist_term: bool, analyzer: &Analyzer) -> (r: Vec<TermId>)
        requires
            analyzer.wf(),
        ensures
            ({
                let toks = tokens_of(analyzer.language(), phrase@);
                let known = known_terms(analyzer.terms(), toks);
                if !ignore_non_exist_term && unknown_terms(analyzer.terms(), toks).len() > 0 {
                    r@.len() == 0
                } else {
                    &&& r@.len() == known.len()
                    &&& forall|i: int| 0 <= i < r@.len() ==> names(analyzer.terms(), #[trigger] r@[i], known[i])
                }
            }),
    {
        let (term_ids, unknown) = analyzer.parse(phrase);
        if !ignore_non_exist_term && unknown.len() > 0 {
            return Vec::new();
        }
        term_ids
    }
}

} // verus!
