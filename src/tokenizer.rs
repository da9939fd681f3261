//! Splitting text into tokens: Unicode word boundaries for Latin scripts,
//! dictionary-based segmentation for Chinese.
use vstd::prelude::*;
use unicode_segmentation::UnicodeSegmentation;

verus! {

/// The language a segmenter is set up for.
#[derive(Clone, Copy, Debug, PartialEq, Eq, Structural)]
pub enum Language {
    English,
    Chinese,
}

#[verifier::external_type_specification]
#[verifier::external_body]
pub struct ExJieba(jieba_rs::Jieba);

/// The text in lower case.
pub uninterp spec fn lower_of(s: Seq<char>) -> Seq<char>;

/// The words of the text on Unicode word boundaries.
pub uninterp spec fn words_of(s: Seq<char>) -> Seq<Seq<char>>;

/// The pieces the Chinese segmenter cuts the text into, with its default dictionary.
pub uninterp spec fn cut_of(s: Seq<char>) -> Seq<Seq<char>>;

/// The character has the Unicode `Alphabetic` property.
pub uninterp spec fn alphabetic(c: char) -> bool;

/// Relies on `str::to_lowercase`: the lower-case form depends on the characters alone.
#[verifier::external_body]
pub(crate) fn lowercase(s: &str) -> (r: String)
    ensures
        r@ == lower_of(s@),
        s@.len() == 0 ==> r@.len() == 0,
{
    s.to_lowercase()
}

/// Relies on `UnicodeSegmentation::unicode_words`: the words, in order, of the text
/// split on UAX#29 word boundaries; they depend on the characters alone.
#[verifier::external_body]
fn unicode_words(s: &str) -> (r: Vec<String>)
    ensures
        r@.map_values(|w: String| w@) == words_of(s@),
{
    s.unicode_words().map(|w| w.to_string()).collect()
}

/// Relies on `Jieba::new`: a segmenter loaded with the default dictionary.
#[verifier::external_body]
fn new_jieba() -> jieba_rs::Jieba {
    jieba_rs::Jieba::new()
}

/// Relies on `Jieba::cut` without the hidden Markov model: the pieces, in order, of
/// the text; with the default dictionary they depend on the characters alone.
#[verifier::external_body]
fn jieba_cut(jieba: &jieba_rs::Jieba, s: &str) -> (r: Vec<String>)
    ensures
        r@.map_values(|w: String| w@) == cut_of(s@),
{
    jieba.cut(s, false).into_iter().map(|w| w.to_string()).collect()
}

/// Relies on `char::is_alphabetic`.
#[verifier::external_body]
fn is_alphabetic(c: char) -> (r: bool)
    ensures
        r == alphabetic(c),
{
    c.is_alphabetic()
}

/// The pieces that start with an alphabetic character, in order.
pub open spec fn keep_alphabetic(ws: Seq<Seq<char>>) -> Seq<Seq<char>>
    decreases ws.len(),
{
    if ws.len() == 0 {
        Seq::empty()
    } else if ws.last().len() > 0 && alphabetic(ws.last()[0]) {
        keep_alphabetic(ws.drop_last()).push(ws.last())
    } else {
        keep_alphabetic(ws.drop_last())
    }
}

/// The text as the segmenter of `lang` normalises it.
pub open spec fn normalized(lang: Language, s: Seq<char>) -> Seq<char> {
    match lang {
        Language::English => lower_of(s),
        Language::Chinese => s,
    }
}

/// The tokens the segmenter of `lang` cuts normalised text into.
pub open spec fn segmented(lang: Language, s: Seq<char>) -> Seq<Seq<char>> {
    match lang {
        Language::English => words_of(s),
        Language::Chinese => keep_alphabetic(cut_of(s)),
    }
}

/// The tokens of a text: normalised, then segmented.
pub open spec fn tokens_of(lang: Language, s: Seq<char>) -> Seq<Seq<char>> {
    segmented(lang, normalized(lang, s))
}

/// The first character of a string.
pub fn first_char(s: &str) -> (r: Option<char>)
    ensures
        r == if s@.len() > 0 { Some(s@[0]) } else { None::<char> },
{
    let mut it = s.chars();
    it.next()
}

/// Splits text into tokens for one language.
pub struct Segmentator {
    lang: Language,
    zh_seg: jieba_rs::Jieba,
}

impl Segmentator {
    /// The language this segmenter is set up for.
    pub closed spec fn language(&self) -> Language {
        self.lang
    }

    /// A segmenter for English.
    pub fn new() -> (r: Self)
        ensures
            r.language() == Language::English,
    {
        Segmentator { lang: Language::English, zh_seg: new_jieba() }
    }

    /// Sets the language.
    pub fn set_language(&mut self, lang: Language)
        ensures
            final(self).language() == lang,
    {
        self.lang = lang;
    }

    /// The language.
    pub fn get_language(&self) -> (r: Language)
        ensures
            r == self.language(),
    {
        self.lang
    }

    /// The tokens of normalised text.
    pub fn parse_tokens(&self, text: &str) -> (r: Vec<String>)
        ensures
            r@.map_values(|w: String| w@) == segmented(self.language(), text@),
    {
        match self.lang {
            Language::English => unicode_words(text),
            Language::Chinese => {
                let pieces = jieba_cut(&self.zh_seg, text);
                let ghost ws = pieces@.map_values(|w: String| w@);
                let mut words: Vec<String> = Vec::new();
                let mut i: usize = 0;
                while i < pieces.len()
                    invariant
                        ws == pieces@.map_values(|w: String| w@),
                        i <= pieces@.len(),
                        words@.map_values(|w: String| w@) == keep_alphabetic(ws.subrange(0, i as int)),
                    decreases pieces@.len() - i,
                {
                    let ghost prev = ws.subrange(0, i as int);
                    let ghost next = ws.subrange(0, i + 1);
                    assert(next.drop_last() == prev);
                    assert(next.last() == pieces@[i as int]@);
                    let keep = match first_char(pieces[i].as_str()) {
                        Some(c) => is_alphabetic(c),
                        None => false,
                    };
                    if keep {
                        words.push(pieces[i].clone());
                        assert(words@.map_values(|w: String| w@) =~= keep_alphabetic(prev).push(pieces@[i as int]@));
                    }
                    i = i + 1;
                }
                assert(ws.subrange(0, i as int) == ws);
                words
            },
        }
    }

    /// The text normalised for this language: lower case for English, unchanged for Chinese.
    pub fn normalize(&self, text: &str) -> (r: String)
        ensures
            r@ == normalized(self.language(), text@),
    {
        match self.lang {
            Language::English => lowercase(text),
            Language::Chinese => text.to_owned(),
        }
    }
}

} // verus!
