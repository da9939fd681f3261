//! Two-way mapping between term strings and dense term identifiers.
use vstd::prelude::*;
use std::collections::HashMap;
use crate::common::TermId;

verus! {

broadcast use vstd::std_specs::hash::group_hash_axioms;

/// Modulus of the bucket key; small enough that `key * 31 + byte` fits in a `u64`.
pub const KEY_MODULUS: u64 = 1_000_000_007;

/// Polynomial hash of a byte string, reduced modulo `KEY_MODULUS`.
pub open spec fn bytes_key(b: Seq<u8>) -> u64
    decreases b.len(),
{
    if b.len() == 0 {
        0
    } else {
        ((bytes_key(b.drop_last()) as int * 31 + b.last() as int) % (KEY_MODULUS as int)) as u64
    }
}

/// Bucket key of a term: the hash of its UTF-8 encoding.
pub open spec fn term_key(s: Seq<char>) -> u64 {
    bytes_key(vstd::utf8::encode_utf8(s))
}

/// The text of each token.
pub open spec fn token_views(toks: Seq<&str>) -> Seq<Seq<char>> {
    toks.map_values(|t: &str| t@)
}

/// Terms after adding `w`: unchanged when it is known, else `w` goes last.
pub open spec fn add_term(v: Seq<Seq<char>>, w: Seq<char>) -> Seq<Seq<char>> {
    if v.contains(w) {
        v
    } else {
        v.push(w)
    }
}

/// Terms after adding each of `toks` in turn.
pub open spec fn add_terms(v: Seq<Seq<char>>, toks: Seq<Seq<char>>) -> Seq<Seq<char>>
    decreases toks.len(),
{
    if toks.len() == 0 {
        v
    } else {
        add_term(add_terms(v, toks.drop_last()), toks.last())
    }
}

/// The tokens of `toks` that `v` holds, in order.
pub open spec fn known_terms(v: Seq<Seq<char>>, toks: Seq<Seq<char>>) -> Seq<Seq<char>>
    decreases toks.len(),
{
    if toks.len() == 0 {
        Seq::empty()
    } else if v.contains(toks.last()) {
        known_terms(v, toks.drop_last()).push(toks.last())
    } else {
        known_terms(v, toks.drop_last())
    }
}

/// The tokens of `toks` that `v` does not hold, in order.
pub open spec fn unknown_terms(v: Seq<Seq<char>>, toks: Seq<Seq<char>>) -> Seq<Seq<char>>
    decreases toks.len(),
{
    if toks.len() == 0 {
        Seq::empty()
    } else if v.contains(toks.last()) {
        unknown_terms(v, toks.drop_last())
    } else {
        unknown_terms(v, toks.drop_last()).push(toks.last())
    }
}

/// No term is listed twice.
pub open spec fn distinct_terms(v: Seq<Seq<char>>) -> bool {
    forall|i: int, j: int| 0 <= i < j < v.len() ==> v[i] != v[j]
}

/// `id` names the term `t` in `v`.
pub open spec fn names(v: Seq<Seq<char>>, id: TermId, t: Seq<char>) -> bool {
    1 <= id <= v.len() && v[id - 1] == t
}

/// Maps each term to an identifier and back. The term with identifier `i` is
/// the `i`-th distinct term ever added. Terms are found through buckets keyed by
/// a hash of their UTF-8 bytes, each bucket listing the identifiers of its terms.
pub struct Dictionary {
    terms: Vec<String>,
    buckets: HashMap<u64, Vec<TermId>>,
}

/// Counts that describe a dictionary.
pub struct DictionarySummary {
    pub term_count: u32,
}

impl View for Dictionary {
    type V = Seq<Seq<char>>;

    /// The terms in identifier order: identifier `i` names `self@[i - 1]`.
    closed spec fn view(&self) -> Seq<Seq<char>> {
        self.terms@.map_values(|s: String| s@)
    }
}

/// Hash of a term's UTF-8 bytes, the key of its bucket.
fn key_of(term: &str) -> (r: u64)
    ensures
        r == term_key(term@),
{
    let bytes = term.as_bytes();
    let mut h: u64 = 0;
    let mut i: usize = 0;
    while i < bytes.len()
        invariant
            bytes@ == vstd::utf8::encode_utf8(term@),
            i <= bytes@.len(),
            h == bytes_key(bytes@.subrange(0, i as int)),
            h < KEY_MODULUS,
        decreases bytes@.len() - i,
    {
        assert(bytes@.subrange(0, i + 1).drop_last() == bytes@.subrange(0, i as int));
        h = (h * 31 + bytes[i] as u64) % KEY_MODULUS;
        i = i + 1;
    }
    assert(bytes@.subrange(0, i as int) == bytes@);
    h
}

impl Dictionary {
    /// Internal consistency: terms are distinct, and each bucket lists exactly
    /// the identifiers of the terms with its key.
    pub closed spec fn wf(&self) -> bool {
        &&& self.terms@.len() < u32::MAX
        &&& distinct_terms(self@)
        &&& forall|i: int| 0 <= i < self.terms@.len() ==> {
            let k = term_key(#[trigger] self.terms@[i]@);
            &&& self.buckets@.contains_key(k)
            &&& self.buckets@[k]@.contains((i + 1) as u32)
        }
        &&& forall|k: u64, j: int| #[trigger] self.buckets@.contains_key(k) && 0 <= j < self.buckets@[k]@.len() ==> {
            let id = #[trigger] self.buckets@[k]@[j];
            &&& 1 <= id <= self.terms@.len()
            &&& term_key(self.terms@[id - 1]@) == k
        }
    }

    /// An empty dictionary.
    pub fn new() -> (r: Self)
        ensures
            r.wf(),
            r@ == Seq::<Seq<char>>::empty(),
    {
        let r = Dictionary { terms: Vec::new(), buckets: HashMap::new() };
        assert(r@ =~= Seq::<Seq<char>>::empty());
        r
    }

    /// Identifier of `term`, without adding it.
    pub fn get(&self, term: &str) -> (r: Option<TermId>)
        requires
            self.wf(),
        ensures
            match r {
                Some(id) => names(self@, id, term@),
                None => !self@.contains(term@),
            },
    {
        let key = key_of(term);
        let owned = term.to_owned();
        match self.buckets.get(&key) {
            None => {
                assert(!self@.contains(term@)) by {
                    if self@.contains(term@) {
                        let i = choose|i: int| 0 <= i < self@.len() && self@[i] == term@;
                        assert(self.terms@[i]@ == term@);
                    }
                }
                None
            },
            Some(bucket) => {
                let mut j: usize = 0;
                while j < bucket.len()
                    invariant
                        self.wf(),
                        owned@ == term@,
                        self.buckets@.contains_key(key),
                        self.buckets@[key] == *bucket,
                        j <= bucket@.len(),
                        forall|t: int| 0 <= t < j ==> self.terms@[bucket@[t] - 1]@ != term@,
                    decreases bucket@.len() - j,
                {
                    let id = bucket[j];
                    assert(1 <= id <= self.terms@.len());
                    if self.terms[(id - 1) as usize] == owned {
                        return Some(id);
                    }
                    j = j + 1;
                }
                assert(!self@.contains(term@)) by {
                    if self@.contains(term@) {
                        let i = choose|i: int| 0 <= i < self@.len() && self@[i] == term@;
                        assert(self.terms@[i]@ == term@);
                        assert(bucket@.contains((i + 1) as u32));
                        let t = choose|t: int| 0 <= t < bucket@.len() && bucket@[t] == (i + 1) as u32;
                    }
                }
                None
            },
        }
    }

    /// Identifier of `word`, handing out the next unused one when it is new.
    pub fn add(&mut self, word: &str) -> (id: TermId)
        requires
            old(self).wf(),
            old(self)@.len() < u32::MAX - 1,
        ensures
            final(self).wf(),
            final(self)@ == add_term(old(self)@, word@),
            names(final(self)@, id, word@),
    {
        match self.get(word) {
            Some(id) => id,
            None => {
                let ghost old_terms = self.terms@;
                let ghost old_buckets = self.buckets@;
                let key = key_of(word);
                let id = (self.terms.len() + 1) as TermId;
                let mut bucket = match self.buckets.remove(&key) {
                    Some(b) => b,
                    None => Vec::new(),
                };
                let ghost old_bucket = bucket@;
                assert(old_buckets.contains_key(key) ==> old_bucket == old_buckets[key]@);
                assert(!old_buckets.contains_key(key) ==> old_bucket.len() == 0);
                bucket.push(id);
                self.buckets.insert(key, bucket);
                self.terms.push(word.to_owned());
                assert(self@ =~= old(self)@.push(word@));
                assert forall|i: int| 0 <= i < self.terms@.len() implies {
                    let k = term_key(#[trigger] self.terms@[i]@);
                    &&& self.buckets@.contains_key(k)
                    &&& self.buckets@[k]@.contains((i + 1) as u32)
                } by {
                    let k = term_key(self.terms@[i]@);
                    if i < old_terms.len() {
                        assert(self.terms@[i] == old_terms[i]);
                        if k == key {
                            let t = choose|t: int| 0 <= t < old_bucket.len() && old_bucket[t] == (i + 1) as u32;
                            assert(self.buckets@[k]@[t] == (i + 1) as u32);
                        }
                    } else {
                        assert(self.buckets@[k]@[old_bucket.len() as int] == id);
                    }
                }
                assert forall|k: u64, j: int| #[trigger] self.buckets@.contains_key(k) && 0 <= j < self.buckets@[k]@.len() implies {
                    let id = #[trigger] self.buckets@[k]@[j];
                    &&& 1 <= id <= self.terms@.len()
                    &&& term_key(self.terms@[id - 1]@) == k
                } by {
                    if k == key {
                        if j < old_bucket.len() {
                            assert(old_buckets[key]@[j] == old_bucket[j]);
                        }
                    } else {
                        assert(self.buckets@[k] == old_buckets[k]);
                    }
                }
                id
            },
        }
    }

    /// Identifiers of the known tokens, in order, and the unknown tokens, in order.
    pub fn get_ids(&self, terms: &Vec<&str>) -> (r: (Vec<TermId>, Vec<String>))
        requires
            self.wf(),
        ensures
            r.0@.len() == known_terms(self@, token_views(terms@)).len(),
            forall|i: int| 0 <= i < r.0@.len() ==> names(self@, #[trigger] r.0@[i], known_terms(self@, token_views(terms@))[i]),
            r.1@.map_values(|s: String| s@) == unknown_terms(self@, token_views(terms@)),
    {
        let mut term_ids: Vec<TermId> = Vec::new();
        let mut unknown: Vec<String> = Vec::new();
        let mut i: usize = 0;
        while i < terms.len()
            invariant
                self.wf(),
                i <= terms@.len(),
                term_ids@.len() == known_terms(self@, token_views(terms@.subrange(0, i as int))).len(),
                forall|t: int| 0 <= t < term_ids@.len() ==> names(self@, #[trigger] term_ids@[t], known_terms(self@, token_views(terms@.subrange(0, i as int)))[t]),
                unknown@.map_values(|s: String| s@) == unknown_terms(self@, token_views(terms@.subrange(0, i as int))),
            decreases terms@.len() - i,
        {
            let ghost prev = token_views(terms@.subrange(0, i as int));
            let ghost next = token_views(terms@.subrange(0, i + 1));
            assert(next.drop_last() =~= prev);
            assert(next.last() == terms@[i as int]@);
            match self.get(terms[i]) {
                Some(id) => {
                    term_ids.push(id);
                    assert(self@.contains(terms@[i as int]@));
                    assert forall|t: int| 0 <= t < term_ids@.len() implies names(self@, #[trigger] term_ids@[t], known_terms(self@, next)[t]) by {
                        if t < term_ids@.len() - 1 {
                            assert(known_terms(self@, next)[t] == known_terms(self@, prev)[t]);
                        }
                    }
                },
                None => {
                    unknown.push(terms[i].to_owned());
                    assert(unknown@.map_values(|s: String| s@) =~= unknown_terms(self@, prev).push(terms@[i as int]@));
                },
            }
            i = i + 1;
        }
        assert(terms@.subrange(0, i as int) == terms@);
        (term_ids, unknown)
    }

    /// Identifier of each token, adding the new ones in first-seen order.
    pub fn generate_ids(&mut self, terms: &Vec<&str>) -> (r: Vec<TermId>)
        requires
            old(self).wf(),
            old(self)@.len() + terms@.len() < u32::MAX - 1,
        ensures
            final(self).wf(),
            final(self)@ == add_terms(old(self)@, token_views(terms@)),
            r@.len() == terms@.len(),
            forall|i: int| 0 <= i < r@.len() ==> names(final(self)@, #[trigger] r@[i], terms@[i]@),
    {
        let mut term_ids: Vec<TermId> = Vec::new();
        let mut i: usize = 0;
        while i < terms.len()
            invariant
                self.wf(),
                i <= terms@.len(),
                self@ == add_terms(old(self)@, token_views(terms@.subrange(0, i as int))),
                self@.len() <= old(self)@.len() + i,
                old(self)@.len() + terms@.len() < u32::MAX - 1,
                term_ids@.len() == i,
                forall|t: int| 0 <= t < i ==> names(self@, #[trigger] term_ids@[t], terms@[t]@),
            decreases terms@.len() - i,
        {
            let ghost before = self@;
            let ghost next = token_views(terms@.subrange(0, i + 1));
            assert(next.drop_last() =~= token_views(terms@.subrange(0, i as int)));
            assert(next.last() == terms@[i as int]@);
            let id = self.add(terms[i]);
            assert(self@.len() >= before.len());
            assert forall|t: int| 0 <= t < i implies names(self@, #[trigger] term_ids@[t], terms@[t]@) by {
                assert(names(before, term_ids@[t], terms@[t]@));
            }
            term_ids.push(id);
            i = i + 1;
        }
        assert(terms@.subrange(0, i as int) == terms@);
        term_ids
    }

    /// The term named by `tid`, or the empty string for an unknown identifier.
    pub fn get_term_by_id(&self, tid: TermId) -> (r: String)
        requires
            self.wf(),
        ensures
            1 <= tid <= self@.len() ==> r@ == self@[tid - 1],
            !(1 <= tid <= self@.len()) ==> r@ == Seq::<char>::empty(),
    {
        if tid >= 1 && (tid as usize) <= self.terms.len() {
            self.terms[(tid - 1) as usize].clone()
        } else {
            String::new()
        }
    }

    /// Number of distinct terms.
    pub fn get_term_count(&self) -> (r: usize)
        requires
            self.wf(),
        ensures
            r == self@.len(),
    {
        self.terms.len()
    }

    /// Summary counts.
    pub fn summary(&self) -> (r: DictionarySummary)
        requires
            self.wf(),
        ensures
            r.term_count == self@.len(),
    {
        DictionarySummary { term_count: self.terms.len() as u32 }
    }
}

} // verus!

verus! {

/// In a list of distinct terms, two indices holding the same term are equal.
pub proof fn lemma_distinct_index(v: Seq<Seq<char>>, i: int, j: int)
    requires
        distinct_terms(v),
        0 <= i < v.len(),
        0 <= j < v.len(),
        v[i] == v[j],
    ensures
        i == j,
{
    if i < j {
        assert(v[i] != v[j]);
    } else if j < i {
        assert(v[j] != v[i]);
    }
}

/// A list of distinct terms has as many elements as its set.
pub proof fn lemma_distinct_set_len(v: Seq<Seq<char>>)
    requires
        distinct_terms(v),
    ensures
        v.to_set().len() == v.len(),
{
    assert(v.no_duplicates());
    v.unique_seq_to_set();
}

impl Dictionary {
    /// The terms of a consistent dictionary are distinct.
    pub proof fn lemma_distinct(&self)
        requires
            self.wf(),
        ensures
            distinct_terms(self@),
            self@.len() < u32::MAX,
    {
    }
}


impl Dictionary {
    /// The terms in identifier order.
    pub fn terms(&self) -> (r: &Vec<String>)
        requires
            self.wf(),
        ensures
            r@.map_values(|s: String| s@) == self@,
    {
        &self.terms
    }

    /// The dictionary whose terms, in identifier order, are `terms`; `None` when a
    /// term is listed twice or there are too many to number.
    pub fn from_terms(terms: &Vec<String>) -> (r: Option<Dictionary>)
        ensures
            r is Some <==> distinct_terms(terms@.map_values(|s: String| s@)) && terms@.len() < u32::MAX,
            r matches Some(d) ==> d.wf() && d@ == terms@.map_values(|s: String| s@),
    {
        let ghost want = terms@.map_values(|s: String| s@);
        if terms.len() >= u32::MAX as usize {
            return None;
        }
        let mut d = Dictionary::new();
        let mut i: usize = 0;
        while i < terms.len()
            invariant
                want == terms@.map_values(|s: String| s@),
                terms@.len() < u32::MAX,
                i <= terms@.len(),
                d.wf(),
                d@ == want.subrange(0, i as int),
            decreases terms@.len() - i,
        {
            match d.get(terms[i].as_str()) {
                Some(id) => {
                    proof {
                        assert(want[id - 1] == want[i as int]);
                        assert(!distinct_terms(want));
                    }
                    return None;
                },
                None => {
                    d.add(terms[i].as_str());
                    assert(d@ =~= want.subrange(0, i + 1));
                },
            }
            i = i + 1;
        }
        assert(want.subrange(0, i as int) == want);
        proof {
            d.lemma_distinct();
        }
        Some(d)
    }
}

} // verus!
