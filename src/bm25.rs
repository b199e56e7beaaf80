//! Inverted-index statistics for BM25 keyword scoring.
//!
//! The index records, for a corpus of tokenized documents, each document's
//! length, the frequency of each term within each document (one map per
//! document, keyed by term id, so a lookup costs no scan), and each term's
//! document frequency. Scores are computed by the caller from these
//! statistics and the index's parameters `P` (for instance `k1` and `b`).
use vstd::prelude::*;
use std::collections::HashMap;
use vstd::hash_map::StringHashMap;
use crate::ranking::{indexed, indexed_scores, is_positive_score, is_ranked, is_top, positive_entries, rank_positive, Scored};
use crate::tokenize::views;

verus! {

broadcast use vstd::std_specs::hash::group_hash_axioms;

/// A document as its sequence of tokens.
pub type Doc = Seq<Seq<char>>;

/// Number of occurrences of term `t` in `doc`.
pub open spec fn occurrences(doc: Doc, t: Seq<char>) -> nat
    decreases doc.len(),
{
    if doc.len() == 0 {
        0
    } else {
        occurrences(doc.drop_last(), t) + if doc.last() == t {
            1nat
        } else {
            0nat
        }
    }
}

/// Number of documents of `docs` that contain term `t`.
pub open spec fn containing_docs(docs: Seq<Doc>, t: Seq<char>) -> nat
    decreases docs.len(),
{
    if docs.len() == 0 {
        0
    } else {
        containing_docs(docs.drop_last(), t) + if occurrences(docs.last(), t) > 0 {
            1nat
        } else {
            0nat
        }
    }
}

/// Total number of tokens over all documents.
pub open spec fn total_tokens(docs: Seq<Doc>) -> nat
    decreases docs.len(),
{
    if docs.len() == 0 {
        0
    } else {
        total_tokens(docs.drop_last()) + docs.last().len()
    }
}

/// A term occurs at most as often as the document is long, and occurs
/// exactly when the document contains it.
pub proof fn lemma_occurrences_bound(doc: Doc, t: Seq<char>)
    ensures
        occurrences(doc, t) <= doc.len(),
        occurrences(doc, t) > 0 <==> doc.contains(t),
    decreases doc.len(),
{
    if doc.len() > 0 {
        lemma_occurrences_bound(doc.drop_last(), t);
        if doc.drop_last().contains(t) {
            let i = choose|i: int| 0 <= i < doc.drop_last().len() && doc.drop_last()[i] == t;
            assert(doc[i] == t);
        }
        if doc.contains(t) && doc.last() != t {
            let i = choose|i: int| 0 <= i < doc.len() && doc[i] == t;
            assert(doc.drop_last()[i] == t);
        }
    }
}

/// A document frequency is at most the number of documents, zero when no
/// document holds the term, and positive when one does.
pub proof fn lemma_containing_docs_bound(docs: Seq<Doc>, t: Seq<char>)
    ensures
        containing_docs(docs, t) <= docs.len(),
        (forall|d: int| 0 <= d < docs.len() ==> occurrences(#[trigger] docs[d], t) == 0)
            ==> containing_docs(docs, t) == 0,
        forall|d: int| 0 <= d < docs.len() && occurrences(#[trigger] docs[d], t) > 0
            ==> containing_docs(docs, t) > 0,
    decreases docs.len(),
{
    if docs.len() > 0 {
        lemma_containing_docs_bound(docs.drop_last(), t);
        assert forall|d: int| 0 <= d < docs.len() && occurrences(#[trigger] docs[d], t) > 0
            implies containing_docs(docs, t) > 0 by {
            if d < docs.len() - 1 {
                assert(docs.drop_last()[d] == docs[d]);
            }
        }
        if forall|d: int| 0 <= d < docs.len() ==> occurrences(#[trigger] docs[d], t) == 0 {
            assert forall|d: int| 0 <= d < docs.drop_last().len() implies occurrences(
                #[trigger] docs.drop_last()[d],
                t,
            ) == 0 by {
                assert(docs.drop_last()[d] == docs[d]);
            }
            assert(occurrences(docs[docs.len() - 1], t) == 0);
        }
    }
}

/// For each query term, in order, that occurs in document `d`: its frequency
/// in `d` and its document frequency.
pub open spec fn term_matches(docs: Seq<Doc>, d: int, query: Seq<Seq<char>>) -> Seq<(usize, usize)>
    decreases query.len(),
{
    if query.len() == 0 {
        Seq::empty()
    } else {
        let rest = term_matches(docs, d, query.drop_last());
        let t = query.last();
        let tf = occurrences(docs[d], t);
        let df = containing_docs(docs, t);
        if tf > 0 && df > 0 {
            rest.push((tf as usize, df as usize))
        } else {
            rest
        }
    }
}

/// `r` is the position of `t` in `terms`, or `None` where no term is `t`.
pub open spec fn resolves(terms: Seq<String>, t: Seq<char>, r: Option<usize>) -> bool {
    match r {
        Some(i) => i < terms.len() && terms[i as int]@ == t,
        None => forall|i: int| 0 <= i < terms.len() ==> #[trigger] terms[i]@ != t,
    }
}

/// The terms among the first `n` of `vocab` that occur in `doc`, with their
/// frequency, in order of term id.
pub open spec fn doc_term_list(vocab: Seq<Seq<char>>, doc: Doc, n: int) -> Seq<(usize, usize)>
    decreases n,
{
    if n <= 0 {
        Seq::empty()
    } else {
        let rest = doc_term_list(vocab, doc, n - 1);
        let f = occurrences(doc, vocab[n - 1]);
        if f > 0 {
            rest.push(((n - 1) as usize, f as usize))
        } else {
            rest
        }
    }
}

/// Some term of `terms` has view `t`.
pub open spec fn in_vocabulary(terms: Seq<String>, t: Seq<char>) -> bool {
    exists|i: int| 0 <= i < terms.len() && #[trigger] terms[i]@ == t
}

/// Keyword index over a corpus of tokenized documents, with scoring
/// parameters of type `P`.
pub struct Bm25Index<P> {
    /// The vocabulary: a term's id is its position.
    terms: Vec<String>,
    /// Each vocabulary term with its id.
    term_ids: StringHashMap<usize>,
    /// For each term id, the number of documents that contain it.
    doc_frequencies: Vec<usize>,
    /// For each document, its term ids with their frequencies.
    doc_terms: Vec<HashMap<usize, usize>>,
    /// For each document, its number of tokens.
    doc_lengths: Vec<usize>,
    /// Sum of `doc_lengths`.
    total_length: usize,
    params: P,
    docs: Ghost<Seq<Doc>>,
}

impl<P> View for Bm25Index<P> {
    type V = Seq<Doc>;

    /// The indexed documents, in order of document id.
    closed spec fn view(&self) -> Seq<Doc> {
        self.docs@
    }
}

impl<P> Bm25Index<P> {
    /// The stored statistics agree with the indexed documents.
    pub closed spec fn wf(&self) -> bool {
        let docs = self.docs@;
        &&& self.vocab_indexed()
        &&& self.terms@.len() == self.doc_frequencies@.len()
        &&& forall|i: int, j: int|
            0 <= i < j < self.terms@.len() ==> #[trigger] self.terms@[i]@ != #[trigger] self.terms@[j]@
        &&& self.doc_terms@.len() == docs.len()
        &&& self.doc_lengths@.len() == docs.len()
        &&& forall|d: int| 0 <= d < docs.len() ==> #[trigger] self.doc_lengths@[d] == docs[d].len()
        &&& self.total_length == total_tokens(docs)
        &&& forall|i: int|
            0 <= i < self.terms@.len() ==> #[trigger] self.doc_frequencies@[i] == containing_docs(
                docs,
                self.terms@[i]@,
            )
        &&& forall|d: int, i: usize|
            0 <= d < docs.len() && #[trigger] self.doc_terms@[d]@.contains_key(i) ==> i
                < self.terms@.len()
        &&& forall|d: int, i: usize|
            0 <= d < docs.len() && i < self.terms@.len() ==> (#[trigger] self.doc_terms@[d]@.contains_key(
                i,
            ) <==> occurrences(docs[d], #[trigger] self.terms@[i as int]@) > 0)
        &&& forall|d: int, i: usize|
            0 <= d < docs.len() && i < self.terms@.len()
                && #[trigger] self.doc_terms@[d]@.contains_key(i) ==> self.doc_terms@[d]@[i]
                == occurrences(docs[d], self.terms@[i as int]@)
        &&& forall|d: int, t: Seq<char>|
            0 <= d < docs.len() && #[trigger] occurrences(docs[d], t) > 0 ==> exists|i: int|
                0 <= i < self.terms@.len() && #[trigger] self.terms@[i]@ == t
    }

    /// The scoring parameters this index was built with.
    pub closed spec fn spec_params(&self) -> P {
        self.params
    }

    /// An empty index.
    pub fn new(params: P) -> (r: Self)
        ensures
            r.wf(),
            r@.len() == 0,
            r.spec_params() == params,
    {
        Bm25Index {
            terms: Vec::new(),
            term_ids: StringHashMap::new(),
            doc_frequencies: Vec::new(),
            doc_terms: Vec::new(),
            doc_lengths: Vec::new(),
            total_length: 0,
            params,
            docs: Ghost(Seq::empty()),
        }
    }

    /// The scoring parameters.
    pub fn params(&self) -> (r: &P)
        ensures
            *r == self.spec_params(),
    {
        &self.params
    }

    /// Number of indexed documents.
    pub fn total_docs(&self) -> (n: usize)
        requires
            self.wf(),
        ensures
            n == self@.len(),
    {
        self.doc_lengths.len()
    }

    /// Total number of tokens over all documents.
    pub fn total_length(&self) -> (n: usize)
        requires
            self.wf(),
        ensures
            n == total_tokens(self@),
    {
        self.total_length
    }

    /// Number of tokens of document `doc_id`.
    pub fn doc_length(&self, doc_id: usize) -> (n: usize)
        requires
            self.wf(),
            doc_id < self@.len(),
        ensures
            n == self@[doc_id as int].len(),
    {
        self.doc_lengths[doc_id]
    }

    /// A term that the vocabulary lacks occurs in no indexed document.
    proof fn lemma_unknown_term(&self, t: Seq<char>)
        requires
            self.wf(),
            forall|i: int| 0 <= i < self.terms@.len() ==> #[trigger] self.terms@[i]@ != t,
        ensures
            forall|d: int| 0 <= d < self@.len() ==> occurrences(#[trigger] self@[d], t) == 0,
            containing_docs(self@, t) == 0,
    {
        assert forall|d: int| 0 <= d < self@.len() implies occurrences(#[trigger] self@[d], t) == 0 by {
            if occurrences(self.docs@[d], t) > 0 {
                let i = choose|i: int| 0 <= i < self.terms@.len() && #[trigger] self.terms@[i]@ == t;
            }
        }
        lemma_containing_docs_bound(self@, t);
    }

    /// Indexes one more document, given as its tokens; it gets the next
    /// document id.
    pub fn add_document(&mut self, tokens: &Vec<String>)
        requires
            old(self).wf(),
            old(self)@.len() < usize::MAX,
            total_tokens(old(self)@) + tokens@.len() <= usize::MAX,
        ensures
            final(self).wf(),
            final(self)@ == old(self)@.push(views(tokens@)),
            final(self).spec_params() == old(self).spec_params(),
    {
        let ghost docs = self.docs@;
        let ghost doc = views(tokens@);
        let ghost old_terms = self.terms@;
        let mut counts: HashMap<usize, usize> = HashMap::new();
        let mut seen: Vec<usize> = Vec::new();
        let mut j: usize = 0;
        assert(doc.take(0).len() == 0);
        while j < tokens.len()
            invariant
                old(self).wf(),
                j <= tokens@.len(),
                doc == views(tokens@),
                docs == old(self)@,
                self.docs == old(self).docs,
                self.doc_terms == old(self).doc_terms,
                self.doc_lengths == old(self).doc_lengths,
                self.total_length == old(self).total_length,
                self.params == old(self).params,
                old_terms == old(self).terms@,
                self.terms@.len() == self.doc_frequencies@.len(),
                self.vocab_indexed(),
                self.terms@.len() >= old_terms.len(),
                forall|i: int| 0 <= i < old_terms.len() ==> #[trigger] self.terms@[i] == old_terms[i],
                forall|i: int, k: int|
                    0 <= i < k < self.terms@.len() ==> #[trigger] self.terms@[i]@
                        != #[trigger] self.terms@[k]@,
                forall|i: int|
                    0 <= i < self.terms@.len() ==> #[trigger] self.doc_frequencies@[i]
                        == containing_docs(docs, self.terms@[i]@),
                forall|i: usize|
                    i < self.terms@.len() ==> (#[trigger] counts@.contains_key(i)
                        <==> occurrences(doc.take(j as int), self.terms@[i as int]@) > 0),
                forall|i: usize|
                    i < self.terms@.len() && #[trigger] counts@.contains_key(i)
                        ==> counts@[i] == occurrences(doc.take(j as int), self.terms@[i as int]@),
                forall|k: usize| #[trigger] counts@.contains_key(k) ==> k < self.terms@.len(),
                forall|k: usize| #[trigger] counts@.contains_key(k) <==> seen@.contains(k),
                seen@.no_duplicates(),
                forall|m: int| 0 <= m < j ==> in_vocabulary(self.terms@, #[trigger] doc[m]),
            decreases tokens@.len() - j,
        {
            let x = &tokens[j];
            assert(x@ == doc[j as int]);
            assert(doc.take(j as int + 1) == doc.take(j as int).push(x@));
            assert(doc.take(j as int + 1).drop_last() == doc.take(j as int));
            let ghost terms_before = self.terms@;
            let id = match self.term_id(x) {
                Some(i) => i,
                None => {
                    proof {
                        assert forall|q: int| 0 <= q < old_terms.len() implies #[trigger] old_terms[q]@
                            != x@ by {
                            assert(self.terms@[q] == old_terms[q]);
                        }
                        old(self).lemma_unknown_term(x@);
                        lemma_occurrences_bound(doc.take(j as int), x@);
                        if doc.take(j as int).contains(x@) {
                            let m = choose|m: int| 0 <= m < j && doc.take(j as int)[m] == x@;
                            assert(doc[m] == x@);
                        }
                    }
                    let i = self.terms.len();
                    self.term_ids.insert(x.clone(), i);
                    self.terms.push(x.clone());
                    assert forall|k: int| 0 <= k < self.terms@.len() implies self.term_ids@.contains_key(
                        #[trigger] self.terms@[k]@,
                    ) by {
                        if k < i {
                            assert(self.terms@[k] == terms_before[k]);
                        }
                    }
                    assert forall|t: Seq<char>| #[trigger] self.term_ids@.contains_key(t) implies self.term_ids@[t]
                        < self.terms@.len() && self.terms@[self.term_ids@[t] as int]@ == t by {
                        if t != x@ {
                            assert(self.terms@[self.term_ids@[t] as int] == terms_before[self.term_ids@[t] as int]);
                        }
                    }
                    self.doc_frequencies.push(0);
                    assert(!counts@.contains_key(i));
                    i
                },
            };
            assert(self.terms@[id as int]@ == x@);
            proof {
                lemma_occurrences_bound(doc.take(j as int), x@);
            }
            let n: usize = match counts.get(&id) {
                Some(v) => *v,
                None => 0,
            };
            assert(counts@.contains_key(id) ==> n == counts@[id] && n > 0);
            assert(!counts@.contains_key(id) ==> n == 0);
            let ghost seen_before = seen@;
            if n == 0 {
                assert(!seen@.contains(id));
                counts.insert(id, 1);
                seen.push(id);
                assert(seen@ == seen_before.push(id));
                assert forall|q: usize| #[trigger] counts@.contains_key(q) <==> seen@.contains(q) by {
                    if q != id {
                        if seen@.contains(q) {
                            let w = choose|w: int| 0 <= w < seen@.len() && seen@[w] == q;
                            assert(seen_before[w] == q);
                        }
                        if seen_before.contains(q) {
                            let w = choose|w: int| 0 <= w < seen_before.len() && seen_before[w] == q;
                            assert(seen@[w] == q);
                        }
                    } else {
                        assert(seen@[seen@.len() - 1] == q);
                    }
                }
            } else {
                counts.insert(id, n + 1);
            }
            j = j + 1;
            assert forall|m: int| 0 <= m < j implies in_vocabulary(self.terms@, #[trigger] doc[m]) by {
                if m == j - 1 {
                    assert(self.terms@[id as int]@ == doc[m]);
                } else {
                    assert(in_vocabulary(terms_before, doc[m]));
                    let w = choose|w: int| 0 <= w < terms_before.len() && #[trigger] terms_before[w]@ == doc[m];
                    assert(self.terms@[w] == terms_before[w]);
                }
            }
        }
        assert(doc.take(j as int) == doc);
        assert(seen@.take(0).len() == 0);
        let ghost terms = self.terms@;
        let ghost old_ids = self.term_ids;
        assert(self.vocab_indexed());
        let n_terms = self.terms.len();
        assert forall|q: int| 0 <= q < seen@.len() implies #[trigger] seen@[q] < terms.len() by {
            assert(seen@.contains(seen@[q]));
            assert(counts@.contains_key(seen@[q]));
        }
        let mut k: usize = 0;
        while k < seen.len()
            invariant
                old(self).wf(),
                docs == old(self)@,
                self.docs == old(self).docs,
                self.terms@.len() == self.doc_frequencies@.len(),
                seen@.no_duplicates(),
                k <= seen@.len(),
                docs.len() < usize::MAX,
                self.terms@ == terms,
                self.term_ids == old_ids,
                terms.len() == n_terms,
                self.doc_terms == old(self).doc_terms,
                self.doc_lengths == old(self).doc_lengths,
                self.total_length == old(self).total_length,
                self.params == old(self).params,
                old_terms == old(self).terms@,
                doc == views(tokens@),
                terms.len() >= old_terms.len(),
                forall|i: int| 0 <= i < old_terms.len() ==> #[trigger] terms[i] == old_terms[i],
                forall|i: int, q: int|
                    0 <= i < q < terms.len() ==> #[trigger] terms[i]@ != #[trigger] terms[q]@,
                forall|i: usize|
                    i < terms.len() ==> (#[trigger] counts@.contains_key(i)
                        <==> occurrences(doc, terms[i as int]@) > 0),
                forall|i: usize|
                    i < terms.len() && #[trigger] counts@.contains_key(i)
                        ==> counts@[i] == occurrences(doc, terms[i as int]@),
                forall|q: usize| #[trigger] counts@.contains_key(q) ==> q < terms.len(),
                forall|q: usize| #[trigger] counts@.contains_key(q) <==> seen@.contains(q),
                forall|m: int| 0 <= m < doc.len() ==> in_vocabulary(terms, #[trigger] doc[m]),
                forall|q: int| 0 <= q < seen@.len() ==> #[trigger] seen@[q] < self.terms@.len(),
                forall|i: int|
                    0 <= i < self.terms@.len() ==> #[trigger] self.doc_frequencies@[i]
                        == containing_docs(docs, self.terms@[i]@) + if seen@.take(k as int).contains(
                        i as usize,
                    ) {
                        1nat
                    } else {
                        0nat
                    },
            decreases seen@.len() - k,
        {
            let id = seen[k];
            assert(!seen@.take(k as int).contains(id)) by {
                if seen@.take(k as int).contains(id) {
                    let q = choose|q: int| 0 <= q < k && seen@.take(k as int)[q] == id;
                    assert(seen@[q] == seen@[k as int]);
                }
            }
            proof {
                lemma_containing_docs_bound(docs, self.terms@[id as int]@);
            }
            let ghost df_before = self.doc_frequencies@;
            let f = self.doc_frequencies[id] + 1;
            self.doc_frequencies.set(id, f);
            assert(seen@.take(k as int + 1) == seen@.take(k as int).push(id));
            assert forall|i: int| 0 <= i < self.terms@.len() implies #[trigger] self.doc_frequencies@[i]
                == containing_docs(docs, self.terms@[i]@) + if seen@.take(k as int + 1).contains(
                i as usize,
            ) {
                1nat
            } else {
                0nat
            } by {
                if i != id as int {
                    assert(self.doc_frequencies@[i] == df_before[i]);
                    if seen@.take(k as int + 1).contains(i as usize) {
                        let w = choose|w: int| 0 <= w < k + 1 && #[trigger] seen@.take(k as int + 1)[w] == i as usize;
                        assert(seen@.take(k as int)[w] == i as usize);
                    }
                    if seen@.take(k as int).contains(i as usize) {
                        let w = choose|w: int| 0 <= w < k && #[trigger] seen@.take(k as int)[w] == i as usize;
                        assert(seen@.take(k as int + 1)[w] == i as usize);
                    }
                } else {
                    assert(seen@.take(k as int + 1)[k as int] == id);
                }
            }
            k = k + 1;
        }
        assert(seen@.take(k as int) == seen@);
        let ghost new_docs = docs.push(doc);
        assert(new_docs.drop_last() == docs);
        self.doc_terms.push(counts);
        self.doc_lengths.push(tokens.len());
        self.total_length = self.total_length + tokens.len();
        self.docs = Ghost(new_docs);
        proof {
            assert forall|i: int| 0 <= i < terms.len() implies #[trigger] self.doc_frequencies@[i]
                == containing_docs(new_docs, terms[i]@) by {
                if seen@.contains(i as usize) {
                    assert(counts@.contains_key(i as usize));
                } else {
                    assert(!counts@.contains_key(i as usize));
                }
                let u = i as usize;
                assert(u as int == i);
                assert(counts@.contains_key(u) <==> occurrences(doc, terms[u as int]@) > 0);
            }
            assert forall|i: int, d: int|
                old_terms.len() <= i < terms.len() && 0 <= d < docs.len() implies occurrences(
                #[trigger] docs[d],
                #[trigger] terms[i]@,
            ) == 0 by {
                assert forall|q: int| 0 <= q < old_terms.len() implies #[trigger] old_terms[q]@
                    != terms[i]@ by {
                    assert(terms[q] == old_terms[q]);
                }
                old(self).lemma_unknown_term(terms[i]@);
            }
            assert forall|d: int, i: usize|
                0 <= d < new_docs.len() && i < terms.len() implies (
                #[trigger] self.doc_terms@[d]@.contains_key(i) <==> occurrences(
                    new_docs[d],
                    #[trigger] terms[i as int]@,
                ) > 0) && (self.doc_terms@[d]@.contains_key(i) ==> self.doc_terms@[d]@[i]
                == occurrences(new_docs[d], terms[i as int]@)) by {
                if d < docs.len() {
                    assert(new_docs[d] == docs[d]);
                    assert(self.doc_terms@[d] == old(self).doc_terms@[d]);
                    if i < old_terms.len() {
                        assert(terms[i as int] == old_terms[i as int]);
                    } else {
                        assert(occurrences(docs[d], terms[i as int]@) == 0);
                        assert(!self.doc_terms@[d]@.contains_key(i));
                    }
                } else {
                    assert(new_docs[d] == doc);
                }
            }
            assert forall|d: int, t: Seq<char>|
                0 <= d < new_docs.len() && #[trigger] occurrences(new_docs[d], t) > 0 implies exists|i: int|
                0 <= i < terms.len() && #[trigger] terms[i]@ == t by {
                if d < docs.len() {
                    assert(new_docs[d] == docs[d]);
                    let q = choose|q: int| 0 <= q < old_terms.len() && #[trigger] old_terms[q]@ == t;
                    assert(terms[q] == old_terms[q]);
                } else {
                    assert(new_docs[d] == doc);
                    lemma_occurrences_bound(doc, t);
                    let m = choose|m: int| 0 <= m < doc.len() && doc[m] == t;
                    assert(in_vocabulary(terms, doc[m]));
                }
            }
            assert forall|d: int| 0 <= d < new_docs.len() implies #[trigger] self.doc_lengths@[d]
                == new_docs[d].len() by {
                if d < docs.len() {
                    assert(new_docs[d] == docs[d]);
                }
            }
            assert forall|d: int, i: usize|
                0 <= d < new_docs.len() && #[trigger] self.doc_terms@[d]@.contains_key(i) implies i
                < terms.len() by {
                if d < docs.len() {
                    assert(self.doc_terms@[d] == old(self).doc_terms@[d]);
                }
            }
        }
    }

    /// Frequency of `term` in document `doc_id`.
    pub fn get_term_frequency(&self, term: &String, doc_id: usize) -> (r: usize)
        requires
            self.wf(),
            doc_id < self@.len(),
        ensures
            r == occurrences(self@[doc_id as int], term@),
    {
        match self.term_id(term) {
            Some(i) => match self.doc_terms[doc_id].get(&i) {
                Some(f) => *f,
                None => 0,
            },
            None => {
                proof {
                    self.lemma_unknown_term(term@);
                }
                0
            },
        }
    }

    /// Number of documents that contain `term`.
    pub fn document_frequency(&self, term: &String) -> (r: usize)
        requires
            self.wf(),
        ensures
            r == containing_docs(self@, term@),
    {
        match self.term_id(term) {
            Some(i) => self.doc_frequencies[i],
            None => {
                proof {
                    self.lemma_unknown_term(term@);
                }
                0
            },
        }
    }

    /// For every document, the frequency and document frequency of each query
    /// token that occurs in it (see `term_matches`). Each token is looked up
    /// in the vocabulary once; per document, each lookup is a map access.
    pub fn match_statistics(&self, query_tokens: &Vec<String>) -> (r: Vec<Vec<(usize, usize)>>)
        requires
            self.wf(),
        ensures
            r@.len() == self@.len(),
            forall|d: int| 0 <= d < r@.len() ==> (#[trigger] r@[d])@ == term_matches(
                self@,
                d,
                views(query_tokens@),
            ),
    {
        let ghost query = views(query_tokens@);
        let mut ids: Vec<Option<usize>> = Vec::new();
        let mut q: usize = 0;
        while q < query_tokens.len()
            invariant
                self.wf(),
                q <= query_tokens@.len(),
                ids@.len() == q,
                forall|k: int| 0 <= k < q ==> resolves(self.terms@, query_tokens@[k]@, #[trigger] ids@[k]),
            decreases query_tokens@.len() - q,
        {
            ids.push(self.term_id(&query_tokens[q]));
            q = q + 1;
        }
        let mut out: Vec<Vec<(usize, usize)>> = Vec::new();
        let n = self.doc_terms.len();
        let mut d: usize = 0;
        while d < n
            invariant
                self.wf(),
                n == self@.len(),
                d <= n,
                query == views(query_tokens@),
                ids@.len() == query_tokens@.len(),
                forall|k: int| 0 <= k < ids@.len() ==> resolves(self.terms@, query_tokens@[k]@, #[trigger] ids@[k]),
                out@.len() == d,
                forall|e: int| 0 <= e < d ==> (#[trigger] out@[e])@ == term_matches(self@, e, query),
            decreases n - d,
        {
            let mut row: Vec<(usize, usize)> = Vec::new();
            let mut k: usize = 0;
            while k < ids.len()
                invariant
                    self.wf(),
                    n == self@.len(),
                    d < n,
                    query == views(query_tokens@),
                    ids@.len() == query_tokens@.len(),
                    forall|k: int| 0 <= k < ids@.len() ==> resolves(self.terms@, query_tokens@[k]@, #[trigger] ids@[k]),
                    k <= ids@.len(),
                    row@ == term_matches(self@, d as int, query.take(k as int)),
                decreases ids@.len() - k,
            {
                assert(query.take(k as int + 1).drop_last() == query.take(k as int));
                assert(query.take(k as int + 1).last() == query_tokens@[k as int]@);
                match ids[k] {
                    Some(i) => {
                        proof {
                            lemma_containing_docs_bound(self@, self.terms@[i as int]@);
                        }
                        match self.doc_terms[d].get(&i) {
                            Some(f) => {
                                row.push((*f, self.doc_frequencies[i]));
                            },
                            None => {},
                        }
                    },
                    None => {
                        proof {
                            self.lemma_unknown_term(query_tokens@[k as int]@);
                        }
                    },
                }
                k = k + 1;
            }
            assert(query.take(ids@.len() as int) == query);
            out.push(row);
            d = d + 1;
        }
        out
    }

    /// Ranks the keyword scores of a query (`scores[d]` for document `d`, as
    /// `f32` bits): empty where the corpus or the query's tokens are empty;
    /// otherwise the documents with a positive score, highest first, at most
    /// `limit`.
    pub fn rank_scores(&self, query_tokens: &Vec<String>, scores: &Vec<u32>, limit: usize) -> (r: Vec<Scored>)
        requires
            self.wf(),
            scores@.len() == self@.len(),
        ensures
            self@.len() == 0 || query_tokens@.len() == 0 ==> r@.len() == 0,
            self@.len() > 0 && query_tokens@.len() > 0 ==> is_top(
                r@,
                positive_entries(indexed(scores@)),
                limit as nat,
            ),
            r@.len() <= limit,
            is_ranked(r@),
            forall|i: int| 0 <= i < r@.len() ==> is_positive_score(#[trigger] r@[i].1),
    {
        if self.doc_lengths.len() == 0 || query_tokens.len() == 0 {
            return Vec::new();
        }
        let pairs = indexed_scores(scores);
        rank_positive(&pairs, limit)
    }

    /// The vocabulary, in order of term id.
    pub closed spec fn vocabulary(&self) -> Seq<Seq<char>> {
        views(self.terms@)
    }

    /// Number of distinct terms indexed.
    pub fn vocabulary_size(&self) -> (n: usize)
        requires
            self.wf(),
        ensures
            n == self.vocabulary().len(),
    {
        self.terms.len()
    }

    /// The term with id `id`.
    pub fn term(&self, id: usize) -> (t: &String)
        requires
            self.wf(),
            id < self.vocabulary().len(),
        ensures
            t@ == self.vocabulary()[id as int],
    {
        &self.terms[id]
    }

    /// The terms of document `doc_id` as `(term id, frequency)`, in order of
    /// term id.
    pub fn document_terms(&self, doc_id: usize) -> (r: Vec<(usize, usize)>)
        requires
            self.wf(),
            doc_id < self@.len(),
        ensures
            r@ == doc_term_list(self.vocabulary(), self@[doc_id as int], self.vocabulary().len() as int),
    {
        let mut out: Vec<(usize, usize)> = Vec::new();
        let mut i: usize = 0;
        while i < self.terms.len()
            invariant
                self.wf(),
                doc_id < self@.len(),
                i <= self.terms@.len(),
                out@ == doc_term_list(self.vocabulary(), self@[doc_id as int], i as int),
            decreases self.terms@.len() - i,
        {
            assert(self.vocabulary()[i as int] == self.terms@[i as int]@);
            match self.doc_terms[doc_id].get(&i) {
                Some(f) => {
                    out.push((i, *f));
                },
                None => {},
            }
            i = i + 1;
        }
        out
    }

    /// The id of `term` in the vocabulary.
    fn term_id(&self, term: &String) -> (r: Option<usize>)
        requires
            self.vocab_indexed(),
        ensures
            r matches Some(i) ==> i < self.terms@.len() && self.terms@[i as int]@ == term@,
            r is None ==> forall|i: int| 0 <= i < self.terms@.len() ==> #[trigger] self.terms@[i]@ != term@,
    {
        match self.term_ids.get(term.as_str()) {
            Some(i) => Some(*i),
            None => None,
        }
    }

    /// The term map gives each vocabulary term its position.
    closed spec fn vocab_indexed(&self) -> bool {
        &&& forall|t: Seq<char>|
            #[trigger] self.term_ids@.contains_key(t) ==> self.term_ids@[t] < self.terms@.len()
                && self.terms@[self.term_ids@[t] as int]@ == t
        &&& forall|i: int|
            0 <= i < self.terms@.len() ==> self.term_ids@.contains_key(#[trigger] self.terms@[i]@)
    }
}

} // verus!
