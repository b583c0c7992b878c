//! Term-frequency tables: how often each token occurs in a document, and in
//! how many documents each token occurs.
use vstd::prelude::*;
use crate::lexer::{lex_tokens, tokens};
use crate::strmap::{keys_of, StrMap};
use crate::text::string_views;

verus! {

/// A table from terms to counts.
pub type TermFreq = StrMap<usize>;

/// The term and document counts that a ranking model is built from.
pub struct Model {
    /// How often each term occurs.
    pub tf: TermFreq,
    /// Term tables, each with the number of documents it stands for.
    pub idf: Vec<(TermFreq, usize)>,
}

impl Model {
    /// The tables are well formed, and `idf`, which stands for a map keyed
    /// by term tables, holds no table twice.
    pub open spec fn wf(&self) -> bool {
        &&& self.tf.wf()
        &&& forall|i: int| 0 <= i < self.idf@.len() ==> (#[trigger] self.idf@[i]).0.wf()
        &&& forall|i: int, j: int|
            0 <= i < j < self.idf@.len() ==> (#[trigger] self.idf@[i]).0@ != (#[trigger] self.idf@[j]).0@
    }
}

/// The number of times `t` occurs in `toks`.
pub open spec fn occurrences(toks: Seq<Seq<char>>, t: Seq<char>) -> nat
    decreases toks.len(),
{
    if toks.len() == 0 {
        0
    } else {
        occurrences(toks.drop_last(), t) + if toks.last() == t { 1nat } else { 0nat }
    }
}

/// The table that counts each token of `toks`: its keys are the tokens that
/// occur, each with its number of occurrences.
pub open spec fn counts_of(toks: Seq<Seq<char>>) -> Map<Seq<char>, usize> {
    Map::new(|t: Seq<char>| occurrences(toks, t) > 0, |t: Seq<char>| occurrences(toks, t) as usize)
}

/// `df` with one more document counted for each term in `terms`: a term
/// seen before goes up by one, a new one gets 1, the others stay.
pub open spec fn with_terms_counted(df: Map<Seq<char>, usize>, terms: Set<Seq<char>>) -> Map<
    Seq<char>,
    usize,
> {
    Map::new(
        |k: Seq<char>| df.contains_key(k) || terms.contains(k),
        |k: Seq<char>|
            if terms.contains(k) {
                if df.contains_key(k) {
                    (df[k] + 1) as usize
                } else {
                    1usize
                }
            } else {
                df[k]
            },
    )
}

/// A token occurs no more often than there are tokens.
pub proof fn lemma_occurrences_bound(toks: Seq<Seq<char>>, t: Seq<char>)
    ensures
        occurrences(toks, t) <= toks.len(),
    decreases toks.len(),
{
    if toks.len() > 0 {
        lemma_occurrences_bound(toks.drop_last(), t);
    }
}

/// Counting one more token.
pub proof fn lemma_counts_push(toks: Seq<Seq<char>>, x: Seq<char>)
    requires
        toks.len() < usize::MAX,
    ensures
        counts_of(toks.push(x)) == counts_of(toks).insert(
            x,
            if counts_of(toks).contains_key(x) {
                (counts_of(toks)[x] + 1) as usize
            } else {
                1usize
            },
        ),
{
    let t2 = toks.push(x);
    assert(t2.drop_last() =~= toks);
    assert forall|t: Seq<char>| #[trigger] occurrences(t2, t) == occurrences(toks, t) + if t == x {
        1nat
    } else {
        0nat
    } by {}
    lemma_occurrences_bound(toks, x);
    assert(counts_of(t2) =~= counts_of(toks).insert(
        x,
        if counts_of(toks).contains_key(x) {
            (counts_of(toks)[x] + 1) as usize
        } else {
            1usize
        },
    ));
}

/// The distinct tokens of `toks`, in the order of their first occurrence.
pub open spec fn distinct_in_order(toks: Seq<Seq<char>>) -> Seq<Seq<char>>
    decreases toks.len(),
{
    if toks.len() == 0 {
        Seq::empty()
    } else {
        let d = distinct_in_order(toks.drop_last());
        if d.contains(toks.last()) {
            d
        } else {
            d.push(toks.last())
        }
    }
}

/// A token is among the distinct ones exactly when it occurs; no token is
/// listed twice.
pub proof fn lemma_distinct_in_order(toks: Seq<Seq<char>>)
    ensures
        forall|t: Seq<char>| distinct_in_order(toks).contains(t) <==> occurrences(toks, t) > 0,
        distinct_in_order(toks).no_duplicates(),
    decreases toks.len(),
{
    if toks.len() > 0 {
        let prev = toks.drop_last();
        let x = toks.last();
        lemma_distinct_in_order(prev);
        let d = distinct_in_order(prev);
        assert forall|t: Seq<char>| distinct_in_order(toks).contains(t) <==> occurrences(toks, t) > 0 by {
            assert(occurrences(toks, t) == occurrences(prev, t) + if x == t { 1nat } else { 0nat });
            assert(d.contains(t) <==> occurrences(prev, t) > 0);
            if !d.contains(x) {
                let e = d.push(x);
                assert(e[d.len() as int] == x);
                if e.contains(t) && t != x {
                    let i = choose|i: int| 0 <= i < e.len() && e[i] == t;
                    assert(i < d.len());
                    assert(d[i] == t);
                }
                if d.contains(t) {
                    let i = choose|i: int| 0 <= i < d.len() && d[i] == t;
                    assert(e[i] == t);
                }
            }
        }
    }
}

/// Counts the tokens of a token list: returns their number and the table
/// of how often each one occurs, its keys in order of first occurrence.
pub fn count_tokens(tokens: &Vec<String>) -> (r: (usize, TermFreq))
    ensures
        r.0 == tokens@.len(),
        r.1.wf(),
        r.1@ == counts_of(string_views(tokens@)),
        string_views(r.1.key_list()) == distinct_in_order(string_views(tokens@)),
{
    let ghost all = string_views(tokens@);
    let mut tf: TermFreq = StrMap::new();
    let mut i: usize = 0;
    proof {
        assert(all.take(0) =~= Seq::<Seq<char>>::empty());
        assert(counts_of(all.take(0)) =~= Map::<Seq<char>, usize>::empty());
        assert(string_views(tf.key_list()) =~= distinct_in_order(all.take(0)));
    }
    while i < tokens.len()
        invariant
            all == string_views(tokens@),
            i <= tokens@.len(),
            tf.wf(),
            tf@ == counts_of(all.take(i as int)),
            string_views(tf.key_list()) == distinct_in_order(all.take(i as int)),
        decreases tokens@.len() - i,
    {
        let ghost done = all.take(i as int);
        let tok = &tokens[i];
        assert(all[i as int] == tok@);
        assert(all.take(i + 1) =~= done.push(tok@));
        proof {
            lemma_occurrences_bound(done, tok@);
            lemma_counts_push(done, tok@);
            lemma_distinct_in_order(done);
            assert(done.push(tok@).drop_last() =~= done);
        }
        let ghost old_keys = tf.key_list();
        tf.increment(tok);
        assert(string_views(tf.key_list()) =~= distinct_in_order(done.push(tok@))) by {
            if !distinct_in_order(done).contains(tok@) {
                assert(string_views(old_keys.push(*tok)) =~= string_views(old_keys).push(tok@));
            }
        }
        i += 1;
    }
    assert(all.take(i as int) =~= all);
    (i, tf)
}

/// Tokenizes `content` and counts its tokens: returns the number of tokens
/// and the table of how often each one occurs.
pub fn term_frequencies(content: &[char]) -> (r: (usize, TermFreq))
    ensures
        r.0 == lex_tokens(content@).len(),
        r.1.wf(),
        r.1@ == counts_of(lex_tokens(content@)),
        string_views(r.1.key_list()) == distinct_in_order(lex_tokens(content@)),
{
    let toks = tokens(content);
    count_tokens(&toks)
}

/// The first `n` keys, as a set.
pub open spec fn first_keys(e: Seq<String>, n: int) -> Set<Seq<char>> {
    Set::new(|k: Seq<char>| exists|i: int| 0 <= i < n && #[trigger] e[i]@ == k)
}

/// Counts one more document for each term of `tf`.
pub fn count_document_terms(doc_freq: &mut TermFreq, tf: &TermFreq)
    requires
        old(doc_freq).wf(),
        tf.wf(),
        forall|k: Seq<char>|
            tf@.contains_key(k) && old(doc_freq)@.contains_key(k) ==> old(doc_freq)@[k]
                < usize::MAX,
    ensures
        final(doc_freq).wf(),
        final(doc_freq)@ == with_terms_counted(old(doc_freq)@, tf@.dom()),
{
    let entries = tf.keys();
    let ghost e = entries@;
    let ghost df0 = doc_freq@;
    let mut i: usize = 0;
    assert(with_terms_counted(df0, first_keys(e, 0)) =~= df0);
    while i < entries.len()
        invariant
            keys_of(e, tf@),
            e == entries@,
            i <= e.len(),
            doc_freq.wf(),
            doc_freq@ == with_terms_counted(df0, first_keys(e, i as int)),
            forall|k: Seq<char>| tf@.contains_key(k) && df0.contains_key(k) ==> df0[k] < usize::MAX,
        decreases e.len() - i,
    {
        let ghost key = e[i as int]@;
        assert(!first_keys(e, i as int).contains(key)) by {
            if first_keys(e, i as int).contains(key) {
                let j = choose|j: int| 0 <= j < i && #[trigger] e[j]@ == key;
                assert(e[j]@ != e[i as int]@);
            }
        }
        assert(tf@.contains_key(key));
        doc_freq.increment(&entries[i]);
        assert(first_keys(e, i + 1) =~= first_keys(e, i as int).insert(key)) by {
            assert forall|k: Seq<char>| first_keys(e, i + 1).contains(k) implies first_keys(
                e,
                i as int,
            ).insert(key).contains(k) by {
                let j = choose|j: int| 0 <= j < i + 1 && #[trigger] e[j]@ == k;
                if j < i {
                    assert(first_keys(e, i as int).contains(k));
                }
            }
            assert forall|k: Seq<char>| first_keys(e, i as int).insert(key).contains(k) implies first_keys(
                e,
                i + 1,
            ).contains(k) by {
                if k == key {
                    assert(e[i as int]@ == k);
                } else {
                    let j = choose|j: int| 0 <= j < i && #[trigger] e[j]@ == k;
                    assert(e[j]@ == k);
                }
            }
        }
        assert(doc_freq@ =~= with_terms_counted(df0, first_keys(e, i + 1)));
        i += 1;
    }
    assert(first_keys(e, e.len() as int) =~= tf@.dom()) by {
        assert forall|k: Seq<char>| tf@.dom().contains(k) implies first_keys(e, e.len() as int).contains(k) by {
            let j = choose|j: int| 0 <= j < e.len() && #[trigger] e[j]@ == k;
            assert(e[j]@ == k);
        }
    }
}

/// How often `term` occurs in `document` (0 when it does not).
pub fn term_count(term: &str, document: &TermFreq) -> (r: usize)
    requires
        document.wf(),
    ensures
        r == if document@.contains_key(term@) { document@[term@] } else { 0 },
{
    match document.get(term) {
        Some(c) => *c,
        None => 0,
    }
}

/// In how many documents `term` occurs, as the inverse document frequency
/// reads it: a term never seen counts as 1.
pub fn doc_count(term: &str, doc_freq: &TermFreq) -> (r: usize)
    requires
        doc_freq.wf(),
    ensures
        r == if doc_freq@.contains_key(term@) { doc_freq@[term@] } else { 1 },
{
    match doc_freq.get(term) {
        Some(c) => *c,
        None => 1,
    }
}

} // verus!
