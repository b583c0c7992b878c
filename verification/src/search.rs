//! The integer side of ranking: the query's tokens and, for each token, the
//! counts that its TF-IDF score is computed from.
use vstd::prelude::*;
use crate::lexer::{
    lemma_run_len_exact, lex_tokens, run_len,
    whitespace_class, tokens,
};
use crate::unicode::is_whitespace;
use crate::model::{doc_count, term_count, TermFreq};
use crate::text::{chars_of, string_of, string_views};

verus! {

/// The tokens of the query `input`, in order.
pub fn query_tokens(input: &str) -> (r: Vec<String>)
    ensures
        string_views(r@) == lex_tokens(input@),
{
    let chars = chars_of(input);
    tokens(chars.as_slice())
}

/// The counts that score the token `tok` against a section: how often it
/// occurs in the section (0 if never), and in how many sections it occurs
/// (1 if never recorded).
pub open spec fn score_pair(
    tok: Seq<char>,
    tf: Map<Seq<char>, usize>,
    df: Map<Seq<char>, usize>,
) -> (usize, usize) {
    (
        if tf.contains_key(tok) { tf[tok] } else { 0 },
        if df.contains_key(tok) { df[tok] } else { 1 },
    )
}

/// The score of a token is not a number: its term frequency is 0/0 (no
/// occurrence in a section of no tokens) or its document ratio is 0/0 (no
/// sections and a count of 0).
pub open spec fn score_undefined(pair: (usize, usize), n: usize, num_docs: usize) -> bool {
    (pair.0 == 0 && n == 0) || (num_docs == 0 && pair.1 == 0)
}

/// The score counts of the query tokens, in order, up to the first token
/// whose score is not a number: scoring stops there.
pub open spec fn score_terms_spec(
    toks: Seq<Seq<char>>,
    n: usize,
    tf: Map<Seq<char>, usize>,
    num_docs: usize,
    df: Map<Seq<char>, usize>,
) -> Seq<(usize, usize)>
    decreases toks.len(),
{
    if toks.len() == 0 {
        Seq::empty()
    } else {
        let p = score_pair(toks[0], tf, df);
        if score_undefined(p, n, num_docs) {
            Seq::empty()
        } else {
            seq![p] + score_terms_spec(toks.drop_first(), n, tf, num_docs, df)
        }
    }
}

/// For a section of `n` tokens with term table `tf_table`, in an index of
/// `num_docs` sections with document frequencies `doc_freq`: the counts
/// that each query token's score is computed from, up to the first token
/// whose score is not a number.
pub fn score_terms(
    query: &Vec<String>,
    n: usize,
    tf_table: &TermFreq,
    num_docs: usize,
    doc_freq: &TermFreq,
) -> (r: Vec<(usize, usize)>)
    requires
        tf_table.wf(),
        doc_freq.wf(),
    ensures
        r@ == score_terms_spec(string_views(query@), n, tf_table@, num_docs, doc_freq@),
{
    let ghost toks = string_views(query@);
    let mut out: Vec<(usize, usize)> = Vec::new();
    let mut i: usize = 0;
    assert(toks.skip(0) =~= toks);
    while i < query.len()
        invariant
            toks == string_views(query@),
            i <= query@.len(),
            tf_table.wf(),
            doc_freq.wf(),
            out@ + score_terms_spec(toks.skip(i as int), n, tf_table@, num_docs, doc_freq@)
                == score_terms_spec(toks, n, tf_table@, num_docs, doc_freq@),
        decreases query@.len() - i,
    {
        let ghost rest = toks.skip(i as int);
        assert(rest[0] == query@[i as int]@);
        assert(rest.drop_first() =~= toks.skip(i + 1));
        let a = term_count(query[i].as_str(), tf_table);
        let m = doc_count(query[i].as_str(), doc_freq);
        if (a == 0 && n == 0) || (num_docs == 0 && m == 0) {
            assert(score_terms_spec(rest, n, tf_table@, num_docs, doc_freq@) == Seq::<(usize, usize)>::empty());
            assert(out@ =~= out@ + Seq::<(usize, usize)>::empty());
            return out;
        }
        let ghost old_out = out@;
        out.push((a, m));
        assert(out@ + score_terms_spec(toks.skip(i + 1), n, tf_table@, num_docs, doc_freq@)
            =~= old_out + score_terms_spec(rest, n, tf_table@, num_docs, doc_freq@));
        i += 1;
    }
    assert(toks.skip(i as int) =~= Seq::<Seq<char>>::empty());
    assert(out@ =~= out@ + Seq::<(usize, usize)>::empty());
    out
}

/// `s` without its leading and trailing white space (what `str::trim`
/// returns).
pub open spec fn trimmed(s: Seq<char>) -> Seq<char> {
    let a = s.skip(run_len(s, whitespace_class()) as int);
    a.take(a.len() - run_len(a.reverse(), whitespace_class()))
}

/// `s` without its leading and trailing white space.
pub fn trim(s: &str) -> (r: String)
    ensures
        r@ == trimmed(s@),
{
    let c = chars_of(s);
    let len = c.len();
    let mut i: usize = 0;
    while i < len && is_whitespace(c[i])
        invariant
            len == c@.len(),
            i <= len,
            forall|k: int| 0 <= k < i ==> whitespace_class()(#[trigger] c@[k]),
        decreases len - i,
    {
        i += 1;
    }
    proof {
        lemma_run_len_exact(c@, whitespace_class(), i as nat);
    }
    let ghost a = c@.skip(i as int);
    let mut j: usize = len;
    while j > i && is_whitespace(c[j - 1])
        invariant
            len == c@.len(),
            i <= j <= len,
            forall|k: int| j <= k < len ==> whitespace_class()(#[trigger] c@[k]),
        decreases j,
    {
        j -= 1;
    }
    proof {
        let ar = a.reverse();
        assert forall|m: int| 0 <= m < len - j implies whitespace_class()(#[trigger] ar[m]) by {
            assert(ar[m] == c@[len - 1 - m]);
        }
        if j > i {
            assert(ar[len - j] == c@[j - 1]);
        }
        lemma_run_len_exact(ar, whitespace_class(), (len - j) as nat);
    }
    let r = string_of(vstd::slice::slice_subrange(c.as_slice(), i, j));
    assert(r@ =~= trimmed(s@));
    r
}

/// The word that ends the search loop.
pub open spec fn exit_word() -> Seq<char> {
    seq!['e', 'x', 'i', 't']
}

/// Whether the input line asks to leave the search loop: it is `exit`, give
/// or take surrounding white space.
pub fn is_exit(line: &str) -> (r: bool)
    ensures
        r == (trimmed(line@) == exit_word()),
{
    let t = trim(line);
    let exit = string_of(vec!['e', 'x', 'i', 't'].as_slice());
    assert(exit@ == exit_word());
    t == exit
}

} // verus!
