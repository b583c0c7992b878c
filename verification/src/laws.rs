//! Properties that span the indexer and the reverse search.
use vstd::prelude::*;
use vstd::set_lib::lemma_len_subset;
use crate::index::{counts_have_room, index_sections, indexed, page_label, section_id, IndexView};
use crate::lexer::{
    lemma_lex_tokens_len, lemma_next_token_progress, lemma_run_len, lex_tokens, next_token_spec, numeric_class, run_len,
    whitespace_class,
};
use crate::unicode::{char_is_alphabetic, char_is_numeric, char_is_whitespace};
use crate::model::{
    counts_of, distinct_in_order, lemma_counts_push, lemma_distinct_in_order, lemma_occurrences_bound,
    occurrences, with_terms_counted,
};
use crate::reverse_search::{components, page_match, pdf_marker, scan_paths, ReverseSearchError};
use crate::text::{
    contains_pattern, decimal, digits_value, lemma_decimal_digits, lemma_parse_decimal,
    lemma_split_on_concat, parse_i32_spec, split_on,
};

verus! {

/// A string without the separator is a single piece.
proof fn lemma_split_on_single(s: Seq<char>, c: char)
    requires
        forall|i: int| 0 <= i < s.len() ==> s[i] != c,
    ensures
        split_on(s, c) == seq![s],
    decreases s.len(),
{
    if s.len() > 0 {
        lemma_split_on_single(s.drop_last(), c);
        assert(s.drop_last().push(s.last()) =~= s);
        assert(split_on(s, c) =~= seq![s]);
    } else {
        assert(s =~= Seq::<char>::empty());
    }
}

/// The decimal notation has no separator in it.
proof fn lemma_decimal_no_slash(n: nat)
    ensures
        forall|i: int| 0 <= i < decimal(n).len() ==> decimal(n)[i] != '/',
{
    lemma_decimal_digits(n);
    assert forall|i: int| 0 <= i < decimal(n).len() implies decimal(n)[i] != '/' by {
        assert(crate::text::is_digit(decimal(n)[i]));
    }
}

/// Reverse search finds what indexing wrote: matching the identifier under
/// which page `i` of the PDF file at `path` is indexed,
/// `{path}/page/{i}`, against `path` itself gives back page `i`, for a path
/// of three `/`-separated components (such as `./data/report.pdf`).
pub proof fn law_page_identifier_found(path: Seq<char>, i: nat)
    requires
        components(path).len() == 3,
        contains_pattern(path, pdf_marker()),
        i <= i32::MAX,
    ensures
        page_match(section_id(path, page_label(), i), path) == Ok::<
            Option<i32>,
            ReverseSearchError,
        >(Some(i as i32)),
{
    lemma_page_id_components(path, i);
}

/// The components of a page identifier: those of the path, `page`, and the
/// page number, whose parse gives the page back.
proof fn lemma_page_id_components(path: Seq<char>, i: nat)
    requires
        i <= i32::MAX,
    ensures
        components(section_id(path, page_label(), i)) == components(path) + seq![page_label()]
            + seq![decimal(i)],
        parse_i32_spec(decimal(i)) == Some(i as i32),
{
    let d = decimal(i);
    let id = section_id(path, page_label(), i);
    let tail = page_label() + seq!['/'] + d;
    assert(id =~= path + seq!['/'] + tail);
    lemma_split_on_concat(path, tail, '/');
    lemma_split_on_concat(page_label(), d, '/');
    lemma_split_on_single(page_label(), '/');
    lemma_decimal_no_slash(i);
    lemma_split_on_single(d, '/');
    assert(components(id) =~= components(path) + seq![page_label()] + seq![d]);
    lemma_parse_decimal(i);
}

/// Reverse search over a listing finds what indexing wrote: among the
/// listed paths, the identifier of page `i` of the PDF file listed at `j`
/// leads to position `j` and page `i`, where that path has three
/// `/`-separated components and every PDF path listed before it has at
/// least three and a different file name (third component).
pub proof fn law_find_page_round_trip(paths: Seq<Seq<char>>, j: nat, i: nat)
    requires
        j < paths.len(),
        components(paths[j as int]).len() == 3,
        contains_pattern(paths[j as int], pdf_marker()),
        i <= i32::MAX,
        forall|m: int|
            0 <= m < j && contains_pattern(#[trigger] paths[m], pdf_marker()) ==> components(
                paths[m],
            ).len() >= 3 && components(paths[m])[2] != components(paths[j as int])[2],
    ensures
        scan_paths(section_id(paths[j as int], page_label(), i), paths, 0) == Ok::<
            Option<(usize, i32)>,
            ReverseSearchError,
        >(Some((j as usize, i as i32))),
{
    let id = section_id(paths[j as int], page_label(), i);
    lemma_page_id_components(paths[j as int], i);
    law_page_identifier_found(paths[j as int], i);
    let w = components(id);
    assert(w[2] == components(paths[j as int])[2]);
    assert(w[4] == decimal(i));
    assert forall|k: int| 0 <= k < j implies page_match(id, #[trigger] paths[k]) == Ok::<
        Option<i32>,
        ReverseSearchError,
    >(None) by {
        if contains_pattern(paths[k], pdf_marker()) {
            assert(components(paths[k]).len() >= 3);
        }
    }
    lemma_scan_reaches(paths, id, j, 0);
}

proof fn lemma_scan_reaches(paths: Seq<Seq<char>>, id: Seq<char>, j: nat, m: nat)
    requires
        m <= j < paths.len(),
        forall|k: int| m <= k < j ==> page_match(id, #[trigger] paths[k]) == Ok::<
            Option<i32>,
            ReverseSearchError,
        >(None),
    ensures
        scan_paths(id, paths, m) == scan_paths(id, paths, j),
    decreases j - m,
{
    if m < j {
        lemma_scan_reaches(paths, id, j, m + 1);
    }
}

/// The number of sections with text in which `t` occurs as a token.
pub open spec fn sections_with(sections: Seq<Option<Seq<char>>>, t: Seq<char>) -> nat
    decreases sections.len(),
{
    if sections.len() == 0 {
        0
    } else {
        sections_with(sections.drop_last(), t) + match sections.last() {
            Some(c) => if occurrences(lex_tokens(c), t) > 0 { 1nat } else { 0nat },
            None => 0nat,
        }
    }
}

proof fn lemma_sections_with_bound(sections: Seq<Option<Seq<char>>>, t: Seq<char>)
    ensures
        sections_with(sections, t) <= sections.len(),
    decreases sections.len(),
{
    if sections.len() > 0 {
        lemma_sections_with_bound(sections.drop_last(), t);
    }
}

/// Document frequencies count sections: after indexing the sections of a
/// document, a term's document frequency is what it was plus the number of
/// sections it occurs in; a term is recorded once it occurs in one.
pub proof fn law_document_frequency(
    index: IndexView,
    df: Map<Seq<char>, usize>,
    path: Seq<char>,
    label: Seq<char>,
    sections: Seq<Option<Seq<char>>>,
    t: Seq<char>,
)
    requires
        counts_have_room(df, sections.len() as int),
        sections.len() <= usize::MAX,
    ensures
        ({
            let df2 = index_sections(index, df, path, label, sections).1;
            &&& df2.contains_key(t) <==> (df.contains_key(t) || sections_with(sections, t) > 0)
            &&& df2.contains_key(t) ==> df2[t] == (if df.contains_key(t) {
                df[t] as int
            } else {
                0
            }) + sections_with(sections, t)
        }),
    decreases sections.len(),
{
    if sections.len() > 0 {
        let prefix = sections.drop_last();
        assert(counts_have_room(df, prefix.len() as int));
        law_document_frequency(index, df, path, label, prefix, t);
        lemma_sections_with_bound(prefix, t);
        let prev = index_sections(index, df, path, label, prefix);
        let id = section_id(path, label, (sections.len() - 1) as nat);
        match sections.last() {
            None => {
                assert(index_sections(index, df, path, label, sections) == prev);
            },
            Some(c) => {
                let toks = lex_tokens(c);
                assert(index_sections(index, df, path, label, sections) == indexed(
                    prev.0,
                    prev.1,
                    id,
                    c,
                ));
                assert(counts_of(toks).dom().contains(t) <==> occurrences(toks, t) > 0);
                let d2 = with_terms_counted(prev.1, counts_of(toks).dom());
                assert(index_sections(index, df, path, label, sections).1 == d2);
                if prev.1.contains_key(t) && occurrences(toks, t) > 0 {
                    if df.contains_key(t) {
                        assert(df[t] + sections.len() <= usize::MAX);
                    }
                    assert(prev.1[t] + 1 <= usize::MAX);
                    assert(d2[t] == prev.1[t] + 1);
                }
            },
        }
    }
}

/// No term is ever recorded with a document frequency of 0, if none was
/// before.
pub proof fn law_document_frequencies_positive(
    index: IndexView,
    df: Map<Seq<char>, usize>,
    path: Seq<char>,
    label: Seq<char>,
    sections: Seq<Option<Seq<char>>>,
)
    requires
        counts_have_room(df, sections.len() as int),
        sections.len() <= usize::MAX,
        forall|k: Seq<char>| #[trigger] df.contains_key(k) ==> df[k] >= 1,
    ensures
        forall|k: Seq<char>| #[trigger] index_sections(index, df, path, label, sections).1.contains_key(k)
            ==> index_sections(index, df, path, label, sections).1[k] >= 1,
{
    assert forall|k: Seq<char>| #[trigger] index_sections(index, df, path, label, sections).1.contains_key(k)
        implies index_sections(index, df, path, label, sections).1[k] >= 1 by {
        law_document_frequency(index, df, path, label, sections, k);
    }
}

/// Distinct section numbers give distinct identifiers.
proof fn lemma_section_id_injective(path: Seq<char>, label: Seq<char>, i: nat, j: nat)
    requires
        i != j,
    ensures
        section_id(path, label, i) != section_id(path, label, j),
{
    let prefix = path + seq!['/'] + label + seq!['/'];
    assert(section_id(path, label, i) =~= prefix + decimal(i));
    assert(section_id(path, label, j) =~= prefix + decimal(j));
    if section_id(path, label, i) == section_id(path, label, j) {
        assert((prefix + decimal(i)).skip(prefix.len() as int) =~= decimal(i));
        assert((prefix + decimal(j)).skip(prefix.len() as int) =~= decimal(j));
        lemma_decimal_digits(i);
        lemma_decimal_digits(j);
        assert(digits_value(decimal(i)) == digits_value(decimal(j)));
    }
}

/// What indexing records can be read back: after indexing the sections of
/// a document, section `i`, if it has text, is found under
/// `{path}/{label}/{i}` with its token count and term table.
pub proof fn law_section_recorded(
    index: IndexView,
    df: Map<Seq<char>, usize>,
    path: Seq<char>,
    label: Seq<char>,
    sections: Seq<Option<Seq<char>>>,
    i: nat,
)
    requires
        i < sections.len(),
        sections[i as int] is Some,
    ensures
        ({
            let toks = lex_tokens(sections[i as int]->0);
            let recorded = index_sections(index, df, path, label, sections).0;
            &&& recorded.contains_key(section_id(path, label, i))
            &&& recorded[section_id(path, label, i)] == (toks.len() as usize, counts_of(toks))
        }),
    decreases sections.len(),
{
    let n = sections.len();
    let prefix = sections.drop_last();
    if i < n - 1 {
        assert(prefix[i as int] == sections[i as int]);
        law_section_recorded(index, df, path, label, prefix, i);
        lemma_section_id_injective(path, label, i, (n - 1) as nat);
    }
}

/// The sum of the values of `m` at `keys`.
pub open spec fn sum_over(m: Map<Seq<char>, usize>, keys: Seq<Seq<char>>) -> int
    decreases keys.len(),
{
    if keys.len() == 0 {
        0
    } else {
        sum_over(m, keys.drop_last()) + m[keys.last()]
    }
}

proof fn lemma_sum_insert_absent(m: Map<Seq<char>, usize>, keys: Seq<Seq<char>>, x: Seq<char>, v: usize)
    requires
        !keys.contains(x),
    ensures
        sum_over(m.insert(x, v), keys) == sum_over(m, keys),
    decreases keys.len(),
{
    if keys.len() > 0 {
        assert(!keys.drop_last().contains(x)) by {
            if keys.drop_last().contains(x) {
                let i = choose|i: int| 0 <= i < keys.drop_last().len() && keys.drop_last()[i] == x;
                assert(keys[i] == x);
            }
        }
        assert(keys.last() != x) by {
            assert(keys[keys.len() - 1] == keys.last());
        }
        lemma_sum_insert_absent(m, keys.drop_last(), x, v);
    }
}

proof fn lemma_sum_insert_member(m: Map<Seq<char>, usize>, keys: Seq<Seq<char>>, x: Seq<char>, v: usize)
    requires
        keys.no_duplicates(),
        keys.contains(x),
    ensures
        sum_over(m.insert(x, v), keys) == sum_over(m, keys) - m[x] + v,
    decreases keys.len(),
{
    let prev = keys.drop_last();
    assert(prev.no_duplicates()) by {
        assert forall|i: int, j: int| 0 <= i < prev.len() && 0 <= j < prev.len() && i != j implies prev[i] != prev[j] by {
            assert(prev[i] == keys[i] && prev[j] == keys[j]);
        }
    }
    if keys.last() == x {
        assert(!prev.contains(x)) by {
            if prev.contains(x) {
                let i = choose|i: int| 0 <= i < prev.len() && prev[i] == x;
                assert(keys[i] == keys[keys.len() - 1]);
            }
        }
        lemma_sum_insert_absent(m, prev, x, v);
    } else {
        let i = choose|i: int| 0 <= i < keys.len() && keys[i] == x;
        assert(i != keys.len() - 1);
        assert(prev[i] == x);
        lemma_sum_insert_member(m, prev, x, v);
    }
}

/// The counts of a section's term table add up to its number of tokens.
pub proof fn law_counts_add_up(toks: Seq<Seq<char>>)
    requires
        toks.len() <= usize::MAX,
    ensures
        sum_over(counts_of(toks), distinct_in_order(toks)) == toks.len(),
    decreases toks.len(),
{
    if toks.len() == 0 {
    } else {
        let prev = toks.drop_last();
        let x = toks.last();
        assert(prev.push(x) =~= toks);
        law_counts_add_up(prev);
        lemma_counts_push(prev, x);
        lemma_distinct_in_order(prev);
        lemma_occurrences_bound(prev, x);
        let c = counts_of(prev);
        let d = distinct_in_order(prev);
        if d.contains(x) {
            lemma_sum_insert_member(c, d, x, (c[x] + 1) as usize);
        } else {
            lemma_sum_insert_absent(c, d, x, 1usize);
            assert(d.push(x).drop_last() =~= d);
        }
    }
}

/// The tokens, joined.
pub open spec fn concat_all(toks: Seq<Seq<char>>) -> Seq<char>
    decreases toks.len(),
{
    if toks.len() == 0 {
        Seq::empty()
    } else {
        toks[0] + concat_all(toks.drop_first())
    }
}

/// The characters of `s` that are not white space, in order.
pub open spec fn without_whitespace(s: Seq<char>) -> Seq<char>
    decreases s.len(),
{
    if s.len() == 0 {
        Seq::empty()
    } else {
        (if char_is_whitespace(s[0]) {
            Seq::empty()
        } else {
            seq![s[0]]
        }) + without_whitespace(s.drop_first())
    }
}

proof fn lemma_without_whitespace_concat(a: Seq<char>, b: Seq<char>)
    ensures
        without_whitespace(a + b) == without_whitespace(a) + without_whitespace(b),
    decreases a.len(),
{
    if a.len() == 0 {
        assert(a + b =~= b);
        assert(without_whitespace(a) + without_whitespace(b) =~= without_whitespace(b));
    } else {
        assert((a + b).drop_first() =~= a.drop_first() + b);
        assert((a + b)[0] == a[0]);
        lemma_without_whitespace_concat(a.drop_first(), b);
        let h: Seq<char> = if char_is_whitespace(a[0]) { Seq::empty() } else { seq![a[0]] };
        assert(h + (without_whitespace(a.drop_first()) + without_whitespace(b)) =~= (h
            + without_whitespace(a.drop_first())) + without_whitespace(b));
    }
}

proof fn lemma_without_whitespace_all(a: Seq<char>)
    requires
        forall|i: int| 0 <= i < a.len() ==> char_is_whitespace(#[trigger] a[i]),
    ensures
        without_whitespace(a) == Seq::<char>::empty(),
    decreases a.len(),
{
    if a.len() > 0 {
        assert forall|i: int| 0 <= i < a.drop_first().len() implies char_is_whitespace(
            #[trigger] a.drop_first()[i],
        ) by {
            assert(a.drop_first()[i] == a[i + 1]);
        }
        lemma_without_whitespace_all(a.drop_first());
        assert(char_is_whitespace(a[0]));
        assert(without_whitespace(a) =~= Seq::<char>::empty());
    }
}

proof fn lemma_without_whitespace_none(a: Seq<char>)
    requires
        forall|i: int| 0 <= i < a.len() ==> !char_is_whitespace(#[trigger] a[i]),
    ensures
        without_whitespace(a) == a,
    decreases a.len(),
{
    if a.len() > 0 {
        assert forall|i: int| 0 <= i < a.drop_first().len() implies !char_is_whitespace(
            #[trigger] a.drop_first()[i],
        ) by {
            assert(a.drop_first()[i] == a[i + 1]);
        }
        lemma_without_whitespace_none(a.drop_first());
        assert(!char_is_whitespace(a[0]));
        assert(without_whitespace(a) =~= a);
    }
}

/// Joining a first token to the rest.
proof fn lemma_concat_all_cons(tok: Seq<char>, rest: Seq<Seq<char>>)
    ensures
        concat_all(seq![tok] + rest) == tok + concat_all(rest),
{
    let l = seq![tok] + rest;
    assert(l[0] == tok);
    assert(l.drop_first() =~= rest);
}

/// Without letters nothing is stemmed: the tokens of a text with no
/// alphabetic character, joined, are its characters other than white space,
/// in order.
pub proof fn law_letter_free_tokens(s: Seq<char>)
    requires
        forall|i: int| 0 <= i < s.len() ==> !char_is_alphabetic(#[trigger] s[i]),
    ensures
        concat_all(lex_tokens(s)) == without_whitespace(s),
    decreases s.len(),
{
    lemma_next_token_progress(s);
    let w = run_len(s, whitespace_class());
    lemma_run_len(s, whitespace_class());
    let lead = s.take(w as int);
    let t = s.skip(w as int);
    assert(s =~= lead + t);
    lemma_without_whitespace_concat(lead, t);
    assert forall|i: int| 0 <= i < lead.len() implies char_is_whitespace(#[trigger] lead[i]) by {
        assert(whitespace_class()(s[i]));
    }
    lemma_without_whitespace_all(lead);
    assert(without_whitespace(s) == without_whitespace(t));
    if t.len() == 0 {
        assert(lex_tokens(s) == Seq::<Seq<char>>::empty());
        assert(without_whitespace(t) == Seq::<char>::empty());
    } else {
        assert(t[0] == s[w as int]);
        assert(!whitespace_class()(s[w as int]));
        let n: int = if char_is_numeric(t[0]) { run_len(t, numeric_class()) as int } else { 1 };
        if char_is_numeric(t[0]) {
            lemma_run_len(t, numeric_class());
            assert(numeric_class()(t[0]));
        }
        let tok = t.take(n);
        let rest = t.skip(n);
        assert(next_token_spec(s) == (Some(tok), rest));
        assert(lex_tokens(s) == seq![tok] + lex_tokens(rest));
        lemma_concat_all_cons(tok, lex_tokens(rest));
        assert(t =~= tok + rest);
        lemma_without_whitespace_concat(tok, rest);
        assert forall|i: int| 0 <= i < tok.len() implies !char_is_whitespace(#[trigger] tok[i]) by {
            if char_is_numeric(t[0]) {
                assert(numeric_class()(t[i]));
            }
        }
        lemma_without_whitespace_none(tok);
        assert forall|i: int| 0 <= i < rest.len() implies !char_is_alphabetic(#[trigger] rest[i]) by {
            assert(rest[i] == s[w + n + i]);
        }
        law_letter_free_tokens(rest);
    }
}

/// A document as indexing sees it: its path, the label of its sections,
/// and its sections (`None` for one without text).
pub type DocumentSections = (Seq<char>, Seq<char>, Seq<Option<Seq<char>>>);

/// The index and document frequencies after the documents, in order.
pub open spec fn index_documents(
    index: IndexView,
    df: Map<Seq<char>, usize>,
    docs: Seq<DocumentSections>,
) -> (IndexView, Map<Seq<char>, usize>)
    decreases docs.len(),
{
    if docs.len() == 0 {
        (index, df)
    } else {
        let prev = index_documents(index, df, docs.drop_last());
        let d = docs.last();
        index_sections(prev.0, prev.1, d.0, d.1, d.2)
    }
}

/// The identifiers that the sections with text of the document at `path`
/// are recorded under.
pub open spec fn section_ids(path: Seq<char>, label: Seq<char>, sections: Seq<Option<Seq<char>>>) -> Set<
    Seq<char>,
> {
    Set::new(
        |k: Seq<char>|
            exists|i: int|
                0 <= i < sections.len() && sections[i] is Some && k == #[trigger] section_id(
                    path,
                    label,
                    i as nat,
                ),
    )
}

/// No identifier is recorded for two documents.
pub open spec fn distinct_sections(docs: Seq<DocumentSections>) -> bool {
    forall|a: int, b: int, k: Seq<char>|
        0 <= a < b < docs.len() && #[trigger] section_ids(docs[a].0, docs[a].1, docs[a].2).contains(k)
            ==> !#[trigger] section_ids(docs[b].0, docs[b].1, docs[b].2).contains(k)
}

/// The number of sections of all the documents.
pub open spec fn total_sections(docs: Seq<DocumentSections>) -> nat
    decreases docs.len(),
{
    if docs.len() == 0 {
        0
    } else {
        total_sections(docs.drop_last()) + docs.last().2.len()
    }
}

/// Every section's text fits in memory.
pub open spec fn contents_fit(docs: Seq<DocumentSections>) -> bool {
    forall|a: int, i: int|
        0 <= a < docs.len() && 0 <= i < docs[a].2.len() && (#[trigger] docs[a].2[i]) is Some
            ==> docs[a].2[i]->0.len() <= usize::MAX
}

/// The recorded sections whose term table holds `t`.
pub open spec fn containing(index: IndexView, t: Seq<char>) -> Set<Seq<char>> {
    Set::new(|k: Seq<char>| index.dom().contains(k) && index[k].1.contains_key(t))
}

/// The document frequency of `t`, 0 where none is recorded.
pub open spec fn df_count(df: Map<Seq<char>, usize>, t: Seq<char>) -> int {
    if df.contains_key(t) {
        df[t] as int
    } else {
        0
    }
}

/// A recorded section is the count and table of some token sequence: its
/// count is the sum of the table's values over its keys, each at least 1.
pub open spec fn well_counted(e: (usize, Map<Seq<char>, usize>)) -> bool {
    exists|toks: Seq<Seq<char>>|
        {
            &&& #[trigger] counts_of(toks) == e.1
            &&& e.0 == toks.len()
            &&& distinct_in_order(toks).no_duplicates()
            &&& forall|u: Seq<char>| distinct_in_order(toks).contains(u) <==> e.1.contains_key(u)
            &&& sum_over(e.1, distinct_in_order(toks)) == e.0
        }
}

/// The index and document frequencies agree: each term's frequency is the
/// number of recorded sections whose table holds it, and every recorded
/// section is well counted with values of at least 1.
pub open spec fn index_consistent(index: IndexView, df: Map<Seq<char>, usize>) -> bool {
    &&& index.dom().finite()
    &&& forall|t: Seq<char>| #[trigger] df_count(df, t) == containing(index, t).len()
    &&& forall|k: Seq<char>| #[trigger] index.dom().contains(k) ==> well_counted(index[k])
    &&& forall|k: Seq<char>, u: Seq<char>|
        index.dom().contains(k) && #[trigger] index[k].1.contains_key(u) ==> index[k].1[u] >= 1
}

proof fn lemma_index_step(index: IndexView, df: Map<Seq<char>, usize>, id: Seq<char>, c: Seq<char>)
    requires
        index_consistent(index, df),
        !index.dom().contains(id),
        index.dom().len() < usize::MAX,
        c.len() <= usize::MAX,
    ensures
        index_consistent(indexed(index, df, id, c).0, indexed(index, df, id, c).1),
        indexed(index, df, id, c).0.dom() == index.dom().insert(id),
{
    let toks = lex_tokens(c);
    lemma_lex_tokens_len(c);
    let cm = counts_of(toks);
    let t2 = indexed(index, df, id, c).0;
    let d2 = indexed(index, df, id, c).1;
    law_counts_add_up(toks);
    lemma_distinct_in_order(toks);
    assert(t2.dom() =~= index.dom().insert(id));
    assert(well_counted(t2[id])) by {
        assert(t2[id] == (toks.len() as usize, cm));
        assert forall|u: Seq<char>| distinct_in_order(toks).contains(u) <==> cm.contains_key(u) by {}
    }
    assert forall|k: Seq<char>| #[trigger] t2.dom().contains(k) implies well_counted(t2[k]) by {
        if k != id {
            assert(t2[k] == index[k]);
        }
    }
    assert forall|k: Seq<char>, u: Seq<char>|
        t2.dom().contains(k) && #[trigger] t2[k].1.contains_key(u) implies t2[k].1[u] >= 1 by {
        if k == id {
            lemma_occurrences_bound(toks, u);
        } else {
            assert(t2[k] == index[k]);
        }
    }
    assert forall|t: Seq<char>| #[trigger] df_count(d2, t) == containing(t2, t).len() by {
        let before = containing(index, t);
        lemma_len_subset(before, index.dom());
        assert(df_count(df, t) == before.len());
        if cm.contains_key(t) {
            assert(containing(t2, t) =~= before.insert(id)) by {
                assert forall|k: Seq<char>| containing(t2, t).contains(k) implies before.insert(id).contains(k) by {
                    if k != id {
                        assert(t2[k] == index[k]);
                    }
                }
                assert forall|k: Seq<char>| before.insert(id).contains(k) implies containing(t2, t).contains(k) by {
                    if k != id {
                        assert(t2[k] == index[k]);
                    }
                }
            }
            assert(!before.contains(id));
        } else {
            assert(containing(t2, t) =~= before) by {
                assert forall|k: Seq<char>| containing(t2, t).contains(k) implies before.contains(k) by {
                    if k != id {
                        assert(t2[k] == index[k]);
                    }
                }
                assert forall|k: Seq<char>| before.contains(k) implies containing(t2, t).contains(k) by {
                    assert(k != id);
                    assert(t2[k] == index[k]);
                }
            }
        }
    }
}

proof fn lemma_index_sections_consistent(
    index: IndexView,
    df: Map<Seq<char>, usize>,
    path: Seq<char>,
    label: Seq<char>,
    sections: Seq<Option<Seq<char>>>,
)
    requires
        index_consistent(index, df),
        forall|k: Seq<char>| #[trigger] section_ids(path, label, sections).contains(k) ==> !index.dom().contains(k),
        index.dom().len() + sections.len() <= usize::MAX,
        forall|i: int| 0 <= i < sections.len() && (#[trigger] sections[i]) is Some ==> sections[i]->0.len() <= usize::MAX,
    ensures
        index_consistent(
            index_sections(index, df, path, label, sections).0,
            index_sections(index, df, path, label, sections).1,
        ),
        index_sections(index, df, path, label, sections).0.dom() == index.dom().union(
            section_ids(path, label, sections),
        ),
        index_sections(index, df, path, label, sections).0.dom().len() <= index.dom().len() + sections.len(),
    decreases sections.len(),
{
    let n = sections.len();
    if n == 0 {
        assert(section_ids(path, label, sections) =~= Set::<Seq<char>>::empty());
        assert(index.dom().union(section_ids(path, label, sections)) =~= index.dom());
    } else {
        let prefix = sections.drop_last();
        assert forall|k: Seq<char>| #[trigger] section_ids(path, label, prefix).contains(k) implies !index.dom().contains(k) by {
            let i = choose|i: int| 0 <= i < prefix.len() && prefix[i] is Some && k == #[trigger] section_id(path, label, i as nat);
            assert(sections[i] == prefix[i]);
            assert(section_ids(path, label, sections).contains(k));
        }
        assert forall|i: int| 0 <= i < prefix.len() && (#[trigger] prefix[i]) is Some implies prefix[i]->0.len() <= usize::MAX by {
            assert(sections[i] == prefix[i]);
        }
        lemma_index_sections_consistent(index, df, path, label, prefix);
        let prev = index_sections(index, df, path, label, prefix);
        let id = section_id(path, label, (n - 1) as nat);
        let ids_prefix = section_ids(path, label, prefix);
        match sections.last() {
            None => {
                assert(section_ids(path, label, sections) =~= ids_prefix) by {
                    assert forall|k: Seq<char>| section_ids(path, label, sections).contains(k) implies ids_prefix.contains(k) by {
                        let i = choose|i: int| 0 <= i < sections.len() && sections[i] is Some && k == #[trigger] section_id(path, label, i as nat);
                        assert(i != n - 1);
                        assert(prefix[i] == sections[i]);
                    }
                    assert forall|k: Seq<char>| ids_prefix.contains(k) implies section_ids(path, label, sections).contains(k) by {
                        let i = choose|i: int| 0 <= i < prefix.len() && prefix[i] is Some && k == #[trigger] section_id(path, label, i as nat);
                        assert(prefix[i] == sections[i]);
                    }
                }
            },
            Some(c) => {
                assert(sections[n - 1] == sections.last());
                assert(section_ids(path, label, sections).contains(id));
                assert(!index.dom().contains(id));
                assert(!ids_prefix.contains(id)) by {
                    if ids_prefix.contains(id) {
                        let i = choose|i: int| 0 <= i < prefix.len() && prefix[i] is Some && id == #[trigger] section_id(path, label, i as nat);
                        lemma_section_id_injective(path, label, i as nat, (n - 1) as nat);
                    }
                }
                lemma_index_step(prev.0, prev.1, id, c);
                assert(section_ids(path, label, sections) =~= ids_prefix.insert(id)) by {
                    assert forall|k: Seq<char>| section_ids(path, label, sections).contains(k) implies ids_prefix.insert(id).contains(k) by {
                        let i = choose|i: int| 0 <= i < sections.len() && sections[i] is Some && k == #[trigger] section_id(path, label, i as nat);
                        if i != n - 1 {
                            assert(prefix[i] == sections[i]);
                        }
                    }
                    assert forall|k: Seq<char>| ids_prefix.insert(id).contains(k) implies section_ids(path, label, sections).contains(k) by {
                        if k != id {
                            let i = choose|i: int| 0 <= i < prefix.len() && prefix[i] is Some && k == #[trigger] section_id(path, label, i as nat);
                            assert(prefix[i] == sections[i]);
                        }
                    }
                }
                assert(prev.0.dom().insert(id) =~= index.dom().union(section_ids(path, label, sections)));
            },
        }
    }
}

/// The union of the identifiers of the documents.
pub open spec fn all_section_ids(docs: Seq<DocumentSections>) -> Set<Seq<char>> {
    Set::new(
        |k: Seq<char>|
            exists|a: int| 0 <= a < docs.len() && #[trigger] section_ids(docs[a].0, docs[a].1, docs[a].2).contains(k),
    )
}

proof fn lemma_index_documents_consistent(docs: Seq<DocumentSections>)
    requires
        distinct_sections(docs),
        contents_fit(docs),
        total_sections(docs) <= usize::MAX,
    ensures
        index_consistent(
            index_documents(IndexView::empty(), Map::empty(), docs).0,
            index_documents(IndexView::empty(), Map::empty(), docs).1,
        ),
        index_documents(IndexView::empty(), Map::empty(), docs).0.dom() == all_section_ids(docs),
        index_documents(IndexView::empty(), Map::empty(), docs).0.dom().len() <= total_sections(docs),
    decreases docs.len(),
{
    if docs.len() == 0 {
        let e = IndexView::empty();
        assert(e.dom() =~= Set::<Seq<char>>::empty());
        assert(all_section_ids(docs) =~= Set::<Seq<char>>::empty());
        assert forall|t: Seq<char>| #[trigger] df_count(Map::<Seq<char>, usize>::empty(), t) == containing(e, t).len() by {
            assert(containing(e, t) =~= Set::<Seq<char>>::empty());
        }
    } else {
        let prefix = docs.drop_last();
        let d = docs.last();
        assert(distinct_sections(prefix)) by {
            assert forall|a: int, b: int, k: Seq<char>|
                0 <= a < b < prefix.len() && #[trigger] section_ids(prefix[a].0, prefix[a].1, prefix[a].2).contains(k)
                    implies !#[trigger] section_ids(prefix[b].0, prefix[b].1, prefix[b].2).contains(k) by {
                assert(prefix[a] == docs[a] && prefix[b] == docs[b]);
            }
        }
        assert(contents_fit(prefix)) by {
            assert forall|a: int, i: int|
                0 <= a < prefix.len() && 0 <= i < prefix[a].2.len() && (#[trigger] prefix[a].2[i]) is Some
                    implies prefix[a].2[i]->0.len() <= usize::MAX by {
                assert(prefix[a] == docs[a]);
            }
        }
        lemma_index_documents_consistent(prefix);
        let prev = index_documents(IndexView::empty(), Map::empty(), prefix);
        assert(docs[docs.len() - 1] == d);
        assert forall|k: Seq<char>| #[trigger] section_ids(d.0, d.1, d.2).contains(k) implies !prev.0.dom().contains(k) by {
            if prev.0.dom().contains(k) {
                let a = choose|a: int| 0 <= a < prefix.len() && #[trigger] section_ids(prefix[a].0, prefix[a].1, prefix[a].2).contains(k);
                assert(prefix[a] == docs[a]);
                assert(section_ids(docs[docs.len() - 1].0, docs[docs.len() - 1].1, docs[docs.len() - 1].2).contains(k));
            }
        }
        assert forall|i: int| 0 <= i < d.2.len() && (#[trigger] d.2[i]) is Some implies d.2[i]->0.len() <= usize::MAX by {
            assert(docs[docs.len() - 1].2[i] == d.2[i]);
        }
        lemma_index_sections_consistent(prev.0, prev.1, d.0, d.1, d.2);
        assert(all_section_ids(docs) =~= all_section_ids(prefix).union(section_ids(d.0, d.1, d.2))) by {
            assert forall|k: Seq<char>| all_section_ids(docs).contains(k) implies all_section_ids(prefix).union(section_ids(d.0, d.1, d.2)).contains(k) by {
                let a = choose|a: int| 0 <= a < docs.len() && #[trigger] section_ids(docs[a].0, docs[a].1, docs[a].2).contains(k);
                if a < docs.len() - 1 {
                    assert(prefix[a] == docs[a]);
                }
            }
            assert forall|k: Seq<char>| all_section_ids(prefix).union(section_ids(d.0, d.1, d.2)).contains(k) implies all_section_ids(docs).contains(k) by {
                if all_section_ids(prefix).contains(k) {
                    let a = choose|a: int| 0 <= a < prefix.len() && #[trigger] section_ids(prefix[a].0, prefix[a].1, prefix[a].2).contains(k);
                    assert(prefix[a] == docs[a]);
                } else {
                    assert(section_ids(docs[docs.len() - 1].0, docs[docs.len() - 1].1, docs[docs.len() - 1].2).contains(k));
                }
            }
        }
    }
}

/// Over the whole index: indexing a sequence of documents, from an empty
/// index, with no identifier recorded twice, gives each term a document
/// frequency equal to the number of recorded sections whose table holds it
/// (0 for a term never seen), and each recorded section a count that is the
/// sum of its table's values, each at least 1.
pub proof fn law_whole_index(docs: Seq<DocumentSections>)
    requires
        distinct_sections(docs),
        contents_fit(docs),
        total_sections(docs) <= usize::MAX,
    ensures
        index_consistent(
            index_documents(IndexView::empty(), Map::empty(), docs).0,
            index_documents(IndexView::empty(), Map::empty(), docs).1,
        ),
{
    lemma_index_documents_consistent(docs);
}

} // verus!
