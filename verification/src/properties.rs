//! What the operations do, stated directly over their inputs and results:
//! the tokenizer's steps, the query scores, the file kinds, the command
//! line and the paragraphs of a text.
use vstd::prelude::*;
use crate::command::{is_command_for, Command};
use crate::index::{as_sections, file_kind, index_sections, paragraph_label, paragraphs, FileKind, IndexView};
use crate::lexer::{
    alphanumeric_class, lemma_run_len, lemma_run_len_exact, lex_tokens, next_token_spec,
    numeric_class, run_len, whitespace_class,
};
use crate::model::{counts_of, with_terms_counted};
use crate::search::score_terms_spec;
use crate::stem::english_stem;
use crate::text::{
    contains_pattern, first_match_from, lemma_first_match_from, matches_at, replace_all, split_by,
};
use crate::reverse_search::{page_match, scan_paths, ReverseSearchError};
use crate::search::trimmed;
use crate::unicode::{char_is_alphabetic, char_is_alphanumeric, char_is_numeric, char_is_whitespace};

verus! {

/// The first `w` characters of `s` are white space and character `w` is not.
pub open spec fn leading_blank(s: Seq<char>, w: int) -> bool {
    &&& 0 <= w < s.len()
    &&& forall|i: int| 0 <= i < w ==> char_is_whitespace(#[trigger] s[i])
    &&& !char_is_whitespace(s[w])
}

proof fn lemma_leading(s: Seq<char>, w: int)
    requires
        leading_blank(s, w),
    ensures
        run_len(s, whitespace_class()) == w,
{
    assert forall|i: int| 0 <= i < w implies whitespace_class()(#[trigger] s[i]) by {}
    lemma_run_len_exact(s, whitespace_class(), w as nat);
}

/// A text of white space only yields no token and leaves nothing.
pub proof fn law_next_token_blank(s: Seq<char>)
    requires
        forall|i: int| 0 <= i < s.len() ==> char_is_whitespace(#[trigger] s[i]),
    ensures
        next_token_spec(s) == (None::<Seq<char>>, Seq::<char>::empty()),
{
    assert forall|i: int| 0 <= i < s.len() implies whitespace_class()(#[trigger] s[i]) by {}
    lemma_run_len_exact(s, whitespace_class(), s.len());
    assert(s.skip(s.len() as int) =~= Seq::<char>::empty());
}

/// After the leading white space, a run of `n` numeric characters (the
/// longest there) is the token as it stands, and the text goes on right
/// after it.
pub proof fn law_next_token_number(s: Seq<char>, w: int, n: int)
    requires
        leading_blank(s, w),
        char_is_numeric(s[w]),
        1 <= n,
        w + n <= s.len(),
        forall|i: int| w <= i < w + n ==> char_is_numeric(#[trigger] s[i]),
        w + n == s.len() || !char_is_numeric(s[w + n]),
    ensures
        next_token_spec(s) == (Some(s.subrange(w, w + n)), s.skip(w + n)),
{
    lemma_leading(s, w);
    let t = s.skip(w);
    assert forall|i: int| 0 <= i < n implies numeric_class()(#[trigger] t[i]) by {
        assert(t[i] == s[w + i]);
    }
    if w + n < s.len() {
        assert(t[n] == s[w + n]);
    }
    lemma_run_len_exact(t, numeric_class(), n as nat);
    assert(t[0] == s[w]);
    assert(t.take(n) =~= s.subrange(w, w + n));
    assert(t.skip(n) =~= s.skip(w + n));
}

/// After the leading white space, a word (an alphabetic, not numeric,
/// character and the longest run of alphanumeric characters from it, `n` in
/// all) yields the English stem of the whole run, digits included, and the
/// text goes on right after it.
pub proof fn law_next_token_word(s: Seq<char>, w: int, n: int)
    requires
        leading_blank(s, w),
        !char_is_numeric(s[w]),
        char_is_alphabetic(s[w]),
        1 <= n,
        w + n <= s.len(),
        forall|i: int| w <= i < w + n ==> char_is_alphanumeric(#[trigger] s[i]),
        w + n == s.len() || !char_is_alphanumeric(s[w + n]),
    ensures
        next_token_spec(s) == (Some(english_stem(s.subrange(w, w + n))), s.skip(w + n)),
{
    lemma_leading(s, w);
    let t = s.skip(w);
    assert forall|i: int| 0 <= i < n implies alphanumeric_class()(#[trigger] t[i]) by {
        assert(t[i] == s[w + i]);
    }
    if w + n < s.len() {
        assert(t[n] == s[w + n]);
    }
    lemma_run_len_exact(t, alphanumeric_class(), n as nat);
    assert(t[0] == s[w]);
    assert(t.take(n) =~= s.subrange(w, w + n));
    assert(t.skip(n) =~= s.skip(w + n));
}

/// After the leading white space, a character that is neither numeric nor
/// alphabetic is a token of its own.
pub proof fn law_next_token_symbol(s: Seq<char>, w: int)
    requires
        leading_blank(s, w),
        !char_is_numeric(s[w]),
        !char_is_alphabetic(s[w]),
    ensures
        next_token_spec(s) == (Some(seq![s[w]]), s.skip(w + 1)),
{
    lemma_leading(s, w);
    let t = s.skip(w);
    assert(t[0] == s[w]);
    assert(t.take(1) =~= seq![s[w]]);
    assert(t.skip(1) =~= s.skip(w + 1));
}

/// Scoring a section: the result scores the query tokens in order, one
/// entry per token, repeats included, each the token's count in the
/// section (0 if none) and its document count (1 if none); it stops
/// exactly before the first token whose score is not a number.  With a
/// section of some tokens in an index of some sections, every token is
/// scored.
pub proof fn law_score_terms(
    toks: Seq<Seq<char>>,
    n: usize,
    tf: Map<Seq<char>, usize>,
    num_docs: usize,
    df: Map<Seq<char>, usize>,
)
    ensures
        ({
            let r = score_terms_spec(toks, n, tf, num_docs, df);
            &&& r.len() <= toks.len()
            &&& forall|i: int|
                0 <= i < r.len() ==> #[trigger] r[i] == (
                    if tf.contains_key(toks[i]) { tf[toks[i]] } else { 0usize },
                    if df.contains_key(toks[i]) { df[toks[i]] } else { 1usize },
                )
            &&& forall|i: int|
                0 <= i < r.len() ==> !((#[trigger] r[i]).0 == 0 && n == 0) && !(num_docs == 0
                    && r[i].1 == 0)
            &&& r.len() < toks.len() ==> {
                let tok = toks[r.len() as int];
                let a: usize = if tf.contains_key(tok) { tf[tok] } else { 0usize };
                let m: usize = if df.contains_key(tok) { df[tok] } else { 1usize };
                (a == 0 && n == 0) || (num_docs == 0 && m == 0)
            }
            &&& n > 0 && num_docs > 0 ==> r.len() == toks.len()
        }),
    decreases toks.len(),
{
    if toks.len() > 0 {
        let rest = toks.drop_first();
        law_score_terms(rest, n, tf, num_docs, df);
        let r = score_terms_spec(toks, n, tf, num_docs, df);
        let rr = score_terms_spec(rest, n, tf, num_docs, df);
        let tok = toks[0];
        let a: usize = if tf.contains_key(tok) { tf[tok] } else { 0usize };
        let m: usize = if df.contains_key(tok) { df[tok] } else { 1usize };
        if !((a == 0 && n == 0) || (num_docs == 0 && m == 0)) {
            assert(r == seq![(a, m)] + rr);
            assert forall|i: int| 0 < i < r.len() implies #[trigger] r[i] == rr[i - 1] by {}
            assert forall|i: int| 0 < i < r.len() implies toks[i] == rest[i - 1] by {}
            if r.len() < toks.len() {
                assert(toks[r.len() as int] == rest[rr.len() as int]);
            }
        }
    }
}

/// The file kinds by name, in order of precedence: `.pdf`; else `.git`;
/// else `.txt`; else `.docx` or `doc`; else `.ppt`; else none.
pub proof fn law_file_kind(path: Seq<char>)
    ensures
        contains_pattern(path, seq!['.', 'p', 'd', 'f']) ==> file_kind(path) == FileKind::Pdf,
        !contains_pattern(path, seq!['.', 'p', 'd', 'f']) && contains_pattern(
            path,
            seq!['.', 'g', 'i', 't'],
        ) ==> file_kind(path) == FileKind::Git,
        !contains_pattern(path, seq!['.', 'p', 'd', 'f']) && !contains_pattern(
            path,
            seq!['.', 'g', 'i', 't'],
        ) && contains_pattern(path, seq!['.', 't', 'x', 't']) ==> file_kind(path) == FileKind::Text,
        !contains_pattern(path, seq!['.', 'p', 'd', 'f']) && !contains_pattern(
            path,
            seq!['.', 'g', 'i', 't'],
        ) && !contains_pattern(path, seq!['.', 't', 'x', 't']) && contains_pattern(
            path,
            seq!['d', 'o', 'c'],
        ) ==> file_kind(path) == FileKind::Word,
        !contains_pattern(path, seq!['.', 'p', 'd', 'f']) && !contains_pattern(
            path,
            seq!['.', 'g', 'i', 't'],
        ) && !contains_pattern(path, seq!['.', 't', 'x', 't']) && !contains_pattern(
            path,
            seq!['d', 'o', 'c'],
        ) && contains_pattern(path, seq!['.', 'p', 'p', 't']) ==> file_kind(path)
            == FileKind::Presentation,
        !contains_pattern(path, seq!['.', 'p', 'd', 'f']) && !contains_pattern(
            path,
            seq!['.', 'g', 'i', 't'],
        ) && !contains_pattern(path, seq!['.', 't', 'x', 't']) && !contains_pattern(
            path,
            seq!['d', 'o', 'c'],
        ) && !contains_pattern(path, seq!['.', 'p', 'p', 't']) ==> file_kind(path)
            == FileKind::Other,
{
    if contains_pattern(path, seq!['.', 'd', 'o', 'c', 'x']) {
        let i = choose|i: int| matches_at(path, seq!['.', 'd', 'o', 'c', 'x'], i);
        let m = path.subrange(i, i + 5);
        assert(m == seq!['.', 'd', 'o', 'c', 'x']);
        assert(m[1] == 'd' && m[2] == 'o' && m[3] == 'c');
        assert(path[i + 1] == m[1] && path[i + 2] == m[2] && path[i + 3] == m[3]);
        assert(path.subrange(i + 1, i + 4) =~= seq!['d', 'o', 'c']);
        assert(matches_at(path, seq!['d', 'o', 'c'], i + 1));
    }
}

/// The command line: the word after the program's name picks the command,
/// and the argument after that word, where there is one, is what `index`
/// indexes (else `./data`) and what `search` looks for (else the terminal
/// is asked).
pub proof fn law_command_arguments(c: Command, args: Seq<Seq<char>>)
    requires
        is_command_for(c, args),
    ensures
        args.len() < 2 ==> c is Usage,
        args.len() >= 3 && args[1] == seq!['i', 'n', 'd', 'e', 'x'] ==> (c matches Command::Index(
            f,
        ) && f@ == args[2]),
        args.len() == 2 && args[1] == seq!['i', 'n', 'd', 'e', 'x'] ==> (c matches Command::Index(
            f,
        ) && f@ == seq!['.', '/', 'd', 'a', 't', 'a']),
        args.len() >= 3 && args[1] == seq!['s', 'e', 'a', 'r', 'c', 'h'] ==> (c matches Command::Search(
            Some(q),
        ) && q@ == args[2]),
        args.len() == 2 && args[1] == seq!['s', 'e', 'a', 'r', 'c', 'h'] ==> (c matches Command::Search(
            None,
        )),
        args.len() >= 2 && args[1] == seq!['s', 'e', 'r', 'v', 'e'] ==> c is Serve,
        args.len() >= 2 && args[1] != seq!['i', 'n', 'd', 'e', 'x'] && args[1] != seq![
            's',
            'e',
            'a',
            'r',
            'c',
            'h',
        ] && args[1] != seq!['s', 'e', 'r', 'v', 'e'] ==> (c matches Command::Unknown(name)
            && name@ == args[1]),
{
}

/// The pieces joined again with the separator between them.
pub open spec fn join_with(pieces: Seq<Seq<char>>, sep: Seq<char>) -> Seq<char>
    decreases pieces.len(),
{
    if pieces.len() == 0 {
        Seq::empty()
    } else if pieces.len() == 1 {
        pieces[0]
    } else {
        pieces[0] + sep + join_with(pieces.drop_first(), sep)
    }
}

/// Splitting at a non-empty separator cuts the text at its occurrences:
/// joining the pieces with it gives the text back, and no piece holds it.
pub proof fn law_split_by(s: Seq<char>, sep: Seq<char>)
    requires
        sep.len() > 0,
    ensures
        split_by(s, sep).len() >= 1,
        join_with(split_by(s, sep), sep) == s,
        forall|k: int| 0 <= k < split_by(s, sep).len() ==> !contains_pattern(#[trigger] split_by(s, sep)[k], sep),
    decreases s.len(),
{
    let i = first_match_from(s, sep, 0);
    lemma_first_match_from(s, sep, 0);
    if i < 0 {
        assert(split_by(s, sep) == seq![s]);
        assert(!contains_pattern(s, sep));
    } else {
        let head = s.take(i);
        let tail = s.skip(i + sep.len());
        law_split_by(tail, sep);
        let rest = split_by(tail, sep);
        let p = split_by(s, sep);
        assert(p == seq![head] + rest);
        assert(p[0] == head);
        assert(p.drop_first() =~= rest);
        assert(s.subrange(i, i + sep.len()) == sep);
        assert(join_with(p, sep) == head + sep + tail);
        assert(head + sep + tail =~= s) by {
            assert(s =~= s.take(i) + s.subrange(i, i + sep.len()) + s.skip(i + sep.len()));
        }
        assert(!contains_pattern(head, sep)) by {
            if contains_pattern(head, sep) {
                let k = choose|k: int| matches_at(head, sep, k);
                assert(head.subrange(k, k + sep.len()) =~= s.subrange(k, k + sep.len()));
                assert(matches_at(s, sep, k));
            }
        }
        assert forall|k: int| 0 <= k < p.len() implies !contains_pattern(#[trigger] p[k], sep) by {
            if k > 0 {
                assert(p[k] == rest[k - 1]);
            }
        }
    }
}

/// A text without a `\r\n` line end is one paragraph: indexing it records
/// exactly one section, `{path}/paragraph/0`, with the count and table of
/// all its tokens, and counts its terms once.
pub proof fn law_text_without_crlf(
    index: IndexView,
    df: Map<Seq<char>, usize>,
    path: Seq<char>,
    c: Seq<char>,
)
    requires
        !contains_pattern(c, seq!['\r', '\n']),
    ensures
        paragraphs(c) == seq![c],
        index_sections(index, df, path, paragraph_label(), as_sections(paragraphs(c))) == (
            index.insert(
                path + seq!['/', 'p', 'a', 'r', 'a', 'g', 'r', 'a', 'p', 'h', '/', '0'],
                (lex_tokens(c).len() as usize, counts_of(lex_tokens(c))),
            ),
            with_terms_counted(df, counts_of(lex_tokens(c)).dom()),
        ),
{
    let crlf = seq!['\r', '\n'];
    lemma_first_match_from(c, crlf, 0);
    if first_match_from(c, crlf, 0) >= 0 {
        assert(matches_at(c, crlf, first_match_from(c, crlf, 0)));
    }
    assert(split_by(c, crlf) == seq![c]);
    let secs = as_sections(paragraphs(c));
    assert(secs.len() == 1);
    assert(secs.drop_last() =~= Seq::<Option<Seq<char>>>::empty());
    assert(index_sections(index, df, path, paragraph_label(), secs.drop_last()) == (index, df));
    assert(secs.last() == Some(c));
    assert(crate::text::decimal(0) == seq!['0']);
    assert(crate::index::section_id(path, paragraph_label(), 0) =~= path + seq![
        '/',
        'p',
        'a',
        'r',
        'a',
        'g',
        'r',
        'a',
        'p',
        'h',
        '/',
        '0',
    ]);
}

/// The paragraphs of a text are cut at its `\r\n` line ends when that
/// gives at most 100 pieces, and at its `\n` line ends otherwise: joined
/// again with that line end they give the text back, and none holds it.
pub proof fn law_paragraphs(c: Seq<char>)
    ensures
        paragraphs(c).len() >= 1,
        split_by(c, seq!['\r', '\n']).len() <= 100 ==> {
            &&& join_with(paragraphs(c), seq!['\r', '\n']) == c
            &&& forall|k: int|
                0 <= k < paragraphs(c).len() ==> !contains_pattern(#[trigger] paragraphs(c)[k], seq!['\r', '\n'])
        },
        split_by(c, seq!['\r', '\n']).len() > 100 ==> {
            &&& join_with(paragraphs(c), seq!['\n']) == c
            &&& forall|k: int|
                0 <= k < paragraphs(c).len() ==> !contains_pattern(#[trigger] paragraphs(c)[k], seq!['\n'])
        },
{
    law_split_by(c, seq!['\r', '\n']);
    law_split_by(c, seq!['\n']);
}

/// Replacing cuts the text at the pattern's occurrences and joins the
/// pieces with the replacement instead.
pub proof fn law_replace_all(s: Seq<char>, from: Seq<char>, to: Seq<char>)
    requires
        from.len() > 0,
    ensures
        replace_all(s, from, to) == join_with(split_by(s, from), to),
    decreases s.len(),
{
    let i = first_match_from(s, from, 0);
    lemma_first_match_from(s, from, 0);
    if i >= 0 {
        let tail = s.skip(i + from.len());
        law_replace_all(tail, from, to);
        law_split_by(tail, from);
        let p = split_by(s, from);
        assert(p == seq![s.take(i)] + split_by(tail, from));
        assert(p[0] == s.take(i));
        assert(p.drop_first() =~= split_by(tail, from));
    }
}

/// Reverse search over a listing stops at the first path that matches or
/// errs: every path before it does not match, and what it gives is that
/// path's own answer; where it finds nothing, no path matches.
pub proof fn law_scan_paths_first(wanted: Seq<char>, paths: Seq<Seq<char>>, i: nat)
    requires
        paths.len() <= usize::MAX,
    ensures
        match scan_paths(wanted, paths, i) {
            Ok(None) => forall|k: int| i <= k < paths.len() ==> page_match(wanted, #[trigger] paths[k])
                == Ok::<Option<i32>, ReverseSearchError>(None),
            Ok(Some((j, p))) => i <= j < paths.len() && page_match(wanted, paths[j as int]) == Ok::<
                Option<i32>,
                ReverseSearchError,
            >(Some(p)) && forall|k: int| i <= k < j ==> page_match(wanted, #[trigger] paths[k])
                == Ok::<Option<i32>, ReverseSearchError>(None),
            Err(e) => exists|j: int|
                i <= j < paths.len() && page_match(wanted, #[trigger] paths[j]) == Err::<
                    Option<i32>,
                    ReverseSearchError,
                >(e) && forall|k: int| i <= k < j ==> page_match(wanted, #[trigger] paths[k])
                    == Ok::<Option<i32>, ReverseSearchError>(None),
        },
    decreases paths.len() - i,
{
    if i < paths.len() {
        law_scan_paths_first(wanted, paths, i + 1);
        match page_match(wanted, paths[i as int]) {
            Err(e) => {
                assert(scan_paths(wanted, paths, i) == Err::<Option<(usize, i32)>, ReverseSearchError>(e));
                assert(page_match(wanted, paths[i as int]) == Err::<Option<i32>, ReverseSearchError>(e));
                assert(forall|k: int| i <= k < i ==> page_match(wanted, #[trigger] paths[k])
                    == Ok::<Option<i32>, ReverseSearchError>(None));
            },
            Ok(Some(p)) => {
                assert(scan_paths(wanted, paths, i) == Ok::<Option<(usize, i32)>, ReverseSearchError>(Some((i as usize, p))));
            },
            Ok(None) => {
                match scan_paths(wanted, paths, i + 1) {
                    Err(e) => {
                        let j = choose|j: int|
                            i + 1 <= j < paths.len() && page_match(wanted, #[trigger] paths[j]) == Err::<
                                Option<i32>,
                                ReverseSearchError,
                            >(e) && forall|k: int| i + 1 <= k < j ==> page_match(wanted, #[trigger] paths[k])
                                == Ok::<Option<i32>, ReverseSearchError>(None);
                        assert(i <= j < paths.len() && page_match(wanted, paths[j]) == Err::<
                            Option<i32>,
                            ReverseSearchError,
                        >(e));
                    },
                    _ => {},
                }
                assert(scan_paths(wanted, paths, i) == scan_paths(wanted, paths, i + 1));
            },
        }
    }
}

/// Trimming drops exactly the white space at both ends: the text is some
/// white space, the trimmed text, and some white space, and the trimmed
/// text neither starts nor ends with white space.
pub proof fn law_trimmed(s: Seq<char>)
    ensures
        exists|a: int, b: int|
            0 <= a <= b <= s.len() && trimmed(s) == s.subrange(a, b) && (forall|i: int|
                0 <= i < a ==> char_is_whitespace(#[trigger] s[i])) && (forall|i: int|
                b <= i < s.len() ==> char_is_whitespace(#[trigger] s[i])),
        trimmed(s).len() > 0 ==> !char_is_whitespace(trimmed(s)[0]) && !char_is_whitespace(
            trimmed(s).last(),
        ),
{
    let w = run_len(s, whitespace_class());
    lemma_run_len(s, whitespace_class());
    let x = s.skip(w as int);
    let xr = x.reverse();
    let v = run_len(xr, whitespace_class());
    lemma_run_len(xr, whitespace_class());
    let a = w as int;
    let b = s.len() - v;
    assert(trimmed(s) =~= s.subrange(a, b));
    assert forall|i: int| 0 <= i < a implies char_is_whitespace(#[trigger] s[i]) by {
        assert(whitespace_class()(s[i]));
    }
    assert forall|i: int| b <= i < s.len() implies char_is_whitespace(#[trigger] s[i]) by {
        assert(xr[s.len() - 1 - i] == s[i]);
        assert(whitespace_class()(xr[s.len() - 1 - i]));
    }
    if trimmed(s).len() > 0 {
        assert(trimmed(s)[0] == s[a]);
        assert(!whitespace_class()(s[a]));
        assert(trimmed(s).last() == s[b - 1]);
        assert(xr[v as int] == s[b - 1]);
        assert(!whitespace_class()(xr[v as int]));
    }
}

} // verus!
