//! The tokenizer: splits a character sequence into numbers, stemmed words
//! and single punctuation characters, skipping whitespace.
use vstd::prelude::*;
use crate::stem::{english_stem, stem_english};
use crate::text::string_of;
use crate::unicode::{
    char_is_alphabetic, char_is_alphanumeric, char_is_numeric, char_is_whitespace, is_alphabetic,
    is_alphanumeric, is_numeric, is_whitespace,
};

verus! {

/// The whitespace class, as a predicate.
pub open spec fn whitespace_class() -> spec_fn(char) -> bool {
    |c: char| char_is_whitespace(c)
}

/// The numeric class, as a predicate.
pub open spec fn numeric_class() -> spec_fn(char) -> bool {
    |c: char| char_is_numeric(c)
}

/// The alphanumeric class, as a predicate.
pub open spec fn alphanumeric_class() -> spec_fn(char) -> bool {
    |c: char| char_is_alphanumeric(c)
}

/// The length of the longest prefix of `s` whose characters all satisfy `p`.
pub open spec fn run_len(s: Seq<char>, p: spec_fn(char) -> bool) -> nat
    decreases s.len(),
{
    if s.len() == 0 || !p(s[0]) {
        0
    } else {
        1 + run_len(s.drop_first(), p)
    }
}

/// `run_len` is the length of the longest prefix whose characters satisfy `p`.
pub proof fn lemma_run_len(s: Seq<char>, p: spec_fn(char) -> bool)
    ensures
        run_len(s, p) <= s.len(),
        forall|i: int| 0 <= i < run_len(s, p) ==> p(#[trigger] s[i]),
        run_len(s, p) < s.len() ==> !p(s[run_len(s, p) as int]),
    decreases s.len(),
{
    if s.len() > 0 && p(s[0]) {
        lemma_run_len(s.drop_first(), p);
        assert forall|i: int| 0 <= i < run_len(s, p) implies p(#[trigger] s[i]) by {
            if i > 0 {
                assert(s[i] == s.drop_first()[i - 1]);
            }
        }
    }
}

/// A prefix of length `n` whose characters satisfy `p`, followed by the end
/// or by a character that does not, is the longest such prefix.
pub proof fn lemma_run_len_exact(s: Seq<char>, p: spec_fn(char) -> bool, n: nat)
    requires
        n <= s.len(),
        forall|i: int| 0 <= i < n ==> p(#[trigger] s[i]),
        n == s.len() || !p(s[n as int]),
    ensures
        run_len(s, p) == n,
    decreases n,
{
    if n > 0 {
        assert(p(s[0]));
        let t = s.drop_first();
        assert forall|i: int| 0 <= i < n - 1 implies p(#[trigger] t[i]) by {
            assert(t[i] == s[i + 1]);
        }
        if n < s.len() {
            assert(t[n - 1] == s[n as int]);
        }
        lemma_run_len_exact(t, p, (n - 1) as nat);
    }
}

/// `s` without its leading whitespace.
pub open spec fn skip_whitespace(s: Seq<char>) -> Seq<char> {
    s.skip(run_len(s, whitespace_class()) as int)
}

/// One step of the tokenizer on `s`: the token it yields, if any, and the
/// characters that remain after it.
///
/// Leading whitespace is skipped.  A run of numeric characters is a token
/// as it stands; a word (an alphabetic character and the alphanumeric ones
/// after it) yields its English stem; any other character is a token of its
/// own.  Only whitespace, or nothing, yields no token.
pub open spec fn next_token_spec(s: Seq<char>) -> (Option<Seq<char>>, Seq<char>) {
    let t = skip_whitespace(s);
    if t.len() == 0 {
        (None, t)
    } else if char_is_numeric(t[0]) {
        let n = run_len(t, numeric_class());
        (Some(t.take(n as int)), t.skip(n as int))
    } else if char_is_alphabetic(t[0]) {
        let n = run_len(t, alphanumeric_class());
        (Some(english_stem(t.take(n as int))), t.skip(n as int))
    } else {
        (Some(t.take(1)), t.skip(1))
    }
}

/// Each step consumes at least one character when it yields a token, and
/// what remains is a suffix of what was there.
pub proof fn lemma_next_token_progress(s: Seq<char>)
    ensures
        next_token_spec(s).1.len() <= s.len(),
        next_token_spec(s).1 == s.skip(s.len() - next_token_spec(s).1.len()),
        next_token_spec(s).0 is Some ==> next_token_spec(s).1.len() < s.len(),
        next_token_spec(s).0 is None <==> forall|i: int| 0 <= i < s.len() ==> char_is_whitespace(
            #[trigger] s[i],
        ),
{
    let w = run_len(s, whitespace_class());
    lemma_run_len(s, whitespace_class());
    let t = skip_whitespace(s);
    if t.len() == 0 {
        assert forall|i: int| 0 <= i < s.len() implies char_is_whitespace(#[trigger] s[i]) by {
            assert(whitespace_class()(s[i]));
        }
        assert(t =~= s.skip(s.len() as int));
    } else {
        assert(!whitespace_class()(s[w as int]));
        assert(!char_is_whitespace(s[w as int]));
        if char_is_numeric(t[0]) {
            let n = run_len(t, numeric_class());
            lemma_run_len(t, numeric_class());
            assert(numeric_class()(t[0]));
            assert(t.skip(n as int) =~= s.skip((w + n) as int));
        } else if char_is_alphabetic(t[0]) {
            let n = run_len(t, alphanumeric_class());
            lemma_run_len(t, alphanumeric_class());
            assert(alphanumeric_class()(t[0]));
            assert(t.skip(n as int) =~= s.skip((w + n) as int));
        } else {
            assert(t.skip(1) =~= s.skip((w + 1) as int));
        }
    }
}

/// The tokens that the tokenizer yields from `s`, in order.
pub open spec fn lex_tokens(s: Seq<char>) -> Seq<Seq<char>>
    decreases s.len(),
{
    match next_token_spec(s).0 {
        None => Seq::empty(),
        Some(tok) => {
            proof {
                lemma_next_token_progress(s);
            }
            seq![tok] + lex_tokens(next_token_spec(s).1)
        },
    }
}

/// The tokenizer yields at most one token per character.
pub proof fn lemma_lex_tokens_len(s: Seq<char>)
    ensures
        lex_tokens(s).len() <= s.len(),
    decreases s.len(),
{
    lemma_next_token_progress(s);
    if next_token_spec(s).0 is Some {
        lemma_lex_tokens_len(next_token_spec(s).1);
    }
}

/// The view of an optional token.
pub open spec fn token_view(t: Option<String>) -> Option<Seq<char>> {
    match t {
        Some(s) => Some(s@),
        None => None,
    }
}

/// A tokenizer over a borrowed character sequence.
#[derive(Debug)]
pub struct Lexer<'a> {
    content: &'a [char],
}

impl<'a> View for Lexer<'a> {
    type V = Seq<char>;

    /// The characters not yet tokenized.
    closed spec fn view(&self) -> Seq<char> {
        self.content@
    }
}

impl<'a> Lexer<'a> {
    /// A tokenizer at the start of `content`.
    pub fn new(content: &'a [char]) -> (r: Self)
        ensures
            r@ == content@,
    {
        Self { content }
    }

    /// Drops the leading whitespace.
    pub fn trim_left(&mut self)
        ensures
            final(self)@ == skip_whitespace(old(self)@),
    {
        while self.content.len() > 0 && is_whitespace(self.content[0])
            invariant
                skip_whitespace(self.content@) == skip_whitespace(old(self)@),
            decreases self.content@.len(),
        {
            let ghost before = self.content@;
            let len = self.content.len();
            self.content = vstd::slice::slice_subrange(self.content, 1, len);
            assert(whitespace_class()(before[0]));
            assert(self.content@ =~= before.drop_first());
            assert(run_len(before, whitespace_class()) == 1 + run_len(
                before.drop_first(),
                whitespace_class(),
            ));
            proof {
                lemma_run_len(before.drop_first(), whitespace_class());
            }
            assert(skip_whitespace(before) =~= skip_whitespace(self.content@));
        }
        if self.content.len() > 0 {
            assert(!whitespace_class()(self.content@[0]));
        }
        assert(self.content@.skip(0) =~= self.content@);
    }

    /// Yields the next token and moves past it, or `None` once only
    /// whitespace is left.
    pub fn next_token(&mut self) -> (r: Option<String>)
        ensures
            token_view(r) == next_token_spec(old(self)@).0,
            final(self)@ == next_token_spec(old(self)@).1,
    {
        self.trim_left();
        let len = self.content.len();
        if len == 0 {
            return None;
        }
        let ghost t = self.content@;
        let c0 = self.content[0];
        if is_numeric(c0) {
            let mut n: usize = 0;
            while n < len && is_numeric(self.content[n])
                invariant
                    len == t.len(),
                    self.content@ == t,
                    n <= len,
                    forall|i: int| 0 <= i < n ==> numeric_class()(#[trigger] t[i]),
                decreases len - n,
            {
                n += 1;
            }
            proof {
                lemma_run_len_exact(t, numeric_class(), n as nat);
            }
            let token = string_of(vstd::slice::slice_subrange(self.content, 0, n));
            self.content = vstd::slice::slice_subrange(self.content, n, len);
            assert(token@ =~= t.take(n as int));
            assert(self.content@ =~= t.skip(n as int));
            return Some(token);
        }
        if is_alphabetic(c0) {
            let mut n: usize = 0;
            while n < len && is_alphanumeric(self.content[n])
                invariant
                    len == t.len(),
                    self.content@ == t,
                    n <= len,
                    forall|i: int| 0 <= i < n ==> alphanumeric_class()(#[trigger] t[i]),
                decreases len - n,
            {
                n += 1;
            }
            proof {
                lemma_run_len_exact(t, alphanumeric_class(), n as nat);
            }
            let word = string_of(vstd::slice::slice_subrange(self.content, 0, n));
            self.content = vstd::slice::slice_subrange(self.content, n, len);
            assert(word@ =~= t.take(n as int));
            assert(self.content@ =~= t.skip(n as int));
            let stemmed = stem_english(word.as_str());
            return Some(stemmed);
        }
        let token = string_of(vstd::slice::slice_subrange(self.content, 0, 1));
        self.content = vstd::slice::slice_subrange(self.content, 1, len);
        assert(token@ =~= t.take(1));
        assert(self.content@ =~= t.skip(1));
        Some(token)
    }

    /// The next token, as iteration yields it (same as `next_token`).
    pub fn next(&mut self) -> (r: Option<String>)
        ensures
            token_view(r) == next_token_spec(old(self)@).0,
            final(self)@ == next_token_spec(old(self)@).1,
    {
        self.next_token()
    }
}

/// All the tokens of `content`, in order.
pub fn tokens(content: &[char]) -> (r: Vec<String>)
    ensures
        crate::text::string_views(r@) == lex_tokens(content@),
{
    let mut lexer = Lexer::new(content);
    let mut out: Vec<String> = Vec::new();
    loop
        invariant
            crate::text::string_views(out@) + lex_tokens(lexer@) == lex_tokens(content@),
        decreases lexer@.len(),
    {
        let ghost before = lexer@;
        proof {
            lemma_next_token_progress(before);
        }
        match lexer.next_token() {
            None => {
                assert(crate::text::string_views(out@) =~= lex_tokens(content@));
                return out;
            },
            Some(tok) => {
                let ghost old_out = out@;
                assert(lex_tokens(before) == seq![tok@] + lex_tokens(lexer@));
                out.push(tok);
                assert(crate::text::string_views(out@) =~= crate::text::string_views(old_out).push(
                    out@.last()@,
                ));
                assert(crate::text::string_views(out@) + lex_tokens(lexer@)
                    =~= crate::text::string_views(old_out) + lex_tokens(before));
            },
        }
    }
}

} // verus!
