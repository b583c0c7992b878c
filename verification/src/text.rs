//! Character-sequence helpers: conversion between `str`/`String` and
//! `char` sequences, pattern search, splitting and replacement.
use vstd::prelude::*;

verus! {

/// Appends one character to a string.
///
/// Trusted: wraps `String::push`, which std documents as appending the given
/// `char` to the end of the string; the contract says exactly that.
#[verifier::external_body]
pub(crate) fn push_char(s: &mut String, c: char)
    ensures
        final(s)@ == old(s)@.push(c),
{
    s.push(c);
}

/// The characters of `s`, in order.
pub fn chars_of(s: &str) -> (r: Vec<char>)
    ensures
        r@ == s@,
{
    let mut v: Vec<char> = Vec::new();
    for c in it: s.chars()
        invariant
            v@ == it.seq().take(it.index() as int),
            it.seq() == s@,
    {
        v.push(c);
    }
    v
}

/// The string made of the characters of `cs`, in order.
pub fn string_of(cs: &[char]) -> (r: String)
    ensures
        r@ == cs@,
{
    let mut s = String::new();
    let mut i: usize = 0;
    while i < cs.len()
        invariant
            i <= cs@.len(),
            s@ == cs@.take(i as int),
        decreases cs@.len() - i,
    {
        assert(cs@.take(i + 1) == cs@.take(i as int).push(cs@[i as int]));
        push_char(&mut s, cs[i]);
        i += 1;
    }
    assert(cs@.take(cs@.len() as int) == cs@);
    s
}

/// `pat` occurs in `s` starting at index `i`.
pub open spec fn matches_at(s: Seq<char>, pat: Seq<char>, i: int) -> bool {
    &&& 0 <= i
    &&& i + pat.len() <= s.len()
    &&& s.subrange(i, i + pat.len()) == pat
}

/// `pat` occurs somewhere in `s` (as `str::contains` decides it).
pub open spec fn contains_pattern(s: Seq<char>, pat: Seq<char>) -> bool {
    exists|i: int| matches_at(s, pat, i)
}

/// The first index at or after `i` where `pat` occurs in `s`, or -1.
pub open spec fn first_match_from(s: Seq<char>, pat: Seq<char>, i: nat) -> int
    decreases s.len() - i,
{
    if i + pat.len() > s.len() {
        -1
    } else if s.subrange(i as int, (i + pat.len()) as int) == pat {
        i as int
    } else if i >= s.len() {
        -1
    } else {
        first_match_from(s, pat, i + 1)
    }
}

/// What `first_match_from` finds is the first occurrence at or after `i`.
pub proof fn lemma_first_match_from(s: Seq<char>, pat: Seq<char>, i: nat)
    ensures
        first_match_from(s, pat, i) >= 0 ==> {
            &&& i <= first_match_from(s, pat, i)
            &&& matches_at(s, pat, first_match_from(s, pat, i))
            &&& forall|k: int| i <= k < first_match_from(s, pat, i) ==> !matches_at(s, pat, k)
        },
        first_match_from(s, pat, i) < 0 ==> forall|k: int| i <= k ==> !matches_at(s, pat, k),
        first_match_from(s, pat, i) >= -1,
    decreases s.len() - i,
{
    if i + pat.len() > s.len() {
    } else if s.subrange(i as int, (i + pat.len()) as int) == pat {
    } else if i >= s.len() {
        assert(pat.len() == 0);
        assert(s.subrange(i as int, (i + pat.len()) as int) =~= pat);
    } else {
        lemma_first_match_from(s, pat, i + 1);
    }
}

/// `contains_pattern` holds exactly when a first occurrence exists.
pub proof fn lemma_contains_first_match(s: Seq<char>, pat: Seq<char>)
    ensures
        contains_pattern(s, pat) <==> first_match_from(s, pat, 0) >= 0,
{
    lemma_first_match_from(s, pat, 0);
    if first_match_from(s, pat, 0) >= 0 {
        assert(matches_at(s, pat, first_match_from(s, pat, 0)));
    }
}

/// Whether `pat` occurs in `s` at index `i`.
fn slice_matches_at(s: &[char], pat: &[char], i: usize) -> (r: bool)
    requires
        i + pat@.len() <= s@.len(),
    ensures
        r == (s@.subrange(i as int, i + pat@.len()) == pat@),
{
    let slen = s.len();
    let mut j: usize = 0;
    while j < pat.len()
        invariant
            i + pat@.len() <= s@.len(),
            slen == s@.len(),
            j <= pat@.len(),
            forall|k: int| 0 <= k < j ==> s@[i + k] == pat@[k],
        decreases pat@.len() - j,
    {
        if s[i + j] != pat[j] {
            assert(s@.subrange(i as int, i + pat@.len())[j as int] != pat@[j as int]);
            return false;
        }
        j += 1;
    }
    assert(s@.subrange(i as int, i + pat@.len()) =~= pat@);
    true
}

/// The first index at or after `start` where `pat` occurs in `s`.
pub fn find_from(s: &[char], pat: &[char], start: usize) -> (r: Option<usize>)
    ensures
        match r {
            Some(i) => first_match_from(s@, pat@, start as nat) == i,
            None => first_match_from(s@, pat@, start as nat) == -1,
        },
{
    proof {
        lemma_first_match_from(s@, pat@, start as nat);
    }
    let mut i: usize = start;
    while i <= s.len() && pat.len() <= s.len() - i
        invariant
            start <= i,
            first_match_from(s@, pat@, start as nat) == first_match_from(s@, pat@, i as nat),
        decreases s@.len() + 1 - i,
    {
        if slice_matches_at(s, pat, i) {
            return Some(i);
        }
        if i >= s.len() {
            return None;
        }
        i += 1;
    }
    None
}

/// Whether `pat` occurs in `s` (the decision of `str::contains`).
pub fn contains(s: &[char], pat: &[char]) -> (r: bool)
    ensures
        r == contains_pattern(s@, pat@),
{
    proof {
        lemma_contains_first_match(s@, pat@);
    }
    find_from(s, pat, 0).is_some()
}

/// The pieces of `s` between the occurrences of `sep`, leftmost first and
/// without overlaps (what `str::split` yields for a non-empty pattern).
pub open spec fn split_by(s: Seq<char>, sep: Seq<char>) -> Seq<Seq<char>>
    decreases s.len(),
{
    let i = first_match_from(s, sep, 0);
    if sep.len() == 0 || i < 0 {
        seq![s]
    } else {
        proof {
            lemma_first_match_from(s, sep, 0);
        }
        seq![s.take(i)] + split_by(s.skip(i + sep.len()), sep)
    }
}

/// A split has at most one piece more than `s` has characters.
pub proof fn lemma_split_by_len(s: Seq<char>, sep: Seq<char>)
    requires
        sep.len() > 0,
    ensures
        split_by(s, sep).len() <= s.len() + 1,
    decreases s.len(),
{
    let i = first_match_from(s, sep, 0);
    lemma_first_match_from(s, sep, 0);
    if i >= 0 {
        lemma_split_by_len(s.skip(i + sep.len()), sep);
    }
}

/// `s` with each occurrence of `from` replaced by `to`, leftmost first and
/// without overlaps (what `str::replace` returns for a non-empty pattern).
pub open spec fn replace_all(s: Seq<char>, from: Seq<char>, to: Seq<char>) -> Seq<char>
    decreases s.len(),
{
    let i = first_match_from(s, from, 0);
    if from.len() == 0 || i < 0 {
        s
    } else {
        proof {
            lemma_first_match_from(s, from, 0);
        }
        s.take(i) + to + replace_all(s.skip(i + from.len()), from, to)
    }
}

/// The views of a vector of character vectors.
pub open spec fn views_of(v: Seq<Vec<char>>) -> Seq<Seq<char>> {
    v.map_values(|x: Vec<char>| x@)
}

/// The views of a vector of strings.
pub open spec fn string_views(v: Seq<String>) -> Seq<Seq<char>> {
    v.map_values(|x: String| x@)
}

/// Splits `s` at each occurrence of the non-empty separator `sep`.
pub fn split_pattern(s: &[char], sep: &[char]) -> (r: Vec<Vec<char>>)
    requires
        sep@.len() > 0,
    ensures
        views_of(r@) == split_by(s@, sep@),
{
    let mut pieces: Vec<Vec<char>> = Vec::new();
    let mut rest: &[char] = s;
    loop
        invariant
            sep@.len() > 0,
            views_of(pieces@) + split_by(rest@, sep@) == split_by(s@, sep@),
        decreases rest@.len(),
    {
        proof {
            lemma_first_match_from(rest@, sep@, 0);
        }
        let rlen = rest.len();
        match find_from(rest, sep, 0) {
            None => {
                let last = vstd::slice::slice_to_vec(rest);
                let ghost old_pieces = pieces@;
                pieces.push(last);
                assert(views_of(pieces@) =~= views_of(old_pieces) + seq![rest@]);
                assert(split_by(rest@, sep@) == seq![rest@]);
                assert(views_of(pieces@) =~= split_by(s@, sep@));
                return pieces;
            },
            Some(i) => {
                let head = vstd::slice::slice_to_vec(vstd::slice::slice_subrange(rest, 0, i));
                let ghost old_pieces = pieces@;
                let ghost old_rest = rest@;
                pieces.push(head);
                rest = vstd::slice::slice_subrange(rest, i + sep.len(), rlen);
                assert(old_rest.subrange(0, i as int) =~= old_rest.take(i as int));
                assert(old_rest.subrange((i + sep@.len()) as int, old_rest.len() as int) =~= old_rest.skip(i + sep@.len()));
                assert(split_by(old_rest, sep@) == seq![old_rest.take(i as int)] + split_by(rest@, sep@));
                assert(views_of(pieces@) =~= views_of(old_pieces) + seq![old_rest.take(i as int)]);
                assert(views_of(pieces@) + split_by(rest@, sep@) =~= views_of(old_pieces) + split_by(old_rest, sep@));
            },
        }
    }
}

/// Replaces each occurrence of the non-empty pattern `from` in `s` by `to`.
pub fn replace_pattern(s: &[char], from: &[char], to: &[char]) -> (r: String)
    requires
        from@.len() > 0,
    ensures
        r@ == replace_all(s@, from@, to@),
{
    let mut out = String::new();
    let mut rest: &[char] = s;
    loop
        invariant
            from@.len() > 0,
            out@ + replace_all(rest@, from@, to@) == replace_all(s@, from@, to@),
        decreases rest@.len(),
    {
        proof {
            lemma_first_match_from(rest@, from@, 0);
        }
        let rlen = rest.len();
        match find_from(rest, from, 0) {
            None => {
                let ghost old_out = out@;
                append_chars(&mut out, rest);
                assert(replace_all(rest@, from@, to@) == rest@);
                return out;
            },
            Some(i) => {
                let ghost old_out = out@;
                let ghost old_rest = rest@;
                append_chars(&mut out, vstd::slice::slice_subrange(rest, 0, i));
                append_chars(&mut out, to);
                rest = vstd::slice::slice_subrange(rest, i + from.len(), rlen);
                assert(old_rest.subrange(0, i as int) =~= old_rest.take(i as int));
                assert(old_rest.subrange((i + from@.len()) as int, old_rest.len() as int) =~= old_rest.skip(i + from@.len()));
                assert(replace_all(old_rest, from@, to@) == old_rest.take(i as int) + to@ + replace_all(rest@, from@, to@));
                assert(out@ + replace_all(rest@, from@, to@) =~= old_out + replace_all(old_rest, from@, to@));
            },
        }
    }
}

/// Appends the characters of `cs` to `s`.
pub fn append_chars(s: &mut String, cs: &[char])
    ensures
        final(s)@ == old(s)@ + cs@,
{
    let mut i: usize = 0;
    while i < cs.len()
        invariant
            i <= cs@.len(),
            s@ == old(s)@ + cs@.take(i as int),
        decreases cs@.len() - i,
    {
        assert(cs@.take(i + 1) == cs@.take(i as int).push(cs@[i as int]));
        push_char(s, cs[i]);
        i += 1;
    }
    assert(cs@.take(cs@.len() as int) == cs@);
}

/// The pieces of `s` between the occurrences of the character `c` (what
/// `str::split` yields for a one-character pattern): read left to right, each
/// `c` closes the current piece and opens an empty one.
pub open spec fn split_on(s: Seq<char>, c: char) -> Seq<Seq<char>>
    decreases s.len(),
{
    if s.len() == 0 {
        seq![Seq::<char>::empty()]
    } else {
        let p = split_on(s.drop_last(), c);
        if s.last() == c {
            p.push(Seq::<char>::empty())
        } else {
            p.update(p.len() - 1, p.last().push(s.last()))
        }
    }
}

/// A split always has at least one piece.
pub proof fn lemma_split_on_nonempty(s: Seq<char>, c: char)
    ensures
        split_on(s, c).len() >= 1,
    decreases s.len(),
{
    if s.len() > 0 {
        lemma_split_on_nonempty(s.drop_last(), c);
    }
}

/// Splitting `a`, the separator, then `b` gives the pieces of `a` followed by
/// the pieces of `b`.
pub proof fn lemma_split_on_concat(a: Seq<char>, b: Seq<char>, c: char)
    ensures
        split_on(a + seq![c] + b, c) == split_on(a, c) + split_on(b, c),
    decreases b.len(),
{
    lemma_split_on_nonempty(a, c);
    if b.len() == 0 {
        assert((a + seq![c] + b).drop_last() =~= a);
        assert(split_on(b, c) =~= seq![Seq::<char>::empty()]);
        assert(split_on(a + seq![c] + b, c) =~= split_on(a, c) + split_on(b, c));
    } else {
        let b0 = b.drop_last();
        lemma_split_on_concat(a, b0, c);
        lemma_split_on_nonempty(b0, c);
        assert((a + seq![c] + b).drop_last() =~= a + seq![c] + b0);
        assert((a + seq![c] + b).last() == b.last());
        let pa = split_on(a, c);
        let pb = split_on(b0, c);
        if b.last() == c {
            assert(split_on(a + seq![c] + b, c) =~= split_on(a, c) + split_on(b, c));
        } else {
            assert((pa + pb).last() == pb.last());
            assert(split_on(a + seq![c] + b, c) =~= split_on(a, c) + split_on(b, c));
        }
    }
}

/// Splits `s` at each occurrence of the character `c`.
pub fn split_char(s: &[char], c: char) -> (r: Vec<String>)
    ensures
        string_views(r@) == split_on(s@, c),
{
    let mut pieces: Vec<String> = Vec::new();
    let mut cur = String::new();
    let mut i: usize = 0;
    assert(s@.take(0) =~= Seq::<char>::empty());
    assert(string_views(pieces@).push(cur@) =~= split_on(s@.take(0), c));
    while i < s.len()
        invariant
            i <= s@.len(),
            string_views(pieces@).push(cur@) == split_on(s@.take(i as int), c),
        decreases s@.len() - i,
    {
        let ghost before = s@.take(i as int);
        assert(s@.take(i + 1).drop_last() =~= before);
        assert(s@.take(i + 1).last() == s@[i as int]);
        let ghost old_pieces = pieces@;
        let ghost old_cur = cur@;
        if s[i] == c {
            pieces.push(cur);
            cur = String::new();
            assert(string_views(pieces@) =~= string_views(old_pieces).push(old_cur));
            assert(string_views(pieces@).push(cur@) =~= split_on(s@.take(i + 1), c));
        } else {
            push_char(&mut cur, s[i]);
            assert(string_views(pieces@).push(cur@) =~= split_on(s@.take(i + 1), c));
        }
        i += 1;
    }
    assert(s@.take(s@.len() as int) =~= s@);
    let ghost old_pieces = pieces@;
    pieces.push(cur);
    assert(string_views(pieces@) =~= string_views(old_pieces).push(cur@));
    pieces
}

/// The decimal digit character for `d < 10`.
pub open spec fn digit_char(d: nat) -> char {
    if d == 0 { '0' }
    else if d == 1 { '1' }
    else if d == 2 { '2' }
    else if d == 3 { '3' }
    else if d == 4 { '4' }
    else if d == 5 { '5' }
    else if d == 6 { '6' }
    else if d == 7 { '7' }
    else if d == 8 { '8' }
    else { '9' }
}

/// The decimal notation of `n`, without sign or leading zeros (as `{}`
/// formats an unsigned integer).
pub open spec fn decimal(n: nat) -> Seq<char>
    decreases n,
{
    if n < 10 {
        seq![digit_char(n)]
    } else {
        decimal(n / 10).push(digit_char(n % 10))
    }
}

fn digit(d: usize) -> (c: char)
    requires
        d < 10,
    ensures
        c == digit_char(d as nat),
{
    if d == 0 { '0' }
    else if d == 1 { '1' }
    else if d == 2 { '2' }
    else if d == 3 { '3' }
    else if d == 4 { '4' }
    else if d == 5 { '5' }
    else if d == 6 { '6' }
    else if d == 7 { '7' }
    else if d == 8 { '8' }
    else { '9' }
}

/// Appends the decimal notation of `n` to `s`.
pub fn push_decimal(s: &mut String, n: usize)
    ensures
        final(s)@ == old(s)@ + decimal(n as nat),
    decreases n,
{
    if n >= 10 {
        push_decimal(s, n / 10);
    }
    push_char(s, digit(n % 10));
    assert(final(s)@ =~= old(s)@ + decimal(n as nat));
}

/// `c` is one of the ASCII digits `0`..`9`.
pub open spec fn is_digit(c: char) -> bool {
    '0' <= c && c <= '9'
}

/// The numeric value of the digit `c`.
pub open spec fn digit_value(c: char) -> int {
    (c as int) - ('0' as int)
}

/// Every character of `s` is a digit.
pub open spec fn all_digits(s: Seq<char>) -> bool {
    forall|i: int| 0 <= i < s.len() ==> is_digit(#[trigger] s[i])
}

/// The value of the digit string `s`, read most significant digit first.
pub open spec fn digits_value(s: Seq<char>) -> int
    decreases s.len(),
{
    if s.len() == 0 {
        0
    } else {
        digits_value(s.drop_last()) * 10 + digit_value(s.last())
    }
}

/// What `str::parse::<i32>` returns: an optional `+` or `-`, then one or more
/// digits, and a value within the range of `i32`; anything else is an error.
pub open spec fn parse_i32_spec(s: Seq<char>) -> Option<i32> {
    let signed = s.len() > 0 && (s[0] == '-' || s[0] == '+');
    let body = if signed { s.skip(1) } else { s };
    let magnitude = digits_value(body);
    let v = if s.len() > 0 && s[0] == '-' { -magnitude } else { magnitude };
    if body.len() == 0 || !all_digits(body) || v < i32::MIN || v > i32::MAX {
        None
    } else {
        Some(v as i32)
    }
}

proof fn lemma_digits_value_nonneg(s: Seq<char>)
    requires
        all_digits(s),
    ensures
        digits_value(s) >= 0,
    decreases s.len(),
{
    if s.len() > 0 {
        assert(all_digits(s.drop_last())) by {
            assert forall|i: int| 0 <= i < s.drop_last().len() implies is_digit(#[trigger] s.drop_last()[i]) by {
                assert(s.drop_last()[i] == s[i]);
            }
        }
        lemma_digits_value_nonneg(s.drop_last());
        assert(is_digit(s[s.len() - 1]));
    }
}

/// Parses a decimal `i32` as `str::parse::<i32>` does.
pub fn parse_i32(s: &[char]) -> (r: Option<i32>)
    ensures
        r == parse_i32_spec(s@),
{
    let len = s.len();
    if len == 0 {
        return None;
    }
    let negative = s[0] == '-';
    let start: usize = if s[0] == '-' || s[0] == '+' { 1 } else { 0 };
    let ghost body = if start == 1 { s@.skip(1) } else { s@ };
    assert(body =~= s@.subrange(start as int, len as int));
    assert(body == (if s@.len() > 0 && (s@[0] == '-' || s@[0] == '+') { s@.skip(1) } else { s@ }));
    if start == len {
        return None;
    }
    let mut acc: i64 = 0;
    let mut too_big = false;
    let mut i: usize = start;
    assert(s@.subrange(start as int, start as int) =~= Seq::<char>::empty());
    while i < len
        invariant
            len == s@.len(),
            start <= i <= len,
            body == s@.subrange(start as int, len as int),
            body == (if s@.len() > 0 && (s@[0] == '-' || s@[0] == '+') { s@.skip(1) } else { s@ }),
            all_digits(s@.subrange(start as int, i as int)),
            !too_big ==> acc == digits_value(s@.subrange(start as int, i as int)),
            !too_big ==> 0 <= acc <= 2147483648,
            too_big ==> digits_value(s@.subrange(start as int, i as int)) > 2147483648,
        decreases len - i,
    {
        let c = s[i];
        let ghost prev = s@.subrange(start as int, i as int);
        let ghost next = s@.subrange(start as int, i + 1);
        assert(next.drop_last() =~= prev);
        assert(next.last() == c);
        if !('0' <= c && c <= '9') {
            assert(!all_digits(body)) by {
                assert(body[i - start] == c);
            }
            return None;
        }
        proof {
            lemma_digits_value_nonneg(prev);
        }
        assert(all_digits(next)) by {
            assert forall|k: int| 0 <= k < next.len() implies is_digit(#[trigger] next[k]) by {
                if k < prev.len() {
                    assert(next[k] == prev[k]);
                }
            }
        }
        if !too_big {
            let d: i64 = (c as u32 - '0' as u32) as i64;
            assert(d == digit_value(c));
            acc = acc * 10 + d;
            if acc > 2147483648 {
                too_big = true;
            }
        }
        i += 1;
    }
    assert(s@.subrange(start as int, len as int) == body);
    if too_big {
        return None;
    }
    let v: i64 = if negative { -acc } else { acc };
    if v < -2147483648 || v > 2147483647 {
        None
    } else {
        Some(v as i32)
    }
}

proof fn lemma_digit_char(d: nat)
    requires
        d < 10,
    ensures
        is_digit(digit_char(d)),
        digit_value(digit_char(d)) == d,
{
}

/// The notation `decimal` writes is a digit string of value `n`.
pub proof fn lemma_decimal_digits(n: nat)
    ensures
        decimal(n).len() > 0,
        all_digits(decimal(n)),
        digits_value(decimal(n)) == n,
    decreases n,
{
    lemma_digit_char(n % 10);
    if n < 10 {
        assert(decimal(n).drop_last() =~= Seq::<char>::empty());
        assert(decimal(n).last() == digit_char(n));
        assert(digits_value(decimal(n)) == digits_value(Seq::<char>::empty()) * 10 + digit_value(digit_char(n)));
    } else {
        lemma_decimal_digits(n / 10);
        let d = decimal(n);
        assert(d.drop_last() =~= decimal(n / 10));
        assert(d.last() == digit_char(n % 10));
        assert(digits_value(d) == digits_value(decimal(n / 10)) * 10 + digit_value(digit_char(n % 10)));
        assert forall|i: int| 0 <= i < d.len() implies is_digit(#[trigger] d[i]) by {
            if i < d.len() - 1 {
                assert(d[i] == decimal(n / 10)[i]);
            }
        }
    }
}

/// Parsing the decimal notation of a non-negative `i32` gives it back.
pub proof fn lemma_parse_decimal(n: nat)
    requires
        n <= i32::MAX,
    ensures
        parse_i32_spec(decimal(n)) == Some(n as i32),
{
    lemma_decimal_digits(n);
    let d = decimal(n);
    assert(is_digit(d[0]));
}

} // verus!
