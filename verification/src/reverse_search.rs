//! Finding the source of a search hit: which indexed PDF file a section
//! identifier `{dir}/{dir}/{name}/page/{n}` points to, and which page.
use vstd::prelude::*;
use crate::text::{chars_of, contains, contains_pattern, parse_i32, parse_i32_spec, split_char, split_on, string_views};

verus! {

/// Why a section identifier and a file path cannot be matched.
#[derive(Debug, Clone, Copy, PartialEq, Eq, Structural)]
pub enum ReverseSearchError {
    /// The identifier has fewer than five `/`-separated components.
    WantedTooShort,
    /// The identifier's fifth component is not an `i32`.
    BadPageNumber,
    /// A PDF path has fewer than three `/`-separated components.
    CandidateTooShort,
}

/// The `/`-separated components of `s`.
pub open spec fn components(s: Seq<char>) -> Seq<Seq<char>> {
    split_on(s, '/')
}

/// The marker of PDF files among the paths.
pub open spec fn pdf_marker() -> Seq<char> {
    seq!['p', 'd', 'f']
}

/// Matching the section identifier `wanted` against the file path
/// `candidate`.  A path without `pdf` in it does not match.  Otherwise the
/// identifier's third component names the file and its fifth the page; the
/// path matches when its third component is that name, and the result is
/// the page.  An identifier or path too short for those components, or a
/// page that is not an `i32`, is an error.
pub open spec fn page_match(wanted: Seq<char>, candidate: Seq<char>) -> Result<
    Option<i32>,
    ReverseSearchError,
> {
    let w = components(wanted);
    let c = components(candidate);
    if !contains_pattern(candidate, pdf_marker()) {
        Ok(None)
    } else if w.len() < 5 {
        Err(ReverseSearchError::WantedTooShort)
    } else if parse_i32_spec(w[4]) is None {
        Err(ReverseSearchError::BadPageNumber)
    } else if c.len() < 3 {
        Err(ReverseSearchError::CandidateTooShort)
    } else if w[2] == c[2] {
        Ok(Some(parse_i32_spec(w[4]).unwrap()))
    } else {
        Ok(None)
    }
}

/// Scanning `paths` from index `i` on: the first path that matches, with
/// its page, or the first error met before one does.
pub open spec fn scan_paths(wanted: Seq<char>, paths: Seq<Seq<char>>, i: nat) -> Result<
    Option<(usize, i32)>,
    ReverseSearchError,
>
    decreases paths.len() - i,
{
    if i >= paths.len() {
        Ok(None)
    } else {
        match page_match(wanted, paths[i as int]) {
            Err(e) => Err(e),
            Ok(Some(p)) => Ok(Some((i as usize, p))),
            Ok(None) => scan_paths(wanted, paths, i + 1),
        }
    }
}

/// Matches the section identifier `wanted` against one file path.
pub fn match_page(wanted: &str, candidate: &str) -> (r: Result<Option<i32>, ReverseSearchError>)
    ensures
        r == page_match(wanted@, candidate@),
{
    let cand = chars_of(candidate);
    let marker = vec!['p', 'd', 'f'];
    assert(marker@ == pdf_marker());
    if !contains(cand.as_slice(), marker.as_slice()) {
        return Ok(None);
    }
    let want = chars_of(wanted);
    let w = split_char(want.as_slice(), '/');
    if w.len() < 5 {
        return Err(ReverseSearchError::WantedTooShort);
    }
    let page_chars = chars_of(w[4].as_str());
    let page = match parse_i32(page_chars.as_slice()) {
        Some(p) => p,
        None => {
            return Err(ReverseSearchError::BadPageNumber);
        },
    };
    let c = split_char(cand.as_slice(), '/');
    if c.len() < 3 {
        return Err(ReverseSearchError::CandidateTooShort);
    }
    assert(string_views(w@)[2] == w@[2]@);
    assert(string_views(c@)[2] == c@[2]@);
    if w[2] == c[2] {
        Ok(Some(page))
    } else {
        Ok(None)
    }
}

/// Finds, among the file paths `paths`, the PDF file that the section
/// identifier `wanted` points to: its position and the page.
pub fn find_page(wanted: &str, paths: &Vec<String>) -> (r: Result<Option<(usize, i32)>, ReverseSearchError>)
    ensures
        r == scan_paths(wanted@, string_views(paths@), 0),
{
    let ghost ps = string_views(paths@);
    let mut i: usize = 0;
    while i < paths.len()
        invariant
            ps == string_views(paths@),
            i <= paths@.len(),
            scan_paths(wanted@, ps, i as nat) == scan_paths(wanted@, ps, 0),
        decreases paths@.len() - i,
    {
        assert(ps[i as int] == paths@[i as int]@);
        match match_page(wanted, paths[i].as_str()) {
            Err(e) => {
                return Err(e);
            },
            Ok(Some(p)) => {
                return Ok(Some((i, p)));
            },
            Ok(None) => {},
        }
        i += 1;
    }
    Ok(None)
}

} // verus!
