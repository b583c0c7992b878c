use mus_search::command::{parse_command, Command};
use mus_search::model::term_frequencies;
use mus_search::reverse_search::{find_page, match_page, ReverseSearchError};
use mus_search::search::{is_exit, query_tokens, score_terms, trim};
use mus_search::strmap::StrMap;

fn chars(s: &str) -> Vec<char> {
    s.chars().collect()
}

fn args(v: &[&str]) -> Vec<String> {
    v.iter().map(|s| s.to_string()).collect()
}

#[test]
fn query_is_tokenized() {
    assert_eq!(query_tokens("  running cats "), vec!["run", "cat"]);
}

#[test]
fn score_counts_per_token() {
    let (n, tf) = term_frequencies(&chars("cat cat dog"));
    let mut df = StrMap::new();
    df.insert("cat".to_string(), 2);
    let q = vec!["cat".to_string(), "dog".to_string(), "emu".to_string()];
    assert_eq!(score_terms(&q, n, &tf, 5, &df), vec![(2, 2), (1, 1), (0, 1)]);
}

#[test]
fn score_stops_at_undefined_term() {
    let empty = StrMap::new();
    let mut df = StrMap::new();
    df.insert("cat".to_string(), 0);
    let q = vec!["dog".to_string(), "cat".to_string()];
    // A section of no tokens: the first term's frequency is 0/0.
    assert_eq!(score_terms(&q, 0, &empty, 3, &df), vec![]);
    // No sections and a document count of 0: 0/0 again, at the second term.
    let (n, tf) = term_frequencies(&chars("dog"));
    assert_eq!(score_terms(&q, n, &tf, 0, &df), vec![(1, 1)]);
}

#[test]
fn page_identifiers_find_their_file() {
    let id = "./data/report.pdf/page/3";
    assert_eq!(match_page(id, "./data/report.pdf"), Ok(Some(3)));
    assert_eq!(match_page(id, "./data/other.pdf"), Ok(None));
    assert_eq!(match_page(id, "./data/notes.txt"), Ok(None));
    assert_eq!(match_page("./data/report.pdf", "./data/report.pdf"), Err(ReverseSearchError::WantedTooShort));
    assert_eq!(match_page("./data/r.pdf/page/x", "./data/r.pdf"), Err(ReverseSearchError::BadPageNumber));
    assert_eq!(match_page(id, "r.pdf"), Err(ReverseSearchError::CandidateTooShort));
}

#[test]
fn find_page_takes_the_first_match() {
    let paths = args(&["./data/a.txt", "./data/b.pdf", "./data/report.pdf", "./data/report.pdf"]);
    assert_eq!(find_page("./data/report.pdf/page/7", &paths), Ok(Some((2, 7))));
    assert_eq!(find_page("./data/none.pdf/page/7", &paths), Ok(None));
    assert_eq!(find_page("./data/x.txt/paragraph/1", &args(&["./data/a.txt"])), Ok(None));
}

#[test]
fn commands_from_arguments() {
    assert!(matches!(parse_command(&args(&["mus"])), Command::Usage));
    assert!(matches!(parse_command(&args(&["mus", "index", "./data"])), Command::Index(f) if f == "./data"));
    assert!(matches!(parse_command(&args(&["mus", "index"])), Command::Index(f) if f == "./data"));
    assert!(matches!(parse_command(&args(&["mus", "search"])), Command::Search(None)));
    assert!(matches!(parse_command(&args(&["mus", "search", "Your Query"])), Command::Search(Some(q)) if q == "Your Query"));
    assert!(matches!(parse_command(&args(&["mus", "serve"])), Command::Serve));
    assert!(matches!(parse_command(&args(&["mus", "frob"])), Command::Unknown(c) if c == "frob"));
}

#[test]
fn exit_and_trim() {
    assert!(is_exit("  exit\n"));
    assert!(is_exit("exit"));
    assert!(!is_exit("exit now"));
    assert!(!is_exit("Exit"));
    assert_eq!(trim("\t a b \u{3000}\r\n"), "a b");
    assert_eq!(trim("   "), "");
    for s in ["", " x ", "\u{85}y\u{a0}", "\u{2003}z\u{200b}", "\u{1680}q\u{180e}"] {
        assert_eq!(trim(s), s.trim());
    }
}
