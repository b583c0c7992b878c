use mus_search::model::count_tokens;
use mus_search::unicode::{is_alphanumeric, is_whitespace};
use mus_search::lexer::Lexer;
use mus_search::model::{term_count, doc_count, term_frequencies, count_document_terms, TermFreq};
use mus_search::strmap::StrMap;

fn chars(s: &str) -> Vec<char> {
    s.chars().collect()
}

fn all_tokens(s: &str) -> Vec<String> {
    let c = chars(s);
    let mut lexer = Lexer::new(&c);
    let mut out = Vec::new();
    while let Some(t) = lexer.next_token() {
        out.push(t);
    }
    out
}

#[test]
fn lexer_splits_numbers_words_and_punctuation() {
    assert_eq!(all_tokens("cats 42 dogs!"), vec!["cat", "42", "dog", "!"]);
}

#[test]
fn lexer_stems_words() {
    assert_eq!(all_tokens("running foxes jumped"), vec!["run", "fox", "jump"]);
}

#[test]
fn lexer_on_whitespace_only_yields_nothing() {
    assert_eq!(all_tokens("  \t\r\n "), Vec::<String>::new());
    assert_eq!(all_tokens(""), Vec::<String>::new());
}

#[test]
fn lexer_number_stops_at_letter() {
    assert_eq!(all_tokens("12ab"), vec!["12", "ab"]);
}

#[test]
fn lexer_punctuation_is_one_character_each() {
    assert_eq!(all_tokens("a,,b"), vec!["a", ",", ",", "b"]);
}

#[test]
fn lexer_next_matches_next_token() {
    let c = chars("the world");
    let mut a = Lexer::new(&c);
    let mut b = Lexer::new(&c);
    assert_eq!(a.next(), b.next_token());
    assert_eq!(a.next(), b.next_token());
    assert_eq!(a.next(), None);
}

#[test]
fn lexer_trim_left_drops_leading_whitespace() {
    let c = chars("   42");
    let mut lexer = Lexer::new(&c);
    lexer.trim_left();
    assert_eq!(lexer.next_token(), Some("42".to_string()));
}

#[test]
fn term_frequencies_counts_tokens() {
    let c = chars("the cats the dogs the");
    let (n, tf) = term_frequencies(&c);
    assert_eq!(n, 5);
    assert_eq!(tf.get("the"), Some(&3));
    assert_eq!(tf.get("cat"), Some(&1));
    assert_eq!(tf.get("dog"), Some(&1));
    assert_eq!(tf.get("cats"), None);
    assert_eq!(tf.len(), 3);
}

#[test]
fn term_frequencies_of_empty_text() {
    let (n, tf) = term_frequencies(&[]);
    assert_eq!(n, 0);
    assert_eq!(tf.len(), 0);
}

#[test]
fn document_terms_are_counted_once_per_document() {
    let mut df: TermFreq = StrMap::new();
    df.insert("the".to_string(), 4);
    let (_, tf) = term_frequencies(&chars("the the world"));
    count_document_terms(&mut df, &tf);
    assert_eq!(df.get("the"), Some(&5));
    assert_eq!(df.get("world"), Some(&1));
    assert_eq!(df.len(), 2);
}

#[test]
fn term_and_document_counts_default() {
    let (_, tf) = term_frequencies(&chars("world world"));
    assert_eq!(term_count("world", &tf), 2);
    assert_eq!(term_count("moon", &tf), 0);
    assert_eq!(doc_count("world", &tf), 2);
    assert_eq!(doc_count("moon", &tf), 1);
}

#[test]
fn strmap_insert_replaces() {
    let mut m: StrMap<usize> = StrMap::new();
    m.insert("a".to_string(), 1);
    m.insert("b".to_string(), 2);
    m.insert("a".to_string(), 7);
    assert_eq!(m.get("a"), Some(&7));
    assert_eq!(m.len(), 2);
    m.increment(&"b".to_string());
    m.increment(&"c".to_string());
    assert_eq!(m.get("b"), Some(&3));
    assert_eq!(m.get("c"), Some(&1));
    let keys: Vec<&str> = m.keys().iter().map(|k| k.as_str()).collect();
    assert_eq!(keys, vec!["a", "b", "c"]);
}

#[test]
fn character_classes_match_std() {
    for c in (0..=0x10FFFFu32).filter_map(char::from_u32) {
        assert_eq!(is_whitespace(c), c.is_whitespace(), "{:?}", c);
        assert_eq!(is_alphanumeric(c), c.is_alphanumeric(), "{:?}", c);
    }
}

#[test]
fn letter_free_tokens_are_the_non_whitespace_characters() {
    let text = " 12,\t3 ! ½\u{2003}7.5 ";
    let c = chars(text);
    let mut lexer = Lexer::new(&c);
    let mut joined = String::new();
    while let Some(t) = lexer.next() {
        joined.push_str(&t);
    }
    let expected: String = text.chars().filter(|c| !c.is_whitespace()).collect();
    assert_eq!(joined, expected);
}

#[test]
fn count_tokens_counts_a_given_list() {
    let toks: Vec<String> = ["b", "a", "b"].iter().map(|s| s.to_string()).collect();
    let (n, tf) = count_tokens(&toks);
    assert_eq!(n, 3);
    assert_eq!(tf.get("b"), Some(&2));
    assert_eq!(tf.get("a"), Some(&1));
    let keys: Vec<&str> = tf.keys().iter().map(|k| k.as_str()).collect();
    assert_eq!(keys, vec!["b", "a"]);
    let (n, tf) = count_tokens(&Vec::new());
    assert_eq!((n, tf.len()), (0, 0));
}
