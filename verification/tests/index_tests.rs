use mus_search::index::{classify_path, converted_pdf_path, index_pdf, index_text, section_identifier, DocIndex, FileKind};
use mus_search::model::TermFreq;
use mus_search::strmap::StrMap;

fn chars(s: &str) -> Vec<char> {
    s.chars().collect()
}

#[test]
fn text_paragraphs_are_indexed_by_number() {
    let (idx, df) = index_text(DocIndex::new(), StrMap::new(), "./data/a.txt", &chars("cats dogs\r\ndogs 42"));
    assert_eq!(idx.len(), 2);
    let (n0, tf0) = idx.get("./data/a.txt/paragraph/0").unwrap();
    assert_eq!(*n0, 2);
    assert_eq!(tf0.get("cat"), Some(&1));
    let (n1, tf1) = idx.get("./data/a.txt/paragraph/1").unwrap();
    assert_eq!(*n1, 2);
    assert_eq!(tf1.get("42"), Some(&1));
    assert_eq!(df.get("dog"), Some(&2));
    assert_eq!(df.get("cat"), Some(&1));
    assert_eq!(df.get("42"), Some(&1));
}

#[test]
fn text_with_many_crlf_pieces_splits_on_lf() {
    let text = "x\r\n".repeat(101);
    let (idx, df) = index_text(DocIndex::new(), StrMap::new(), "t.txt", &chars(&text));
    assert_eq!(idx.len(), 102);
    assert_eq!(df.get("x"), Some(&101));
    assert!(idx.get("t.txt/paragraph/101").is_some());
}

#[test]
fn text_with_few_pieces_keeps_crlf_split() {
    let text = "a\nb\r\nc";
    let (idx, _) = index_text(DocIndex::new(), StrMap::new(), "t.txt", &chars(text));
    assert_eq!(idx.len(), 2);
    assert_eq!(idx.get("t.txt/paragraph/0").unwrap().0, 2);
}

#[test]
fn pdf_pages_without_text_are_skipped() {
    let pages = vec![Some("alpha beta".to_string()), None, Some("beta".to_string())];
    let mut df: TermFreq = StrMap::new();
    df.insert("beta".to_string(), 1);
    let (idx, df) = index_pdf(DocIndex::new(), df, "./data/r.pdf", &pages);
    assert_eq!(idx.len(), 2);
    assert!(idx.get("./data/r.pdf/page/0").is_some());
    assert!(idx.get("./data/r.pdf/page/1").is_none());
    assert_eq!(idx.get("./data/r.pdf/page/2").unwrap().0, 1);
    assert_eq!(df.get("beta"), Some(&3));
    assert_eq!(df.get("alpha"), Some(&1));
}

#[test]
fn reindexing_a_section_replaces_it() {
    let (idx, df) = index_text(DocIndex::new(), StrMap::new(), "p", &chars("one"));
    let (idx, df) = index_text(idx, df, "p", &chars("two two"));
    assert_eq!(idx.len(), 1);
    assert_eq!(idx.get("p/paragraph/0").unwrap().0, 2);
    assert_eq!(df.get("one"), Some(&1));
    assert_eq!(df.get("two"), Some(&1));
}

#[test]
fn section_identifiers() {
    assert_eq!(section_identifier("./data/x.pdf", &['p', 'a', 'g', 'e'], 12), "./data/x.pdf/page/12");
}

#[test]
fn file_kinds_by_name() {
    assert_eq!(classify_path("./data/a.pdf"), FileKind::Pdf);
    assert_eq!(classify_path("./data/.git/HEAD"), FileKind::Git);
    assert_eq!(classify_path("./data/.git/x.pdf"), FileKind::Pdf);
    assert_eq!(classify_path("./data/notes.txt"), FileKind::Text);
    assert_eq!(classify_path("./data/a.docx"), FileKind::Word);
    assert_eq!(classify_path("./docs/a.md"), FileKind::Word);
    assert_eq!(classify_path("./data/s.pptx"), FileKind::Presentation);
    assert_eq!(classify_path("./data/a.md"), FileKind::Other);
}

#[test]
fn converted_path_replaces_docx() {
    assert_eq!(converted_pdf_path("./data/r.docx"), "./data/r.pdf");
    assert_eq!(converted_pdf_path("./data/s.pptx"), "./data/s.pptx");
}

#[test]
fn counts_add_up_to_token_count() {
    let (n, tf) = mus_search::model::term_frequencies(&chars("b a b c a b"));
    let keys: Vec<&str> = tf.keys().iter().map(|k| k.as_str()).collect();
    assert_eq!(keys, vec!["b", "a", "c"]);
    let total: usize = tf.keys().iter().map(|k| *tf.get(k).unwrap()).sum();
    assert_eq!(total, n);
    assert_eq!(n, 6);
}

#[test]
fn indexed_page_is_found_by_reverse_search() {
    let pages = vec![None, Some("cats".to_string()), None, Some("dogs".to_string())];
    let (idx, _) = index_pdf(DocIndex::new(), StrMap::new(), "./data/report.pdf", &pages);
    let paths = vec!["./data/notes.txt".to_string(), "./data/report.pdf".to_string()];
    for id in idx.keys() {
        let found = mus_search::reverse_search::find_page(id, &paths).unwrap().unwrap();
        assert_eq!(found.0, 1);
        assert_eq!(id, &format!("./data/report.pdf/page/{}", found.1));
    }
    assert_eq!(idx.keys().len(), 2);
}

#[test]
fn document_frequencies_count_sections() {
    let (_, df) = index_text(DocIndex::new(), StrMap::new(), "p", &chars("a b\r\nb\r\nc b a"));
    assert_eq!(df.get("a"), Some(&2));
    assert_eq!(df.get("b"), Some(&3));
    assert_eq!(df.get("c"), Some(&1));
    for k in df.keys() {
        assert!(*df.get(k).unwrap() >= 1);
    }
}

#[test]
fn whole_index_document_frequencies() {
    let (idx, df) = index_text(DocIndex::new(), StrMap::new(), "./data/a.txt", &chars("cats dogs\r\ndogs"));
    let pages = vec![Some("dogs emus".to_string()), None];
    let (idx, df) = index_pdf(idx, df, "./data/b.pdf", &pages);
    for t in df.keys() {
        let holding = idx.keys().iter().filter(|k| idx.get(k).unwrap().1.get(t).is_some()).count();
        assert_eq!(*df.get(t).unwrap(), holding);
    }
    for k in idx.keys() {
        let (n, tf) = idx.get(k).unwrap();
        let total: usize = tf.keys().iter().map(|u| *tf.get(u).unwrap()).sum();
        assert_eq!(total, *n);
    }
    assert_eq!(df.get("dog"), Some(&3));
}

#[test]
fn find_page_round_trip_over_a_listing() {
    let paths: Vec<String> = ["./data/x.txt", "./data/a.pdf", "./data/report.pdf"].iter().map(|s| s.to_string()).collect();
    let id = section_identifier("./data/report.pdf", &['p', 'a', 'g', 'e'], 42);
    assert_eq!(mus_search::reverse_search::find_page(&id, &paths), Ok(Some((2, 42))));
}
