//! Building the index: each section of a document (a page of a PDF, a
//! paragraph of a text file) gets its own term table, and the document
//! frequencies count the sections that each term occurs in.
use vstd::prelude::*;
use crate::lexer::lex_tokens;
use crate::model::{count_document_terms, counts_of, term_frequencies, with_terms_counted, TermFreq};
use crate::strmap::{keys_of, StrMap};
use crate::text::{
    append_chars, chars_of, contains, contains_pattern, decimal, push_char,
    push_decimal, replace_all, replace_pattern, split_by, split_pattern, views_of,
    lemma_split_by_len,
};

verus! {

/// The abstract index: from section identifiers to the section's token
/// count and term table.
pub type IndexView = Map<Seq<char>, (usize, Map<Seq<char>, usize>)>;

/// The index of term tables, one per section, keyed by section identifier.
pub struct DocIndex {
    docs: StrMap<(usize, TermFreq)>,
}

impl View for DocIndex {
    type V = IndexView;

    closed spec fn view(&self) -> IndexView {
        self.docs@.map_values(|v: (usize, TermFreq)| (v.0, v.1@))
    }
}

impl DocIndex {
    /// The map and every term table in it are well formed.
    pub closed spec fn wf(&self) -> bool {
        &&& self.docs.wf()
        &&& forall|k: Seq<char>| #[trigger] self.docs@.contains_key(k) ==> self.docs@[k].1.wf()
    }

    /// The empty index.
    pub fn new() -> (r: Self)
        ensures
            r.wf(),
            r@ == IndexView::empty(),
    {
        let r = DocIndex { docs: StrMap::new() };
        assert(r@ =~= IndexView::empty());
        r
    }

    /// The number of sections.
    pub fn len(&self) -> (r: usize)
        ensures
            r == self@.len(),
    {
        assert(self@.dom() =~= self.docs@.dom());
        self.docs.len()
    }

    /// The token count and term table of the section `id`.
    pub fn get(&self, id: &str) -> (r: Option<&(usize, TermFreq)>)
        requires
            self.wf(),
        ensures
            match r {
                Some(v) => self@.contains_key(id@) && v.1.wf() && self@[id@] == (v.0, v.1@),
                None => !self@.contains_key(id@),
            },
    {
        self.docs.get(id)
    }

    /// Records the section `id` with its token count and term table,
    /// replacing what was recorded under `id` before.
    pub fn insert(&mut self, id: String, count: usize, tf: TermFreq)
        requires
            old(self).wf(),
            tf.wf(),
        ensures
            final(self).wf(),
            final(self)@ == old(self)@.insert(id@, (count, tf@)),
    {
        let ghost entry = (count, tf@);
        self.docs.insert(id, (count, tf));
        assert(self@ =~= old(self)@.insert(id@, entry));
    }

    /// The section identifiers in the order they were first recorded.
    pub fn keys(&self) -> (r: &Vec<String>)
        requires
            self.wf(),
        ensures
            keys_of(r@, self@),
    {
        let r = self.docs.keys();
        assert(self@.dom() =~= self.docs@.dom());
        r
    }
}

/// The identifier of section `i` of the document at `path`:
/// `{path}/{label}/{i}`.
pub open spec fn section_id(path: Seq<char>, label: Seq<char>, i: nat) -> Seq<char> {
    path + seq!['/'] + label + seq!['/'] + decimal(i)
}

/// The label of PDF pages.
pub open spec fn page_label() -> Seq<char> {
    seq!['p', 'a', 'g', 'e']
}

/// The label of text paragraphs.
pub open spec fn paragraph_label() -> Seq<char> {
    seq!['p', 'a', 'r', 'a', 'g', 'r', 'a', 'p', 'h']
}

/// The index and document frequencies after one more section with the
/// given identifier and content.
pub open spec fn indexed(
    index: IndexView,
    df: Map<Seq<char>, usize>,
    id: Seq<char>,
    content: Seq<char>,
) -> (IndexView, Map<Seq<char>, usize>) {
    let toks = lex_tokens(content);
    (
        index.insert(id, (toks.len() as usize, counts_of(toks))),
        with_terms_counted(df, counts_of(toks).dom()),
    )
}

/// The index and document frequencies after the sections of the document
/// at `path`, in order; section `i` is indexed under `{path}/{label}/{i}`,
/// and a section without text (`None`) is passed over.
pub open spec fn index_sections(
    index: IndexView,
    df: Map<Seq<char>, usize>,
    path: Seq<char>,
    label: Seq<char>,
    sections: Seq<Option<Seq<char>>>,
) -> (IndexView, Map<Seq<char>, usize>)
    decreases sections.len(),
{
    if sections.len() == 0 {
        (index, df)
    } else {
        let prev = index_sections(index, df, path, label, sections.drop_last());
        match sections.last() {
            None => prev,
            Some(c) => indexed(prev.0, prev.1, section_id(path, label, (sections.len() - 1) as nat), c),
        }
    }
}

/// Every count in `df` can still grow by `room`.
pub open spec fn counts_have_room(df: Map<Seq<char>, usize>, room: int) -> bool {
    forall|k: Seq<char>| #[trigger] df.contains_key(k) ==> df[k] + room <= usize::MAX
}

proof fn lemma_room_after_counting(df: Map<Seq<char>, usize>, terms: Set<Seq<char>>, room: int)
    requires
        room >= 1,
        room <= usize::MAX,
        counts_have_room(df, room),
    ensures
        counts_have_room(with_terms_counted(df, terms), room - 1),
{
}

/// Builds `{path}/{label}/{i}`.
pub fn section_identifier(path: &str, label: &[char], i: usize) -> (r: String)
    ensures
        r@ == section_id(path@, label@, i as nat),
{
    let mut id = path.to_owned();
    push_char(&mut id, '/');
    append_chars(&mut id, label);
    push_char(&mut id, '/');
    push_decimal(&mut id, i);
    id
}

/// Indexes one section: counts its tokens, records its table under `id`
/// and counts its terms in the document frequencies.
pub fn index_section(tf_index: &mut DocIndex, doc_freq: &mut TermFreq, id: String, content: &[char])
    requires
        old(tf_index).wf(),
        old(doc_freq).wf(),
        counts_have_room(old(doc_freq)@, 1),
    ensures
        final(tf_index).wf(),
        final(doc_freq).wf(),
        (final(tf_index)@, final(doc_freq)@) == indexed(
            old(tf_index)@,
            old(doc_freq)@,
            id@,
            content@,
        ),
{
    let (count, tf) = term_frequencies(content);
    count_document_terms(doc_freq, &tf);
    tf_index.insert(id, count, tf);
}

/// The views of optional strings.
pub open spec fn optional_views(v: Seq<Option<String>>) -> Seq<Option<Seq<char>>> {
    v.map_values(|o: Option<String>|
        match o {
            Some(s) => Some(s@),
            None => None,
        })
}

/// Indexes the pages of a PDF document: page `i` with text is recorded
/// under `{path}/page/{i}`; a page without text is passed over.
pub fn index_pdf(tf_index: DocIndex, doc_freq: TermFreq, path: &str, pages: &Vec<Option<String>>) -> (r: (DocIndex, TermFreq))
    requires
        tf_index.wf(),
        doc_freq.wf(),
        counts_have_room(doc_freq@, pages@.len() as int),
    ensures
        r.0.wf(),
        r.1.wf(),
        (r.0@, r.1@) == index_sections(tf_index@, doc_freq@, path@, page_label(), optional_views(pages@)),
{
    let mut tf_index = tf_index;
    let mut doc_freq = doc_freq;
    let ghost index0 = tf_index@;
    let ghost df0 = doc_freq@;
    let ghost sections = optional_views(pages@);
    let label = vec!['p', 'a', 'g', 'e'];
    let n = pages.len();
    let mut i: usize = 0;
    assert(sections.take(0) =~= Seq::<Option<Seq<char>>>::empty());
    while i < n
        invariant
            n == pages@.len(),
            sections == optional_views(pages@),
            label@ == page_label(),
            i <= n,
            tf_index.wf(),
            doc_freq.wf(),
            counts_have_room(doc_freq@, (n - i) as int),
            (tf_index@, doc_freq@) == index_sections(index0, df0, path@, page_label(), sections.take(i as int)),
        decreases n - i,
    {
        let ghost prefix = sections.take(i + 1);
        assert(prefix.drop_last() =~= sections.take(i as int));
        assert(prefix.last() == sections[i as int]);
        match &pages[i] {
            Some(text) => {
                let content = chars_of(text.as_str());
                let id = section_identifier(path, label.as_slice(), i);
                let ghost df_before = doc_freq@;
                index_section(&mut tf_index, &mut doc_freq, id, content.as_slice());
                proof {
                    lemma_room_after_counting(
                        df_before,
                        counts_of(lex_tokens(content@)).dom(),
                        (n - i) as int,
                    );
                }
            },
            None => {},
        }
        i += 1;
    }
    assert(sections.take(n as int) =~= sections);
    (tf_index, doc_freq)
}

/// The paragraphs of a text: the pieces between `\r\n` line ends, or, where
/// that gives more than 100 pieces, the pieces between `\n` line ends.
pub open spec fn paragraphs(c: Seq<char>) -> Seq<Seq<char>> {
    let p = split_by(c, seq!['\r', '\n']);
    if p.len() > 100 {
        split_by(c, seq!['\n'])
    } else {
        p
    }
}

/// Each piece as a section with text.
pub open spec fn as_sections(p: Seq<Seq<char>>) -> Seq<Option<Seq<char>>> {
    p.map_values(|x: Seq<char>| Some(x))
}

/// Indexes the paragraphs of a text document: paragraph `i` is recorded
/// under `{path}/paragraph/{i}`.
pub fn index_text(tf_index: DocIndex, doc_freq: TermFreq, path: &str, contents: &[char]) -> (r: (DocIndex, TermFreq))
    requires
        tf_index.wf(),
        doc_freq.wf(),
        counts_have_room(doc_freq@, contents@.len() + 1int),
    ensures
        r.0.wf(),
        r.1.wf(),
        (r.0@, r.1@) == index_sections(
            tf_index@,
            doc_freq@,
            path@,
            paragraph_label(),
            as_sections(paragraphs(contents@)),
        ),
{
    let crlf = vec!['\r', '\n'];
    let lf = vec!['\n'];
    let mut pieces = split_pattern(contents, crlf.as_slice());
    if pieces.len() > 100 {
        pieces = split_pattern(contents, lf.as_slice());
    }
    proof {
        lemma_split_by_len(contents@, crlf@);
        lemma_split_by_len(contents@, lf@);
        assert(crlf@ == seq!['\r', '\n']);
        assert(lf@ == seq!['\n']);
    }
    let mut tf_index = tf_index;
    let mut doc_freq = doc_freq;
    let ghost index0 = tf_index@;
    let ghost df0 = doc_freq@;
    let ghost sections = as_sections(paragraphs(contents@));
    assert(sections.len() == pieces@.len());
    let label = vec!['p', 'a', 'r', 'a', 'g', 'r', 'a', 'p', 'h'];
    let n = pieces.len();
    let mut i: usize = 0;
    assert(sections.take(0) =~= Seq::<Option<Seq<char>>>::empty());
    while i < n
        invariant
            n == pieces@.len(),
            sections == as_sections(views_of(pieces@)),
            label@ == paragraph_label(),
            i <= n,
            tf_index.wf(),
            doc_freq.wf(),
            counts_have_room(doc_freq@, (n - i) as int),
            (tf_index@, doc_freq@) == index_sections(index0, df0, path@, paragraph_label(), sections.take(i as int)),
        decreases n - i,
    {
        let ghost prefix = sections.take(i + 1);
        assert(prefix.drop_last() =~= sections.take(i as int));
        assert(prefix.last() == Some(pieces@[i as int]@));
        let id = section_identifier(path, label.as_slice(), i);
        let ghost df_before = doc_freq@;
        index_section(&mut tf_index, &mut doc_freq, id, pieces[i].as_slice());
        proof {
            lemma_room_after_counting(
                df_before,
                counts_of(lex_tokens(pieces@[i as int]@)).dom(),
                (n - i) as int,
            );
        }
        i += 1;
    }
    assert(sections.take(n as int) =~= sections);
    (tf_index, doc_freq)
}

/// The kinds of files the indexer tells apart by name.
#[derive(Debug, Clone, Copy, PartialEq, Eq, Structural)]
pub enum FileKind {
    /// A PDF document.
    Pdf,
    /// A file under version control metadata, passed over.
    Git,
    /// A plain text file.
    Text,
    /// A word-processor document, converted to PDF first.
    Word,
    /// A presentation, converted to PDF first.
    Presentation,
    /// Anything else, passed over.
    Other,
}

/// The kind of the file at `path`, by the first of these tests that its
/// name passes: it contains `.pdf`; `.git`; `.txt`; `.docx` or `doc`; `.ppt`.
pub open spec fn file_kind(path: Seq<char>) -> FileKind {
    if contains_pattern(path, seq!['.', 'p', 'd', 'f']) {
        FileKind::Pdf
    } else if contains_pattern(path, seq!['.', 'g', 'i', 't']) {
        FileKind::Git
    } else if contains_pattern(path, seq!['.', 't', 'x', 't']) {
        FileKind::Text
    } else if contains_pattern(path, seq!['.', 'd', 'o', 'c', 'x']) || contains_pattern(
        path,
        seq!['d', 'o', 'c'],
    ) {
        FileKind::Word
    } else if contains_pattern(path, seq!['.', 'p', 'p', 't']) {
        FileKind::Presentation
    } else {
        FileKind::Other
    }
}

/// Decides how the indexer treats the file at `path`.
pub fn classify_path(path: &str) -> (r: FileKind)
    ensures
        r == file_kind(path@),
{
    let p = chars_of(path);
    let pdf = vec!['.', 'p', 'd', 'f'];
    let git = vec!['.', 'g', 'i', 't'];
    let txt = vec!['.', 't', 'x', 't'];
    let docx = vec!['.', 'd', 'o', 'c', 'x'];
    let doc = vec!['d', 'o', 'c'];
    let ppt = vec!['.', 'p', 'p', 't'];
    proof {
        assert(pdf@ == seq!['.', 'p', 'd', 'f']);
        assert(git@ == seq!['.', 'g', 'i', 't']);
        assert(txt@ == seq!['.', 't', 'x', 't']);
        assert(docx@ == seq!['.', 'd', 'o', 'c', 'x']);
        assert(doc@ == seq!['d', 'o', 'c']);
        assert(ppt@ == seq!['.', 'p', 'p', 't']);
    }
    if contains(p.as_slice(), pdf.as_slice()) {
        FileKind::Pdf
    } else if contains(p.as_slice(), git.as_slice()) {
        FileKind::Git
    } else if contains(p.as_slice(), txt.as_slice()) {
        FileKind::Text
    } else if contains(p.as_slice(), docx.as_slice()) || contains(p.as_slice(), doc.as_slice()) {
        FileKind::Word
    } else if contains(p.as_slice(), ppt.as_slice()) {
        FileKind::Presentation
    } else {
        FileKind::Other
    }
}

/// The path that a converted document is read from: `path` with each
/// `docx` replaced by `pdf`.
pub fn converted_pdf_path(path: &str) -> (r: String)
    ensures
        r@ == replace_all(path@, seq!['d', 'o', 'c', 'x'], seq!['p', 'd', 'f']),
{
    let p = chars_of(path);
    let from = vec!['d', 'o', 'c', 'x'];
    let to = vec!['p', 'd', 'f'];
    assert(from@ == seq!['d', 'o', 'c', 'x']);
    assert(to@ == seq!['p', 'd', 'f']);
    replace_pattern(p.as_slice(), from.as_slice(), to.as_slice())
}

} // verus!
