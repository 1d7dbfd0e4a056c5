//! The on-disk index format.
//!
//! One file holds everything a query needs: the term dictionary, the four arrays of
//! the index, and the document metadata that turns a document id back into a title.
//!
//! ```text
//! +------------------------------------------------------------+
//! | header    magic, version, reserved, and eight counts       |  48 bytes
//! +------------------------------------------------------------+
//! | term_offsets            (terms + 1) x u32                  |
//! | term_bytes              concatenated UTF-8, sorted         |  dictionary
//! | term_ids                terms x u32                        |
//! +------------------------------------------------------------+
//! | term_postings_start     (terms + 1) x u32                  |
//! | posting_docs            postings x u32                     |  the index
//! | posting_positions_start (postings + 1) x u32               |
//! | positions               positions x u32                    |
//! +------------------------------------------------------------+
//! | external_offsets        (documents + 1) x u32              |
//! | external_bytes          concatenated external ids          |  documents
//! | title_offsets           (documents + 1) x u32              |
//! | title_bytes             concatenated titles                |
//! +------------------------------------------------------------+
//! ```
//!
//! The dictionary is written in the order of its terms, whatever order a hash map
//! hands them out in, so that the same index always makes the same bytes.
//!
//! What a file holds, [`file_bytes`] says; what becomes of any bytes at all,
//! [`crate::reading::parsed`].

use crate::codec;
use crate::corpus::{DocId, DocMeta, DocMetaView, DocStore};
use crate::dictionary;
use crate::error::Error;
use crate::index::{Index, TermId};
use crate::ordering;
use crate::postings;
use crate::postings::IndexView;
use crate::text;
use vstd::prelude::*;
use vstd::string::*;
use vstd::utf8::*;

verus! {

/// Bumped whenever the layout changes in a way that makes old files unreadable.
pub const VERSION: u32 = 1;

/// The length of the header: magic, version, and the counts that size every section.
pub const HEADER_BYTES: usize = 48;

/// An index together with the document metadata its results refer to.
#[derive(Debug)]
pub struct SearchIndex {
    /// The positional inverted index.
    pub index: Index,
    /// Metadata for every indexed document.
    pub documents: DocStore,
}

/// What a [`SearchIndex`] holds.
pub struct SearchIndexView {
    pub index: IndexView,
    pub documents: Seq<DocMetaView>,
}

impl View for SearchIndex {
    type V = SearchIndexView;

    open spec fn view(&self) -> SearchIndexView {
        SearchIndexView { index: self.index@, documents: self.documents@ }
    }
}

/// Identifies the file and the layout it uses: `BOOLIDX` and a byte of one.
pub open spec fn magic() -> Seq<u8> {
    seq![66u8, 79, 79, 76, 73, 68, 88, 1]
}

/// The counts in a file's header.
pub struct Counts {
    pub stored_documents: u32,
    pub terms: u32,
    pub postings: u32,
    pub positions: u32,
    pub term_bytes: u32,
    pub external_bytes: u32,
    pub title_bytes: u32,
    pub indexed_documents: u32,
}

/// The bytes of a header.
pub open spec fn header_bytes(counts: Counts) -> Seq<u8> {
    magic() + codec::numbers_bytes(
        seq![
            VERSION,
            0,
            counts.stored_documents,
            counts.terms,
            counts.postings,
            counts.positions,
            counts.term_bytes,
            counts.external_bytes,
            counts.title_bytes,
            counts.indexed_documents,
        ],
    )
}

/// The terms of a dictionary, in order.
pub open spec fn sorted_terms(map: Map<Seq<char>, u32>) -> Seq<Seq<char>> {
    ordering::sorted_entries(map).map_values(|entry: (Seq<char>, u32)| entry.0)
}

/// The numbers of a dictionary's terms, in the order of the terms.
pub open spec fn sorted_numbers(map: Map<Seq<char>, u32>) -> Seq<u32> {
    ordering::sorted_entries(map).map_values(|entry: (Seq<char>, u32)| entry.1)
}

pub open spec fn raw_ids(docs: Seq<DocId>) -> Seq<u32> {
    docs.map_values(|doc: DocId| doc.0)
}

pub open spec fn external_ids(documents: Seq<DocMetaView>) -> Seq<Seq<char>> {
    documents.map_values(|meta: DocMetaView| meta.external_id)
}

pub open spec fn titles(documents: Seq<DocMetaView>) -> Seq<Seq<char>> {
    documents.map_values(|meta: DocMetaView| meta.title)
}

/// Whether no section is larger than a `u32` can address.
pub open spec fn addressable(view: SearchIndexView) -> bool {
    &&& view.documents.len() <= u32::MAX
    &&& view.index.dictionary.dom().len() <= u32::MAX
    &&& view.index.posting_docs.len() <= u32::MAX
    &&& view.index.positions.len() <= u32::MAX
    &&& codec::bytes_in(sorted_terms(view.index.dictionary)) <= u32::MAX
    &&& codec::bytes_in(external_ids(view.documents)) <= u32::MAX
    &&& codec::bytes_in(titles(view.documents)) <= u32::MAX
}

/// The counts that size the sections.
pub open spec fn counts_of(view: SearchIndexView) -> Counts {
    Counts {
        stored_documents: view.documents.len() as u32,
        terms: view.index.dictionary.dom().len() as u32,
        postings: view.index.posting_docs.len() as u32,
        positions: view.index.positions.len() as u32,
        term_bytes: codec::bytes_in(sorted_terms(view.index.dictionary)) as u32,
        external_bytes: codec::bytes_in(external_ids(view.documents)) as u32,
        title_bytes: codec::bytes_in(titles(view.documents)) as u32,
        indexed_documents: view.index.documents,
    }
}

/// The bytes of a run of strings: where they start, and then their text.
pub open spec fn strings_section(strings: Seq<Seq<char>>) -> Seq<u8> {
    codec::numbers_bytes(codec::offsets_of(strings)) + codec::strings_bytes(strings)
}

pub open spec fn dictionary_section(map: Map<Seq<char>, u32>) -> Seq<u8> {
    strings_section(sorted_terms(map)) + codec::numbers_bytes(sorted_numbers(map))
}

pub open spec fn arrays_section(index: IndexView) -> Seq<u8> {
    codec::numbers_bytes(index.term_postings_start) + codec::numbers_bytes(
        raw_ids(index.posting_docs),
    ) + codec::numbers_bytes(index.posting_positions_start) + codec::numbers_bytes(index.positions)
}

pub open spec fn documents_section(documents: Seq<DocMetaView>) -> Seq<u8> {
    strings_section(external_ids(documents)) + strings_section(titles(documents))
}

/// What a file holds.
pub open spec fn file_bytes(view: SearchIndexView) -> Seq<u8> {
    header_bytes(counts_of(view)) + dictionary_section(view.index.dictionary) + arrays_section(
        view.index,
    ) + documents_section(view.documents)
}

/// What a list of strings holds.
pub open spec fn texts(list: Seq<&str>) -> Seq<Seq<char>> {
    list.map_values(|string: &str| string@)
}

/// Where the strings start, and where the last one ends: `[3, 1, 4]` bytes become the
/// offsets `[0, 3, 4, 8]`. `None` where an offset does not fit.
fn offsets(list: &Vec<&str>) -> (found: Option<Vec<u32>>)
    ensures
        match found {
            Some(found) => codec::bytes_in(texts(list@)) <= u32::MAX && found@
                == codec::offsets_of(texts(list@)),
            None => codec::bytes_in(texts(list@)) > u32::MAX,
        },
{
    let ghost strings = texts(list@);
    let mut found: Vec<u32> = Vec::new();
    found.push(0);
    let mut running: u32 = 0;
    let mut index: usize = 0;
    while index < list.len()
        invariant
            strings == texts(list@),
            index <= list@.len(),
            running == codec::bytes_before(strings, index as int),
            found@.len() == index + 1,
            forall|i: int|
                0 <= i <= index ==> #[trigger] found@[i] == codec::bytes_before(strings, i),
            forall|i: int|
                0 <= i <= index ==> codec::bytes_before(strings, i) as u32
                    == #[trigger] codec::bytes_before(strings, i),
        decreases list@.len() - index,
    {
        let length: usize = text::length_of(list[index]);
        proof {
            assert(strings[index as int] == list@[index as int]@);
            codec::lemma_bytes_before_grows(strings, index + 1, strings.len() as int);
        }
        if length > (u32::MAX - running) as usize {
            return None;
        }
        running = running + length as u32;
        found.push(running);
        index += 1;
    }
    proof {
        assert(found@ =~= codec::offsets_of(strings));
    }
    Some(found)
}

/// Appends the text of the strings.
fn push_strings(out: &mut Vec<u8>, list: &Vec<&str>)
    ensures
        final(out)@ == old(out)@ + codec::strings_bytes(texts(list@)),
{
    let ghost before = out@;
    let ghost strings = texts(list@);
    let mut index: usize = 0;
    proof {
        assert(strings.take(0) =~= Seq::<Seq<char>>::empty());
        assert(before + codec::strings_bytes(strings.take(0)) =~= before);
    }
    while index < list.len()
        invariant
            strings == texts(list@),
            index <= list@.len(),
            out@ == before + codec::strings_bytes(strings.take(index as int)),
        decreases list@.len() - index,
    {
        codec::push_string(out, list[index]);
        index += 1;
        proof {
            let done = strings.take(index as int);
            assert(done.drop_last() =~= strings.take(index - 1));
            assert(out@ =~= before + codec::strings_bytes(done));
        }
    }
    proof {
        assert(strings.take(index as int) =~= strings);
    }
}

/// Appends the raw ids of documents.
fn push_ids(out: &mut Vec<u8>, docs: &Vec<DocId>)
    ensures
        final(out)@ == old(out)@ + codec::numbers_bytes(raw_ids(docs@)),
{
    let ghost before = out@;
    let ghost ids = raw_ids(docs@);
    let mut index: usize = 0;
    proof {
        assert(ids.take(0) =~= Seq::<u32>::empty());
        assert(before + codec::numbers_bytes(ids.take(0)) =~= before);
    }
    while index < docs.len()
        invariant
            ids == raw_ids(docs@),
            index <= docs@.len(),
            out@ == before + codec::numbers_bytes(ids.take(index as int)),
        decreases docs@.len() - index,
    {
        codec::push_number(out, docs[index].0);
        index += 1;
        proof {
            let done = ids.take(index as int);
            assert(done.drop_last() =~= ids.take(index - 1));
            assert(out@ =~= before + codec::numbers_bytes(done));
        }
    }
    proof {
        assert(ids.take(index as int) =~= ids);
    }
}

/// Appends a header.
fn push_header(out: &mut Vec<u8>, counts: &Counts)
    ensures
        final(out)@ == old(out)@ + header_bytes(*counts),
{
    let mark = vec![66u8, 79, 79, 76, 73, 68, 88, 1];
    let numbers = vec![
        VERSION,
        0,
        counts.stored_documents,
        counts.terms,
        counts.postings,
        counts.positions,
        counts.term_bytes,
        counts.external_bytes,
        counts.title_bytes,
        counts.indexed_documents,
    ];
    out.extend_from_slice(mark.as_slice());
    proof {
        assert(out@ =~= old(out)@ + magic());
        assert(numbers@ =~= seq![
            VERSION,
            0,
            counts.stored_documents,
            counts.terms,
            counts.postings,
            counts.positions,
            counts.term_bytes,
            counts.external_bytes,
            counts.title_bytes,
            counts.indexed_documents,
        ]);
    }
    codec::push_numbers(out, &numbers);
    proof {
        assert(out@ =~= old(out)@ + header_bytes(*counts));
    }
}

proof fn lemma_behind(a: Seq<u8>, b: Seq<u8>, c: Seq<u8>)
    ensures
        (a + b) + c == a + (b + c),
{
    assert((a + b) + c =~= a + (b + c));
}

/// Appends a run of strings, the offsets of which are given.
fn push_strings_section(out: &mut Vec<u8>, starts: &Vec<u32>, list: &Vec<&str>)
    requires
        starts@ == codec::offsets_of(texts(list@)),
    ensures
        final(out)@ == old(out)@ + strings_section(texts(list@)),
{
    codec::push_numbers(out, starts);
    push_strings(out, list);
    proof {
        lemma_behind(
            old(out)@,
            codec::numbers_bytes(starts@),
            codec::strings_bytes(texts(list@)),
        );
    }
}

/// Appends the four arrays of an index.
fn push_arrays(
    out: &mut Vec<u8>,
    starts: &Vec<u32>,
    docs: &Vec<DocId>,
    position_starts: &Vec<u32>,
    positions: &Vec<u32>,
)
    ensures
        final(out)@ == old(out)@ + (codec::numbers_bytes(starts@) + codec::numbers_bytes(
            raw_ids(docs@),
        ) + codec::numbers_bytes(position_starts@) + codec::numbers_bytes(positions@)),
{
    let ghost before = out@;
    let ghost a = codec::numbers_bytes(starts@);
    let ghost b = codec::numbers_bytes(raw_ids(docs@));
    let ghost c = codec::numbers_bytes(position_starts@);
    let ghost d = codec::numbers_bytes(positions@);
    codec::push_numbers(out, starts);
    push_ids(out, docs);
    codec::push_numbers(out, position_starts);
    codec::push_numbers(out, positions);
    proof {
        lemma_behind(before, a, b);
        lemma_behind(before, a + b, c);
        lemma_behind(before, a + b + c, d);
    }
}

/// The terms of sorted entries, and their numbers.
fn split<'a>(entries: &Vec<(&'a str, TermId)>) -> (parts: (Vec<&'a str>, Vec<u32>))
    ensures
        texts(parts.0@) == ordering::entries(entries@).map_values(
            |entry: (Seq<char>, u32)| entry.0,
        ),
        parts.1@ == ordering::entries(entries@).map_values(|entry: (Seq<char>, u32)| entry.1),
{
    let mut terms: Vec<&'a str> = Vec::new();
    let mut numbers: Vec<u32> = Vec::new();
    let mut index: usize = 0;
    while index < entries.len()
        invariant
            index <= entries@.len(),
            terms@.len() == index,
            numbers@.len() == index,
            forall|k: int| 0 <= k < index ==> #[trigger] terms@[k] == entries@[k].0,
            forall|k: int| 0 <= k < index ==> #[trigger] numbers@[k] == entries@[k].1.0,
        decreases entries@.len() - index,
    {
        terms.push(entries[index].0);
        numbers.push(entries[index].1.0);
        index += 1;
    }
    proof {
        assert(texts(terms@) =~= ordering::entries(entries@).map_values(
            |entry: (Seq<char>, u32)| entry.0,
        ));
        assert(numbers@ =~= ordering::entries(entries@).map_values(
            |entry: (Seq<char>, u32)| entry.1,
        ));
    }
    (terms, numbers)
}

/// The external ids of the entries, and their titles.
fn columns(entries: &Vec<DocMeta>) -> (parts: (Vec<&str>, Vec<&str>))
    ensures
        texts(parts.0@) == external_ids(entries@.map_values(|meta: DocMeta| meta@)),
        texts(parts.1@) == titles(entries@.map_values(|meta: DocMeta| meta@)),
{
    let mut ids: Vec<&str> = Vec::new();
    let mut names: Vec<&str> = Vec::new();
    let mut index: usize = 0;
    while index < entries.len()
        invariant
            index <= entries@.len(),
            ids@.len() == index,
            names@.len() == index,
            forall|k: int| 0 <= k < index ==> (#[trigger] ids@[k])@ == entries@[k].external_id@,
            forall|k: int| 0 <= k < index ==> (#[trigger] names@[k])@ == entries@[k].title@,
        decreases entries@.len() - index,
    {
        ids.push(entries[index].external_id.as_str());
        names.push(entries[index].title.as_str());
        index += 1;
    }
    proof {
        let metas = entries@.map_values(|meta: DocMeta| meta@);
        assert(texts(ids@) =~= external_ids(metas));
        assert(texts(names@) =~= titles(metas));
    }
    (ids, names)
}

impl SearchIndex {
    /// Bundles an index with its document store.
    pub fn new(index: Index, documents: DocStore) -> (bundle: SearchIndex)
        ensures
            bundle.index == index,
            bundle.documents == documents,
    {
        SearchIndex { index, documents }
    }

    /// Appends what a file holds to `writer`, or appends nothing and says
    /// [`Error::IndexTooLarge`] where a section is more than a `u32` offset can
    /// address.
    pub fn write_to(&self, writer: &mut Vec<u8>) -> (written: Result<(), Error>)
        ensures
            match written {
                Ok(_) => addressable(self@) && final(writer)@ == old(writer)@ + file_bytes(self@),
                Err(error) => {
                    &&& !addressable(self@)
                    &&& error == Error::IndexTooLarge
                    &&& final(writer)@ == old(writer)@
                },
            },
    {
        let ghost map = self.index@.dictionary;
        let vocabulary = self.index.vocabulary();
        let sorted = ordering::sort_terms(&vocabulary, Ghost(map));
        let (terms, numbers) = split(&sorted);
        let (ids, names) = columns(self.documents.entries());
        let (starts, docs, position_starts, positions) = self.index.parts();
        let limit: u64 = u32::MAX as u64;
        proof {
            assert(texts(terms@) == sorted_terms(map));
            assert(numbers@ == sorted_numbers(map));
            assert(texts(ids@) == external_ids(self.documents@));
            assert(texts(names@) == titles(self.documents@));
        }
        let term_count: usize = self.index.terms();
        let document_count: usize = self.documents.len();
        if document_count as u64 > limit || term_count as u64 > limit || docs.len() as u64 > limit
            || positions.len() as u64 > limit {
            return Err(Error::IndexTooLarge);
        }
        let term_offsets = match offsets(&terms) {
            Some(found) => found,
            None => {
                return Err(Error::IndexTooLarge);
            },
        };
        let id_offsets = match offsets(&ids) {
            Some(found) => found,
            None => {
                return Err(Error::IndexTooLarge);
            },
        };
        let title_offsets = match offsets(&names) {
            Some(found) => found,
            None => {
                return Err(Error::IndexTooLarge);
            },
        };
        let counts = Counts {
            stored_documents: document_count as u32,
            terms: term_count as u32,
            postings: docs.len() as u32,
            positions: positions.len() as u32,
            term_bytes: term_offsets[terms.len()],
            external_bytes: id_offsets[ids.len()],
            title_bytes: title_offsets[names.len()],
            indexed_documents: self.index.documents() as u32,
        };
        proof {
            assert(counts == counts_of(self@));
        }
        let ghost before = writer@;
        let ghost header = header_bytes(counts);
        let ghost words = strings_section(texts(terms@));
        let ghost numbered = codec::numbers_bytes(numbers@);
        let ghost arrays = arrays_section(self.index@);
        let ghost id_section = strings_section(texts(ids@));
        let ghost title_section = strings_section(texts(names@));
        push_header(writer, &counts);
        push_strings_section(writer, &term_offsets, &terms);
        codec::push_numbers(writer, &numbers);
        push_arrays(writer, starts, docs, position_starts, positions);
        push_strings_section(writer, &id_offsets, &ids);
        push_strings_section(writer, &title_offsets, &names);
        proof {
            lemma_behind(before + header, words, numbered);
            lemma_behind(before, header, words + numbered);
            lemma_behind(before, header + (words + numbered), arrays);
            let start = before + (header + (words + numbered) + arrays);
            lemma_behind(start, id_section, title_section);
            lemma_behind(
                before,
                header + (words + numbered) + arrays,
                id_section + title_section,
            );
        }
        Ok(())
    }

    /// The bytes to write to a file.
    pub fn save(&self) -> (bytes: Result<Vec<u8>, Error>)
        ensures
            match bytes {
                Ok(bytes) => addressable(self@) && bytes@ == file_bytes(self@),
                Err(error) => !addressable(self@) && error == Error::IndexTooLarge,
            },
    {
        let mut bytes: Vec<u8> = Vec::new();
        match self.write_to(&mut bytes) {
            Ok(_) => {
                proof {
                    assert(bytes@ =~= file_bytes(self@));
                }
                Ok(bytes)
            },
            Err(error) => Err(error),
        }
    }
}

} // verus!
