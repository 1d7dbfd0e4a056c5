//! Documents, their dense internal identifiers, and the reader's decisions.
//!
//! The corpus is a JSON Lines file: one complete JSON object per line. Reading a line
//! and parsing it is the caller's part. What the reader decides is here:
//! [`JsonlCorpus`] counts lines and bytes, tells blank lines from records, and gives
//! each record that parsed the next [`DocId`].
//!
//! ```text
//! begin_line  ->  caller reads a line   ->  line_read      ->  end of file, or blank, or
//!                                                              a record to parse
//!                 caller parses it      ->  record_parsed  ->  a Document, or an Error
//! ```
//!
//! Over lines that were read and parsed beforehand, [`ParsedLines`], the reader goes from
//! item to item by itself.

use crate::error::Error;
use crate::text;
use crate::tokenize;
use crate::whitespace;
use serde_json::Error as JsonError;
use std::io::Error as IoError;
use vstd::prelude::*;
use vstd::string::*;

verus! {

/// A dense, internal document identifier.
///
/// Documents are numbered in the order they were read, starting at zero, so a `DocId`
/// doubles as an index into the document table.
#[derive(Debug, Clone, Copy, PartialEq, Eq, PartialOrd, Ord, Hash, Structural)]
pub struct DocId(pub u32);

impl DocId {
    /// The first document in a corpus.
    pub fn first() -> (id: DocId)
        ensures
            id.0 == 0,
    {
        DocId(0)
    }

    /// Wraps a raw identifier.
    pub fn new(raw: u32) -> (id: DocId)
        ensures
            id.0 == raw,
    {
        DocId(raw)
    }

    /// The raw identifier.
    pub fn get(self) -> (raw: u32)
        ensures
            raw == self.0,
    {
        self.0
    }

    /// The identifier as a `usize`, for indexing into the document table.
    pub fn as_usize(self) -> (index: usize)
        ensures
            index == self.0,
    {
        self.0 as usize
    }

    /// The next identifier, or `None` past `u32::MAX`, since an id that wrapped would
    /// corrupt an index rather than fail a build.
    pub fn checked_next(self) -> (next: Option<DocId>)
        ensures
            next == (if self.0 < u32::MAX {
                Some(DocId((self.0 + 1) as u32))
            } else {
                None
            }),
    {
        if self.0 < u32::MAX {
            Some(DocId(self.0 + 1))
        } else {
            None
        }
    }

    /// `#` and the number.
    pub fn to_string(&self) -> (shown: String)
        ensures
            shown@ == "#"@ + text::decimal(self.0 as nat),
    {
        let mut shown = String::new();
        shown.append("#");
        text::push_decimal(&mut shown, self.0 as u64);
        proof {
            assert(shown@ =~= "#"@ + text::decimal(self.0 as nat));
        }
        shown
    }
}

/// One document, as the indexer sees it.
#[derive(Debug, Clone, PartialEq, Eq)]
pub struct Document {
    /// Dense internal identifier, assigned in corpus order.
    pub id: DocId,
    /// The corpus's own identifier, e.g. the arXiv id `0704.0001`.
    pub external_id: String,
    /// The document's title.
    pub title: String,
    /// The body text. For arXiv, the abstract.
    pub body: String,
}

/// What a [`Document`] holds.
pub struct DocumentView {
    pub id: u32,
    pub external_id: Seq<char>,
    pub title: Seq<char>,
    pub body: Seq<char>,
}

impl View for Document {
    type V = DocumentView;

    open spec fn view(&self) -> DocumentView {
        DocumentView {
            id: self.id.0,
            external_id: self.external_id@,
            title: self.title@,
            body: self.body@,
        }
    }
}

impl Document {
    /// Total characters of indexable text, title and body together.
    pub fn text_len(&self) -> (length: usize)
        requires
            self.title@.len() + self.body@.len() <= usize::MAX,
        ensures
            length == self.title@.len() + self.body@.len(),
    {
        self.title.as_str().unicode_len() + self.body.as_str().unicode_len()
    }
}

/// The fields of an arXiv record that the engine uses.
#[derive(Debug)]
pub struct ArxivRecord {
    /// The record's own identifier.
    pub id: String,
    /// The title, as it was typeset.
    pub title: String,
    /// The abstract, as it was typeset.
    pub body: String,
}

/// What to do after a line was read.
#[derive(Debug, Clone, Copy, PartialEq, Eq)]
pub enum LineAction<'a> {
    /// The file has ended.
    EndOfFile,
    /// The line holds nothing but white space: go on with the next one.
    Blank,
    /// The line holds a record: parse this part of it.
    Record(&'a str),
}

/// What a reader has counted: the id of the next document, the lines begun and the
/// bytes read.
pub struct ReaderState {
    pub next_id: u32,
    pub lines: nat,
    pub bytes: nat,
}

/// What comes of a record.
pub enum ItemView {
    /// A document with this id.
    Document(u32),
    /// Nothing, since the record on this line did not parse.
    Malformed(nat),
    /// Nothing, since there is no id left.
    TooLarge,
}

/// The state of a reader at its beginning.
pub open spec fn fresh() -> ReaderState {
    ReaderState { next_id: 0, lines: 0, bytes: 0 }
}

impl ReaderState {
    /// With one more line begun.
    pub open spec fn line_begun(self) -> ReaderState {
        ReaderState { lines: self.lines + 1, ..self }
    }

    /// With so many more bytes read.
    pub open spec fn bytes_taken(self, bytes: nat) -> ReaderState {
        ReaderState { bytes: self.bytes + bytes, ..self }
    }

    /// Behind a record that parsed, or did not.
    pub open spec fn record_taken(self, parsed: bool) -> ReaderState {
        ReaderState { next_id: next_id_after(self.next_id, parsed), ..self }
    }

    /// What comes of a record that parsed, or did not.
    pub open spec fn item(self, parsed: bool) -> ItemView {
        if !parsed {
            ItemView::Malformed(self.lines)
        } else if self.next_id == u32::MAX {
            ItemView::TooLarge
        } else {
            ItemView::Document(self.next_id)
        }
    }
}

/// Whether `document` is what came of a record.
pub open spec fn gives(document: Result<Document, Error>, item: ItemView) -> bool {
    match item {
        ItemView::Document(id) => document is Ok && document->Ok_0.id.0 == id,
        ItemView::Malformed(line) => document matches Err(error) && error
            matches Error::MalformedRecord { line: named, .. } && named == line,
        ItemView::TooLarge => document == Err::<Document, Error>(Error::CorpusTooLarge),
    }
}

/// Whether `document` is what comes of what was parsed on line `line` of the file `path`,
/// the next id being `next_id`: a document with that id, or the error that says why there
/// is none.
pub open spec fn comes_of(
    document: Result<Document, Error>,
    path: String,
    line: usize,
    next_id: u32,
    parsed: Result<ArxivRecord, JsonError>,
) -> bool {
    match parsed {
        Err(source) => document == Err::<Document, Error>(
            Error::MalformedRecord { path, line, source },
        ),
        Ok(record) => if next_id == u32::MAX {
            document == Err::<Document, Error>(Error::CorpusTooLarge)
        } else {
            &&& document is Ok
            &&& document->Ok_0@ == (DocumentView {
                id: next_id,
                external_id: record.id@,
                title: whitespace::collapsed(record.title@),
                body: whitespace::collapsed(record.body@),
            })
        },
    }
}

/// A reader over a JSON Lines corpus.
#[derive(Debug)]
pub struct JsonlCorpus<R> {
    reader: R,
    path: String,
    next_id: DocId,
    line: usize,
    bytes_read: u64,
}

impl<R> JsonlCorpus<R> {
    /// Where the lines come from.
    pub closed spec fn reader(self) -> R {
        self.reader
    }

    /// The file's name, for error messages.
    pub closed spec fn path(self) -> String {
        self.path
    }

    /// The id of the next document.
    pub closed spec fn next_id(self) -> u32 {
        self.next_id.0
    }

    /// How many lines were begun.
    pub closed spec fn lines(self) -> usize {
        self.line
    }

    /// How many bytes were read.
    pub closed spec fn bytes(self) -> u64 {
        self.bytes_read
    }

    /// What the reader has counted.
    pub open spec fn state(self) -> ReaderState {
        ReaderState {
            next_id: self.next_id(),
            lines: self.lines() as nat,
            bytes: self.bytes() as nat,
        }
    }

    /// A corpus at its beginning. The path is used only for error messages.
    pub fn from_reader(reader: R, path: String) -> (corpus: JsonlCorpus<R>)
        ensures
            corpus.reader() == reader,
            corpus.path() == path,
            corpus.next_id() == 0,
            corpus.lines() == 0,
            corpus.bytes() == 0,
            corpus.state() == fresh(),
    {
        JsonlCorpus { reader, path, next_id: DocId::first(), line: 0, bytes_read: 0 }
    }

    /// Bytes consumed so far, for throughput reporting.
    pub fn bytes_read(&self) -> (bytes: u64)
        ensures
            bytes == self.bytes(),
    {
        self.bytes_read
    }

    /// Lines consumed so far, blank and malformed ones and the end of the file
    /// counted too.
    pub fn lines_read(&self) -> (lines: usize)
        ensures
            lines == self.lines(),
    {
        self.line
    }

    /// The reader, to read the next line from.
    pub fn reader_mut(&mut self) -> (reader: &mut R)
        ensures
            *reader == old(self).reader(),
            final(self).reader() == *final(reader),
            final(self).path() == old(self).path(),
            final(self).next_id() == old(self).next_id(),
            final(self).lines() == old(self).lines(),
            final(self).bytes() == old(self).bytes(),
    {
        &mut self.reader
    }

    /// Counts the line that is about to be read.
    pub fn begin_line(&mut self)
        requires
            old(self).lines() < usize::MAX,
        ensures
            final(self).lines() == old(self).lines() + 1,
            final(self).state() == old(self).state().line_begun(),
            final(self).reader() == old(self).reader(),
            final(self).path() == old(self).path(),
            final(self).next_id() == old(self).next_id(),
            final(self).bytes() == old(self).bytes(),
    {
        self.line = self.line + 1;
    }

    /// Takes in a line of `bytes` bytes, where no bytes at all mean the end of the
    /// file. A blank line is not a malformed record.
    pub fn line_read<'a>(&mut self, bytes: usize, line: &'a str) -> (action: LineAction<'a>)
        requires
            old(self).bytes() + bytes <= u64::MAX,
        ensures
            final(self).bytes() == old(self).bytes() + bytes,
            final(self).state() == old(self).state().bytes_taken(bytes as nat),
            final(self).reader() == old(self).reader(),
            final(self).path() == old(self).path(),
            final(self).next_id() == old(self).next_id(),
            final(self).lines() == old(self).lines(),
            match action {
                LineAction::EndOfFile => bytes == 0,
                LineAction::Blank => bytes > 0 && whitespace::trimmed(line@).len() == 0,
                LineAction::Record(record) => bytes > 0 && record@ == whitespace::trimmed(line@)
                    && record@.len() > 0,
            },
    {
        if bytes == 0 {
            return LineAction::EndOfFile;
        }
        self.bytes_read = self.bytes_read + bytes as u64;
        let record = whitespace::trim(line);
        if record.is_empty() {
            LineAction::Blank
        } else {
            LineAction::Record(record)
        }
    }

    /// The error for a line that could not be read.
    pub fn read_failed(&self, source: IoError) -> (error: Error)
        ensures
            error == (Error::Io { path: self.path(), source }),
    {
        Error::io(self.path.clone(), source)
    }

    /// Makes a document of a record that parsed, or an error of one that did not.
    ///
    /// A record that did not parse takes no id, so ids stay dense.
    pub fn record_parsed(&mut self, parsed: Result<ArxivRecord, JsonError>) -> (document: Result<
        Document,
        Error,
    >)
        ensures
            final(self).reader() == old(self).reader(),
            final(self).path() == old(self).path(),
            final(self).lines() == old(self).lines(),
            final(self).bytes() == old(self).bytes(),
            final(self).next_id() == next_id_after(old(self).next_id(), parsed is Ok),
            final(self).state() == old(self).state().record_taken(parsed is Ok),
            gives(document, old(self).state().item(parsed is Ok)),
            comes_of(
                document,
                old(self).path(),
                old(self).lines(),
                old(self).next_id(),
                parsed,
            ),
            parsed is Ok && old(self).next_id() < u32::MAX ==> document is Ok && whitespace::words(
                document->Ok_0.title@,
            ) == whitespace::words(parsed->Ok_0.title@) && whitespace::words(
                document->Ok_0.body@,
            ) == whitespace::words(parsed->Ok_0.body@),
    {
        proof {
            if parsed is Ok {
                whitespace::normalizing_whitespace_keeps_the_words(parsed->Ok_0.title@);
                whitespace::normalizing_whitespace_keeps_the_words(parsed->Ok_0.body@);
            }
        }
        match parsed {
            Err(source) => Err(
                Error::MalformedRecord { path: self.path.clone(), line: self.line, source },
            ),
            Ok(record) => {
                let id = self.next_id;
                match id.checked_next() {
                    None => Err(Error::CorpusTooLarge),
                    Some(next) => {
                        self.next_id = next;
                        Ok(
                            Document {
                                id,
                                external_id: record.id,
                                title: whitespace::normalize_whitespace(record.title.as_str()),
                                body: whitespace::normalize_whitespace(record.body.as_str()),
                            },
                        )
                    },
                }
            },
        }
    }
}

/// The next id after a record that parsed, or did not.
pub open spec fn next_id_after(next: u32, parsed: bool) -> u32 {
    if parsed && next < u32::MAX {
        (next + 1) as u32
    } else {
        next
    }
}

/// The ids given out over a run of records, the next id being `next` at its start.
pub open spec fn ids_given(next: u32, parsed: Seq<bool>) -> Seq<u32>
    decreases parsed.len(),
{
    if parsed.len() == 0 {
        seq![]
    } else {
        let rest = ids_given(next_id_after(next, parsed[0]), parsed.drop_first());
        if parsed[0] && next < u32::MAX {
            seq![next] + rest
        } else {
            rest
        }
    }
}

/// How many records of a run parsed.
pub open spec fn how_many_parsed(parsed: Seq<bool>) -> nat
    decreases parsed.len(),
{
    if parsed.len() == 0 {
        0
    } else {
        how_many_parsed(parsed.drop_first()) + if parsed[0] {
            1nat
        } else {
            0nat
        }
    }
}

/// Ids are dense: whatever records fail to parse, the ids given out are consecutive
/// from the first, and one was given out per record that parsed, as long as there
/// was one left.
pub proof fn ids_stay_dense(next: u32, parsed: Seq<bool>)
    ensures
        forall|k: int| 0 <= k < ids_given(next, parsed).len() ==> #[trigger] ids_given(
            next,
            parsed,
        )[k] == next + k,
        next + ids_given(next, parsed).len() <= u32::MAX,
        next + how_many_parsed(parsed) <= u32::MAX ==> ids_given(next, parsed).len()
            == how_many_parsed(parsed),
    decreases parsed.len(),
{
    if parsed.len() > 0 {
        let after = next_id_after(next, parsed[0]);
        let rest = parsed.drop_first();
        ids_stay_dense(after, rest);
        let ids = ids_given(next, parsed);
        assert forall|k: int| 0 <= k < ids.len() implies #[trigger] ids[k] == next + k by {
            if parsed[0] && next < u32::MAX && k > 0 {
                assert(ids[k] == ids_given(after, rest)[k - 1]);
            }
        }
    }
}

/// A record that parses becomes a document with nothing of it lost: the title and the body
/// have just the words of the record's, all of them and in order, with one space between
/// each and the next, and so are indexed under the same terms. It is given the next id,
/// whatever it says and however long it is, as long as there is one left.
pub proof fn a_document_has_every_word_of_its_record(
    document: Result<Document, Error>,
    path: String,
    line: usize,
    next_id: u32,
    record: ArxivRecord,
)
    requires
        comes_of(document, path, line, next_id, Ok(record)),
    ensures
        next_id == 0xffff_ffff ==> document == Err::<Document, Error>(Error::CorpusTooLarge),
        next_id < 0xffff_ffff ==> document is Ok && {
            let made = document->Ok_0;
            &&& made.id.0 == next_id
            &&& made.external_id@ == record.id@
            &&& whitespace::words(made.title@) == whitespace::words(record.title@)
            &&& whitespace::words(made.body@) == whitespace::words(record.body@)
            &&& made.title@ == whitespace::spaced(whitespace::words(record.title@))
            &&& made.body@ == whitespace::spaced(whitespace::words(record.body@))
            &&& tokenize::terms(made.title@) == tokenize::terms(record.title@)
            &&& tokenize::terms(made.body@) == tokenize::terms(record.body@)
        },
{
    whitespace::normalizing_whitespace_keeps_the_words(record.title@);
    whitespace::normalizing_whitespace_keeps_the_words(record.body@);
    whitespace::normalizing_whitespace_keeps_the_terms(record.title@);
    whitespace::normalizing_whitespace_keeps_the_terms(record.body@);
}

/// A line that does not parse is an error that names the file and the line and carries the
/// cause. It takes no id, and one that parses takes one.
pub proof fn a_line_that_does_not_parse_is_named(
    document: Result<Document, Error>,
    path: String,
    line: usize,
    state: ReaderState,
    source: JsonError,
)
    requires
        comes_of(document, path, line, state.next_id, Err(source)),
    ensures
        document matches Err(error) && error matches Error::MalformedRecord {
            path: named,
            line: number,
            source: cause,
        } && named == path && number == line && cause == source,
        state.record_taken(false) == state,
        state.next_id < 0xffff_ffff ==> state.record_taken(true).next_id == state.next_id + 1,
        state.record_taken(true).lines == state.lines,
        state.record_taken(true).bytes == state.bytes,
{
}

/// A line is passed over as blank if and only if every character on it is white space.
pub proof fn a_line_is_blank_where_only_white_space_is_on_it(line: InputLine)
    ensures
        is_blank(line) <==> forall|i: int|
            0 <= i < line.text.len() ==> text::white_space(#[trigger] line.text[i]),
{
    let chars = line.text;
    whitespace::lemma_word_start(chars, 0);
    let start = whitespace::word_start(chars, 0);
    if start < chars.len() {
        whitespace::lemma_text_end(chars, chars.len() as int, start);
    }
}

/// A line of a corpus, its end included, and whether what stands on it parses as a
/// record.
pub struct InputLine {
    pub text: Seq<char>,
    pub parses: bool,
}

/// Whether nothing but white space stands on a line.
pub open spec fn is_blank(line: InputLine) -> bool {
    whitespace::trimmed(line.text).len() == 0
}

/// How many lines are not blank.
pub open spec fn records(lines: Seq<InputLine>) -> nat
    decreases lines.len(),
{
    if lines.len() == 0 {
        0
    } else {
        records(lines.drop_last()) + if is_blank(lines.last()) {
            0nat
        } else {
            1nat
        }
    }
}

/// How many lines hold a record that parses.
pub open spec fn good_records(lines: Seq<InputLine>) -> nat
    decreases lines.len(),
{
    if lines.len() == 0 {
        0
    } else {
        good_records(lines.drop_last()) + if !is_blank(lines.last()) && lines.last().parses {
            1nat
        } else {
            0nat
        }
    }
}

/// How many bytes the lines take, their ends included.
pub open spec fn bytes_of_lines(lines: Seq<InputLine>) -> nat
    decreases lines.len(),
{
    if lines.len() == 0 {
        0
    } else {
        bytes_of_lines(lines.drop_last()) + text::byte_len(lines.last().text)
    }
}

/// How many of the items are documents.
pub open spec fn documents_among(items: Seq<ItemView>) -> nat
    decreases items.len(),
{
    if items.len() == 0 {
        0
    } else {
        documents_among(items.drop_last()) + if items.last() is Document {
            1nat
        } else {
            0nat
        }
    }
}

/// What asking for the next item came to: the reader's state behind it, how many lines
/// were consumed by then, and the item, or none at the end of the file.
pub struct NextItem {
    pub state: ReaderState,
    pub consumed: int,
    pub item: Option<ItemView>,
}

/// Asking for the next item in state `state`, where `consumed` lines were consumed:
/// line after line is begun and read until one is not blank, and the record on that
/// one is taken.
pub open spec fn next_item(state: ReaderState, lines: Seq<InputLine>, consumed: int) -> NextItem
    decreases lines.len() - consumed,
{
    let begun = state.line_begun();
    if consumed >= lines.len() {
        NextItem { state: begun.bytes_taken(0), consumed, item: None }
    } else {
        let line = lines[consumed];
        let read = begun.bytes_taken(text::byte_len(line.text));
        if is_blank(line) {
            next_item(read, lines, consumed + 1)
        } else {
            NextItem {
                state: read.record_taken(line.parses),
                consumed: consumed + 1,
                item: Some(read.item(line.parses)),
            }
        }
    }
}

/// A run of a reader: its state, how many lines were consumed, and the items given.
pub struct ReaderRun {
    pub state: ReaderState,
    pub consumed: int,
    pub items: Seq<ItemView>,
}

/// What asking a fresh reader for `calls` items comes to.
pub open spec fn reader_run(lines: Seq<InputLine>, calls: nat) -> ReaderRun
    decreases calls,
{
    if calls == 0 {
        ReaderRun { state: fresh(), consumed: 0, items: seq![] }
    } else {
        let before = reader_run(lines, (calls - 1) as nat);
        let next = next_item(before.state, lines, before.consumed);
        ReaderRun {
            state: next.state,
            consumed: next.consumed,
            items: match next.item {
                Some(item) => before.items.push(item),
                None => before.items,
            },
        }
    }
}

/// Whether `state` is that of a reader that has consumed just these lines.
pub open spec fn has_consumed(state: ReaderState, lines: Seq<InputLine>) -> bool {
    &&& state.lines == lines.len()
    &&& state.bytes == bytes_of_lines(lines)
    &&& state.next_id == good_records(lines)
}

proof fn lemma_counts_of_start(lines: Seq<InputLine>, k: int)
    requires
        0 <= k <= lines.len(),
    ensures
        records(lines.take(k)) <= records(lines),
        good_records(lines.take(k)) <= good_records(lines),
        k < lines.len() ==> {
            let more = lines.take(k + 1);
            let here = lines.take(k);
            &&& records(more) == records(here) + if is_blank(lines[k]) {
                0nat
            } else {
                1nat
            }
            &&& good_records(more) == good_records(here) + if !is_blank(lines[k])
                && lines[k].parses {
                1nat
            } else {
                0nat
            }
            &&& bytes_of_lines(more) == bytes_of_lines(here) + text::byte_len(lines[k].text)
        },
    decreases lines.len() - k,
{
    if k < lines.len() {
        lemma_counts_of_start(lines, k + 1);
        assert(lines.take(k + 1).drop_last() =~= lines.take(k));
    } else {
        assert(lines.take(k) =~= lines);
    }
}

/// Asking for an item consumes the blank lines and the next that is not, or everything.
proof fn lemma_next_item(state: ReaderState, lines: Seq<InputLine>, consumed: int)
    requires
        0 <= consumed <= lines.len(),
        has_consumed(state, lines.take(consumed)),
        good_records(lines) < u32::MAX,
    ensures
        ({
            let next = next_item(state, lines, consumed);
            if records(lines.take(consumed)) < records(lines) {
                let line = lines[next.consumed - 1];
                &&& consumed < next.consumed <= lines.len()
                &&& has_consumed(next.state, lines.take(next.consumed))
                &&& records(lines.take(next.consumed)) == records(lines.take(consumed)) + 1
                &&& !is_blank(line)
                &&& next.item == Some(
                    if line.parses {
                        ItemView::Document(good_records(lines.take(consumed)) as u32)
                    } else {
                        ItemView::Malformed(next.consumed as nat)
                    },
                )
                &&& good_records(lines.take(next.consumed)) == good_records(lines.take(consumed))
                    + if line.parses {
                    1nat
                } else {
                    0nat
                }
            } else {
                &&& next.item is None
                &&& next.state.lines == lines.len() + 1
                &&& next.state.bytes == bytes_of_lines(lines)
            }
        }),
    decreases lines.len() - consumed,
{
    lemma_counts_of_start(lines, consumed);
    if consumed < lines.len() {
        lemma_counts_of_start(lines, consumed + 1);
        if is_blank(lines[consumed]) {
            let read = state.line_begun().bytes_taken(text::byte_len(lines[consumed].text));
            lemma_next_item(read, lines, consumed + 1);
        }
    } else {
        assert(lines.take(consumed) =~= lines);
    }
}

/// The bytes of the lines are those of their text, every character and every line end
/// counted.
pub proof fn every_byte_of_a_line_is_counted(lines: Seq<InputLine>)
    ensures
        bytes_of_lines(lines) == text::byte_len(
            lines.map_values(|line: InputLine| line.text).flatten(),
        ),
    decreases lines.len(),
{
    let texts = lines.map_values(|line: InputLine| line.text);
    if lines.len() == 0 {
        assert(texts.flatten() =~= Seq::<char>::empty());
    } else {
        let before = lines.drop_last().map_values(|line: InputLine| line.text);
        every_byte_of_a_line_is_counted(lines.drop_last());
        assert(texts =~= before.push(lines.last().text));
        before.lemma_flatten_push(lines.last().text);
        text::lemma_encode_concat(before.flatten(), lines.last().text);
    }
}

/// What a fresh reader has counted behind so many items: the lines and the bytes that
/// it consumed, blank and malformed lines among them, the last of them the line of the
/// last item. Nothing is read ahead. The items are one per line that is not blank, and
/// of those that parse the first has id zero, the next id one, and so on.
pub proof fn a_reader_gives_one_item_per_record(lines: Seq<InputLine>, calls: nat)
    requires
        good_records(lines) < u32::MAX,
        calls <= records(lines),
    ensures
        ({
            let run = reader_run(lines, calls);
            &&& 0 <= run.consumed <= lines.len()
            &&& run.state.lines == run.consumed
            &&& run.state.bytes == bytes_of_lines(lines.take(run.consumed))
            &&& records(lines.take(run.consumed)) == calls
            &&& calls > 0 ==> run.consumed > 0 && !is_blank(lines[run.consumed - 1])
            &&& run.items.len() == calls
            &&& documents_among(run.items) == good_records(lines.take(run.consumed))
        }),
        forall|j: nat|
            j < calls ==> {
                let line = (#[trigger] reader_run(lines, j + 1)).consumed;
                &&& 0 < line <= lines.len()
                &&& reader_run(lines, calls).items[j as int] == if lines[line - 1].parses {
                    ItemView::Document(
                        documents_among(reader_run(lines, calls).items.take(j as int)) as u32,
                    )
                } else {
                    ItemView::Malformed(line as nat)
                }
            },
        has_consumed(
            reader_run(lines, calls).state,
            lines.take(reader_run(lines, calls).consumed),
        ),
    decreases calls,
{
    let run = reader_run(lines, calls);
    if calls == 0 {
        assert(lines.take(0) =~= Seq::<InputLine>::empty());
    } else {
        let fewer = (calls - 1) as nat;
        let before = reader_run(lines, fewer);
        a_reader_gives_one_item_per_record(lines, fewer);
        lemma_next_item(before.state, lines, before.consumed);
        assert(run.items.drop_last() =~= before.items);
        assert forall|j: nat| j < calls implies {
            let line = (#[trigger] reader_run(lines, j + 1)).consumed;
            &&& 0 < line <= lines.len()
            &&& run.items[j as int] == if lines[line - 1].parses {
                ItemView::Document(documents_among(run.items.take(j as int)) as u32)
            } else {
                ItemView::Malformed(line as nat)
            }
        } by {
            if j < fewer {
                assert(run.items[j as int] == before.items[j as int]);
                assert(run.items.take(j as int) =~= before.items.take(j as int));
            } else {
                assert(run.items.take(j as int) =~= before.items);
            }
        }
    }
}

/// Asked for one item more than there are records, a fresh reader gives none and has
/// counted every byte and every line, the end of the file as one line more.
pub proof fn a_reader_ends_behind_the_last_line(lines: Seq<InputLine>)
    requires
        good_records(lines) < u32::MAX,
    ensures
        ({
            let run = reader_run(lines, records(lines) + 1);
            &&& run.items == reader_run(lines, records(lines)).items
            &&& run.items.len() == records(lines)
            &&& run.state.lines == lines.len() + 1
            &&& run.state.bytes == bytes_of_lines(lines)
        }),
{
    let run = reader_run(lines, records(lines));
    a_reader_gives_one_item_per_record(lines, records(lines));
    lemma_next_item(run.state, lines, run.consumed);
}

/// A line of a corpus, its end included, with what came of parsing it. What came of
/// parsing a blank line does not matter.
#[derive(Debug)]
pub struct ParsedLine {
    /// The line, its end included.
    pub text: String,
    /// The record on it, or why there is none.
    pub record: Result<ArxivRecord, JsonError>,
}

/// What a reader goes by in these lines.
pub open spec fn inputs(lines: Seq<ParsedLine>) -> Seq<InputLine> {
    lines.map_values(|line: ParsedLine| InputLine { text: line.text@, parses: line.record is Ok })
}

/// The lines of a corpus, all of them read and parsed already.
pub struct ParsedLines {
    /// The lines not yet consumed, the next one at the end.
    rest: Vec<ParsedLine>,
    all: Ghost<Seq<ParsedLine>>,
}

impl ParsedLines {
    /// All the lines, in order.
    pub closed spec fn all(self) -> Seq<ParsedLine> {
        self.all@
    }

    /// How many of them were consumed.
    pub closed spec fn consumed(self) -> int {
        self.all@.len() - self.rest@.len()
    }

    /// Whether what is left is what was not consumed.
    pub closed spec fn wf(self) -> bool {
        &&& self.rest@.len() <= self.all@.len()
        &&& forall|i: int|
            0 <= i < self.rest@.len() ==> #[trigger] self.rest@[i] == self.all@[self.all@.len() - 1
                - i]
    }

    /// The lines, none of them consumed.
    pub fn new(lines: Vec<ParsedLine>) -> (source: ParsedLines)
        ensures
            source.wf(),
            source.all() == lines@,
            source.consumed() == 0,
    {
        let ghost all = lines@;
        let mut lines = lines;
        let mut rest: Vec<ParsedLine> = Vec::with_capacity(lines.len());
        while lines.len() > 0
            invariant
                lines@.len() + rest@.len() == all.len(),
                lines@ == all.take(lines@.len() as int),
                forall|i: int|
                    0 <= i < rest@.len() ==> #[trigger] rest@[i] == all[all.len() - 1 - i],
            decreases lines@.len(),
        {
            if let Some(line) = lines.pop() {
                rest.push(line);
            }
        }
        ParsedLines { rest, all: Ghost(all) }
    }

    /// Consumes the next line, where there is one.
    fn take_line(&mut self) -> (line: Option<ParsedLine>)
        requires
            old(self).wf(),
        ensures
            final(self).wf(),
            final(self).all() == old(self).all(),
            0 <= old(self).consumed() <= old(self).all().len(),
            match line {
                Some(line) => {
                    &&& old(self).consumed() < old(self).all().len()
                    &&& line == old(self).all()[old(self).consumed()]
                    &&& final(self).consumed() == old(self).consumed() + 1
                },
                None => {
                    &&& old(self).consumed() == old(self).all().len()
                    &&& final(self).consumed() == old(self).consumed()
                },
            },
    {
        self.rest.pop()
    }
}

/// Whether a reader in state `state` can count everything in these lines and the end of
/// the file. A line has at least one character, for one without any is the end of the file.
pub open spec fn can_count(state: ReaderState, lines: Seq<InputLine>, consumed: int) -> bool {
    &&& state.lines + (lines.len() - consumed) < usize::MAX
    &&& state.bytes + (bytes_of_lines(lines) - bytes_of_lines(lines.take(consumed))) <= u64::MAX
    &&& forall|i: int| 0 <= i < lines.len() ==> (#[trigger] lines[i]).text.len() > 0
}

/// The first lines have no more bytes than all of them.
proof fn lemma_bytes_of_start(lines: Seq<InputLine>, k: int)
    requires
        0 <= k <= lines.len(),
    ensures
        bytes_of_lines(lines.take(k)) <= bytes_of_lines(lines),
    decreases lines.len() - k,
{
    lemma_counts_of_start(lines, k);
    if k < lines.len() {
        lemma_bytes_of_start(lines, k + 1);
    } else {
        assert(lines.take(k) =~= lines);
    }
}

impl JsonlCorpus<ParsedLines> {
    /// The next document, or the error on the next line that holds a record and does not
    /// parse, or `None` at the end of the file. Blank lines are passed over; a line that
    /// does not parse is consumed, so that reading goes on behind it.
    pub fn next(&mut self) -> (item: Option<Result<Document, Error>>)
        requires
            old(self).reader().wf(),
            can_count(
                old(self).state(),
                inputs(old(self).reader().all()),
                old(self).reader().consumed(),
            ),
        ensures
            final(self).reader().wf(),
            final(self).reader().all() == old(self).reader().all(),
            final(self).path() == old(self).path(),
            ({
                let lines = inputs(old(self).reader().all());
                let next = next_item(old(self).state(), lines, old(self).reader().consumed());
                &&& final(self).state() == next.state
                &&& final(self).reader().consumed() == next.consumed
                &&& match (item, next.item) {
                    (Some(item), Some(given)) => {
                        &&& gives(item, given)
                        &&& 0 < next.consumed <= lines.len()
                        &&& comes_of(
                            item,
                            old(self).path(),
                            final(self).lines(),
                            old(self).next_id(),
                            old(self).reader().all()[next.consumed - 1].record,
                        )
                        &&& can_count(next.state, lines, next.consumed)
                    },
                    (None, None) => next.consumed == lines.len(),
                    _ => false,
                }
            }),
    {
        let ghost lines = inputs(self.reader.all());
        let ghost asked = next_item(self.state(), lines, self.reader.consumed());
        loop
            invariant
                self.reader.wf(),
                self.reader.all() == old(self).reader().all(),
                self.path() == old(self).path(),
                self.next_id() == old(self).next_id(),
                lines == inputs(self.reader.all()),
                can_count(self.state(), lines, self.reader.consumed()),
                asked == next_item(old(self).state(), lines, old(self).reader().consumed()),
                asked == next_item(self.state(), lines, self.reader.consumed()),
            decreases lines.len() - self.reader.consumed(),
        {
            let ghost at = self.reader.consumed();
            self.begin_line();
            match self.reader.take_line() {
                None => {
                    self.line_read(0, "");
                    return None;
                },
                Some(line) => {
                    proof {
                        lemma_counts_of_start(lines, at);
                        lemma_bytes_of_start(lines, at + 1);
                        assert(lines[at] == (InputLine {
                            text: line.text@,
                            parses: line.record is Ok,
                        }));
                        text::lemma_byte_at_step(line.text@, 0);
                    }
                    let bytes: usize = text::length_of(line.text.as_str());
                    match self.line_read(bytes, line.text.as_str()) {
                        LineAction::Record(_) => {
                            return Some(self.record_parsed(line.record));
                        },
                        _ => {},
                    }
                },
            }
        }
    }

    /// Every item from the beginning to the end of the file.
    pub fn read_all(&mut self) -> (items: Vec<Result<Document, Error>>)
        requires
            old(self).reader().wf(),
            old(self).reader().consumed() == 0,
            old(self).state() == fresh(),
            can_count(fresh(), inputs(old(self).reader().all()), 0),
        ensures
            final(self).path() == old(self).path(),
            ({
                let lines = inputs(old(self).reader().all());
                let run = reader_run(lines, items@.len());
                let ended = reader_run(lines, items@.len() + 1);
                &&& run.items.len() == items@.len()
                &&& forall|i: int|
                    0 <= i < items@.len() ==> gives(#[trigger] items@[i], run.items[i])
                &&& ended.items == run.items
                &&& final(self).state() == ended.state
                &&& final(self).reader().consumed() == lines.len()
                &&& good_records(lines) < u32::MAX ==> {
                    &&& items@.len() == records(lines)
                    &&& final(self).lines() == lines.len() + 1
                    &&& final(self).bytes() == bytes_of_lines(lines)
                    &&& final(self).next_id() == good_records(lines)
                }
            }),
    {
        let ghost lines = inputs(self.reader.all());
        let mut items: Vec<Result<Document, Error>> = Vec::new();
        loop
            invariant
                self.reader.wf(),
                self.reader.all() == old(self).reader().all(),
                self.path() == old(self).path(),
                lines == inputs(self.reader.all()),
                can_count(self.state(), lines, self.reader.consumed()),
                self.state() == reader_run(lines, items@.len()).state,
                self.reader.consumed() == reader_run(lines, items@.len()).consumed,
                reader_run(lines, items@.len()).items.len() == items@.len(),
                forall|i: int|
                    0 <= i < items@.len() ==> gives(
                        #[trigger] items@[i],
                        reader_run(lines, items@.len()).items[i],
                    ),
                good_records(lines) < u32::MAX ==> items@.len() <= records(lines),
            decreases lines.len() - self.reader.consumed(),
        {
            let ghost calls = items@.len();
            proof {
                if good_records(lines) < u32::MAX {
                    a_reader_gives_one_item_per_record(lines, calls);
                    lemma_next_item(self.state(), lines, self.reader.consumed());
                    lemma_next_id_at_end(self.state(), lines, self.reader.consumed());
                }
                lemma_next_item_moves(self.state(), lines, self.reader.consumed());
            }
            match self.next() {
                None => {
                    return items;
                },
                Some(item) => {
                    let ghost before = items@;
                    items.push(item);
                    proof {
                        assert forall|i: int| 0 <= i < items@.len() implies gives(
                            #[trigger] items@[i],
                            reader_run(lines, items@.len()).items[i],
                        ) by {
                            if i < before.len() {
                                assert(gives(before[i], reader_run(lines, calls).items[i]));
                            }
                        }
                    }
                },
            }
        }
    }
}

/// An item is never given without a line.
proof fn lemma_next_item_moves(state: ReaderState, lines: Seq<InputLine>, consumed: int)
    requires
        0 <= consumed <= lines.len(),
    ensures
        next_item(state, lines, consumed).item is Some ==> consumed < next_item(
            state,
            lines,
            consumed,
        ).consumed <= lines.len(),
    decreases lines.len() - consumed,
{
    if consumed < lines.len() && is_blank(lines[consumed]) {
        let read = state.line_begun().bytes_taken(text::byte_len(lines[consumed].text));
        lemma_next_item_moves(read, lines, consumed + 1);
    }
}

/// The end of the file is behind every record.
proof fn lemma_next_id_at_end(state: ReaderState, lines: Seq<InputLine>, consumed: int)
    requires
        0 <= consumed <= lines.len(),
        has_consumed(state, lines.take(consumed)),
        good_records(lines) < u32::MAX,
    ensures
        next_item(state, lines, consumed).item is None ==> next_item(
            state,
            lines,
            consumed,
        ).state.next_id == good_records(lines),
    decreases lines.len() - consumed,
{
    lemma_counts_of_start(lines, consumed);
    if consumed == lines.len() {
        assert(lines.take(consumed) =~= lines);
    } else if is_blank(lines[consumed]) {
        let read = state.line_begun().bytes_taken(text::byte_len(lines[consumed].text));
        lemma_next_id_at_end(read, lines, consumed + 1);
    }
}

/// Metadata for a single document.
#[derive(Debug, Clone, PartialEq, Eq)]
pub struct DocMeta {
    /// The corpus's own identifier, e.g. the arXiv id `0704.0001`.
    pub external_id: String,
    /// The document's title.
    pub title: String,
}

/// What a [`DocMeta`] holds.
pub struct DocMetaView {
    pub external_id: Seq<char>,
    pub title: Seq<char>,
}

impl View for DocMeta {
    type V = DocMetaView;

    open spec fn view(&self) -> DocMetaView {
        DocMetaView { external_id: self.external_id@, title: self.title@ }
    }
}

/// Everything a search result needs in order to name a document, indexed by
/// [`DocId`].
#[derive(Debug, Clone, PartialEq, Eq)]
pub struct DocStore {
    entries: Vec<DocMeta>,
}

impl View for DocStore {
    type V = Seq<DocMetaView>;

    closed spec fn view(&self) -> Seq<DocMetaView> {
        self.entries@.map_values(|meta: DocMeta| meta@)
    }
}

impl Default for DocStore {
    fn default() -> (store: DocStore)
        ensures
            store@.len() == 0,
    {
        DocStore::new()
    }
}

impl DocStore {
    /// An empty store.
    pub fn new() -> (store: DocStore)
        ensures
            store@.len() == 0,
    {
        DocStore { entries: Vec::new() }
    }

    /// An empty store with room for `capacity` documents, so many at most as memory
    /// could ever hold.
    pub fn with_capacity(capacity: usize) -> (store: DocStore)
        requires
            capacity <= usize::MAX / 256,
        ensures
            store@.len() == 0,
    {
        DocStore { entries: Vec::with_capacity(capacity) }
    }

    /// A store of the given entries, the first being that of `DocId(0)`.
    pub(crate) fn from_entries(entries: Vec<DocMeta>) -> (store: DocStore)
        ensures
            store@ == entries@.map_values(|meta: DocMeta| meta@),
    {
        DocStore { entries }
    }

    /// The entries, in corpus order.
    pub(crate) fn entries(&self) -> (entries: &Vec<DocMeta>)
        ensures
            self@ == entries@.map_values(|meta: DocMeta| meta@),
    {
        &self.entries
    }

    /// Records a document's metadata. Documents are pushed in corpus order, so that
    /// `DocId(n)` lives at index `n`.
    pub fn push(&mut self, document: &Document)
        requires
            document.id.0 == old(self)@.len(),
        ensures
            final(self)@ == old(self)@.push(
                (DocMetaView {
                    external_id: document.external_id@,
                    title: document.title@,
                }),
            ),
    {
        let meta = DocMeta {
            external_id: document.external_id.clone(),
            title: document.title.clone(),
        };
        self.entries.push(meta);
        proof {
            assert(self@ =~= old(self)@.push(meta@));
        }
    }

    /// The metadata for `id`, or `None` if it was never indexed.
    pub fn get(&self, id: DocId) -> (meta: Option<&DocMeta>)
        ensures
            match meta {
                Some(meta) => id.0 < self@.len() && meta@ == self@[id.0 as int],
                None => id.0 >= self@.len(),
            },
    {
        let index: usize = id.as_usize();
        if index < self.entries.len() {
            Some(&self.entries[index])
        } else {
            None
        }
    }

    /// How many documents are stored.
    pub fn len(&self) -> (count: usize)
        ensures
            count == self@.len(),
    {
        self.entries.len()
    }

    /// Whether no documents are stored.
    pub fn is_empty(&self) -> (empty: bool)
        ensures
            empty == (self@.len() == 0),
    {
        self.entries.len() == 0
    }

    /// Every document's metadata, in corpus order.
    pub fn iter(&self) -> (all: Vec<(DocId, &DocMeta)>)
        ensures
            all@.len() == self@.len(),
            forall|k: int|
                0 <= k < all@.len() ==> (#[trigger] all@[k]).0.0 == k as u32 && all@[k].1@
                    == self@[k],
    {
        let mut all: Vec<(DocId, &DocMeta)> = Vec::with_capacity(self.entries.len());
        let mut index: usize = 0;
        while index < self.entries.len()
            invariant
                index == all@.len(),
                index <= self.entries@.len(),
                forall|k: int|
                    0 <= k < all@.len() ==> (#[trigger] all@[k]).0.0 == k as u32 && all@[k].1@
                        == self@[k],
            decreases self.entries@.len() - index,
        {
            all.push((DocId::new(#[verifier::truncate] (index as u32)), &self.entries[index]));
            index += 1;
        }
        all
    }
}

} // verus!
