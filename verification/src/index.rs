//! The positional inverted index.
//!
//! An inverted index maps each term to the documents containing it. A positional
//! index also records where in each document, which is what answers phrases and
//! proximity:
//!
//! ```text
//! "quantum" --> [ (doc 3, [12, 87]), (doc 17, [4]), (doc 22, [9, 31, 44]) ]
//! ```
//!
//! It is held in four flat arrays. Each level stores where the next level's slice
//! begins:
//!
//! ```text
//! term_postings_start     [0, 2, 5, ...]            one entry per term, plus a sentinel
//! posting_docs            [3, 17,  22, 40, 41, ..]  one entry per posting
//! posting_positions_start [0,  2,   3,  6, ...]     one entry per posting, plus a sentinel
//! positions               [12, 87, 4, 9, 31, ...]   one entry per occurrence
//! ```
//!
//! Flat arrays need their sizes up front, so the corpus is gone through twice:
//! [`IndexBuilder`] counts, and [`IndexAssembler`] fills. Between them, a prefix sum
//! turns "how many" into "starting where".

use crate::corpus::{DocId, Document};
use crate::dictionary;
use crate::error::Error;
use crate::postings;
use crate::text;
use crate::tokenize;
use rustc_hash::FxHashMap;
use vstd::prelude::*;
use vstd::string::*;

verus! {

/// An interned term.
#[derive(Debug, Clone, Copy, PartialEq, Eq, PartialOrd, Ord, Hash, Structural)]
pub struct TermId(pub u32);

impl TermId {
    /// Wraps a raw identifier.
    pub fn new(raw: u32) -> (id: TermId)
        ensures
            id.0 == raw,
    {
        TermId(raw)
    }

    /// The raw identifier.
    pub fn get(self) -> (raw: u32)
        ensures
            raw == self.0,
    {
        self.0
    }

    /// The identifier as a `usize`, for indexing into the term tables.
    pub fn as_usize(self) -> (index: usize)
        ensures
            index == self.0,
    {
        self.0 as usize
    }

    /// `t` and the number.
    pub fn to_string(&self) -> (shown: String)
        ensures
            shown@ == "t"@ + text::decimal(self.0 as nat),
    {
        let mut shown = String::new();
        shown.append("t");
        text::push_decimal(&mut shown, self.0 as u64);
        proof {
            assert(shown@ =~= "t"@ + text::decimal(self.0 as nat));
        }
        shown
    }
}

/// Says "this term has not been seen in any document yet". No document has this id:
/// the corpus reader refuses to go that far.
const NO_DOCUMENT: u32 = u32::MAX;

/// What a list of terms holds.
pub open spec fn texts(terms: Seq<String>) -> Seq<Seq<char>> {
    terms.map_values(|term: String| term@)
}

/// Whether the positions of a title of `title` terms and a body of `body` terms fit a
/// `u32`.
fn positions_of_counts_fit(title: usize, body: usize) -> (fit: bool)
    ensures
        fit == postings::counts_fit(title as nat, body as nat),
        fit <==> title + 100 <= 0xffff_ffff && (body == 0 || title + 100 + body - 1
            <= 0xffff_ffff),
{
    let limit: usize = u32::MAX as usize;
    title <= limit - postings::FIELD_GAP as usize && (body == 0 || body - 1 <= limit
        - postings::FIELD_GAP as usize - title)
}

impl Document {
    /// Whether every position of the document fits a `u32`.
    pub fn positions_fit(&self) -> (fit: bool)
        ensures
            fit == postings::positions_fit(self@),
            fit <==> ({
                let title = tokenize::terms(self.title@).len();
                let body = tokenize::terms(self.body@).len();
                title + 100 <= 0xffff_ffff && (body == 0 || title + 100 + body - 1 <= 0xffff_ffff)
            }),
    {
        let title = tokenize::terms_of(self.title.as_str());
        let body = tokenize::terms_of(self.body.as_str());
        proof {
            assert(tokenize::terms(self.title@).len() == title@.len());
            assert(tokenize::terms(self.body@).len() == body@.len());
        }
        positions_of_counts_fit(title.len(), body.len())
    }
}

/// Every term of a title and a body with its position, title before body.
///
/// Both passes go through here, so they cannot disagree about what a document
/// contains.
fn positioned_terms<'a>(title: &'a Vec<String>, body: &'a Vec<String>, Ghost(doc): Ghost<u32>) -> (found:
    Vec<(&'a str, u32)>)
    requires
        postings::counts_fit(title@.len(), body@.len()),
    ensures
        found@.len() == postings::term_occurrences(doc, texts(title@), texts(body@)).len(),
        forall|k: int|
            0 <= k < found@.len() ==> is_occurrence(
                #[trigger] found@[k],
                postings::term_occurrences(doc, texts(title@), texts(body@))[k],
                doc,
            ),
{
    let ghost all = postings::term_occurrences(doc, texts(title@), texts(body@));
    let mut found: Vec<(&'a str, u32)> = Vec::new();
    let mut index: usize = 0;
    while index < title.len()
        invariant
            postings::counts_fit(title@.len(), body@.len()),
            all == postings::term_occurrences(doc, texts(title@), texts(body@)),
            index <= title@.len(),
            found@.len() == index,
            forall|k: int|
                0 <= k < found@.len() ==> is_occurrence(#[trigger] found@[k], all[k], doc),
        decreases title@.len() - index,
    {
        found.push((title[index].as_str(), index as u32));
        index += 1;
    }
    let body_offset: u32 = title.len() as u32 + postings::FIELD_GAP;
    index = 0;
    while index < body.len()
        invariant
            postings::counts_fit(title@.len(), body@.len()),
            all == postings::term_occurrences(doc, texts(title@), texts(body@)),
            body_offset == title@.len() + postings::FIELD_GAP,
            index <= body@.len(),
            found@.len() == title@.len() + index,
            forall|k: int|
                0 <= k < found@.len() ==> is_occurrence(#[trigger] found@[k], all[k], doc),
        decreases body@.len() - index,
    {
        proof {
            assert(all[found@.len() as int].term == body@[index as int]@);
        }
        found.push((body[index].as_str(), body_offset + index as u32));
        index += 1;
    }
    found
}

spec fn is_occurrence(found: (&str, u32), event: postings::Occurrence, doc: u32) -> bool {
    &&& found.0@ == event.term
    &&& found.1 == event.position
    &&& doc == event.doc
}

/// The counting pass.
///
/// Learns the vocabulary and how much room each term needs.
pub struct IndexBuilder {
    dictionary: FxHashMap<Box<str>, u32>,
    /// Per term: how many postings it has.
    document_frequency: Vec<u64>,
    /// Per term: how many times it occurs across the whole corpus.
    occurrences: Vec<u64>,
    /// Per term: the last document counted, so that a term appearing five times in
    /// one document still only counts once towards its document frequency.
    last_document: Vec<u32>,
    /// How many times any term occurs.
    total: u64,
    documents: u32,
    seen: Ghost<Seq<postings::Occurrence>>,
}

impl IndexBuilder {
    /// What has been counted.
    pub closed spec fn seen(self) -> Seq<postings::Occurrence> {
        self.seen@
    }

    /// How many documents have been counted.
    pub closed spec fn counted_documents(self) -> u32 {
        self.documents
    }

    /// Whether the counts are those of what has been counted.
    pub closed spec fn wf(self) -> bool {
        let words = postings::vocabulary(self.seen@);
        &&& dictionary::entries_of(self.dictionary) == postings::numbered(words)
        &&& self.document_frequency@.len() == words.len()
        &&& self.occurrences@.len() == words.len()
        &&& self.last_document@.len() == words.len()
        &&& words.len() <= u32::MAX + 1
        &&& self.total == self.seen@.len()
        &&& forall|t: int|
            0 <= t < words.len() ==> self.counts(t, postings::postings_of(
                self.seen@,
                #[trigger] words[t],
            ))
    }

    spec fn counts(self, t: int, have: Seq<postings::PostingView>) -> bool {
        &&& self.document_frequency@[t] == have.len()
        &&& self.occurrences@[t] == postings::total(have)
        &&& self.last_document@[t] == last_doc(have)
    }

    /// Whether `events` can be counted too: the number of terms fits, and so does that
    /// of their occurrences.
    pub open spec fn has_room_for(self, events: Seq<postings::Occurrence>) -> bool {
        &&& postings::vocabulary(self.seen() + events).len() <= u32::MAX + 1
        &&& self.seen().len() + events.len() <= u64::MAX
    }

    /// Whether `document` can be counted too: its positions fit, and so do its terms.
    pub open spec fn has_room(self, document: crate::corpus::DocumentView) -> bool {
        &&& postings::positions_fit(document)
        &&& self.has_room_for(postings::document_occurrences(document))
    }

    /// A builder with an empty vocabulary.
    pub fn new() -> (builder: IndexBuilder)
        ensures
            builder.wf(),
            builder.seen() == Seq::<postings::Occurrence>::empty(),
            builder.counted_documents() == 0,
    {
        IndexBuilder::with_capacity(0)
    }

    /// A builder expecting roughly `terms` distinct terms.
    pub fn with_capacity(terms: usize) -> (builder: IndexBuilder)
        requires
            terms <= usize::MAX / 256,
        ensures
            builder.wf(),
            builder.seen() == Seq::<postings::Occurrence>::empty(),
            builder.counted_documents() == 0,
    {
        let builder = IndexBuilder {
            dictionary: dictionary::with_capacity(terms),
            document_frequency: Vec::with_capacity(terms),
            occurrences: Vec::with_capacity(terms),
            last_document: Vec::with_capacity(terms),
            total: 0,
            documents: 0,
            seen: Ghost(Seq::empty()),
        };
        proof {
            assert(dictionary::entries_of(builder.dictionary) =~= postings::numbered(
                Seq::empty(),
            ));
        }
        builder
    }
}

impl Default for IndexBuilder {
    fn default() -> (builder: IndexBuilder)
        ensures
            builder.wf(),
            builder.seen() == Seq::<postings::Occurrence>::empty(),
            builder.counted_documents() == 0,
    {
        IndexBuilder::new()
    }
}

impl IndexBuilder {
    /// Whether a document with these terms can be counted too, and leaves the corpus one
    /// that an index can hold.
    pub fn can_add_terms(&self, title: &Vec<String>, body: &Vec<String>) -> (can: bool)
        requires
            self.wf(),
        ensures
            can <==> postings::counts_fit(title@.len(), body@.len()) && self.seen().len()
                + title@.len() + body@.len() <= u32::MAX,
            can <==> title@.len() + 100 <= 0xffff_ffff && (body@.len() == 0 || title@.len() + 100
                + body@.len() - 1 <= 0xffff_ffff) && self.seen().len() + title@.len() + body@.len()
                <= 0xffff_ffff,
            can ==> forall|doc: u32|
                self.has_room_for(
                    #[trigger] postings::term_occurrences(doc, texts(title@), texts(body@)),
                ),
    {
        if !positions_of_counts_fit(title.len(), body.len()) {
            return false;
        }
        let more: u64 = title.len() as u64 + body.len() as u64;
        let limit: u64 = u32::MAX as u64;
        proof {
            assert forall|doc: u32|
                self.seen().len() + title@.len() + body@.len() <= u32::MAX implies self.has_room_for(
                #[trigger] postings::term_occurrences(doc, texts(title@), texts(body@)),
            ) by {
                postings::lemma_vocabulary(
                    self.seen() + postings::term_occurrences(doc, texts(title@), texts(body@)),
                );
            }
        }
        self.total <= limit && more <= limit - self.total
    }

    /// Whether `document` can be counted too, and leaves the corpus one that an index
    /// can hold.
    pub fn can_add(&self, document: &Document) -> (can: bool)
        requires
            self.wf(),
        ensures
            can <==> postings::positions_fit(document@) && self.seen().len()
                + postings::document_occurrences(document@).len() <= u32::MAX,
            can <==> ({
                let title = tokenize::terms(document.title@).len();
                let body = tokenize::terms(document.body@).len();
                &&& title + 100 <= 0xffff_ffff
                &&& body == 0 || title + 100 + body - 1 <= 0xffff_ffff
                &&& self.seen().len() + title + body <= 0xffff_ffff
            }),
            can ==> self.has_room(document@),
    {
        let title = tokenize::terms_of(document.title.as_str());
        let body = tokenize::terms_of(document.body.as_str());
        proof {
            assert(tokenize::terms(document.title@).len() == title@.len());
            assert(tokenize::terms(document.body@).len() == body@.len());
            assert(postings::document_occurrences(document@) == postings::term_occurrences(
                document.id.0,
                texts(title@),
                texts(body@),
            ));
        }
        self.can_add_terms(&title, &body)
    }

    /// Counts one occurrence.
    fn count(&mut self, term: &str, doc: u32, Ghost(event): Ghost<postings::Occurrence>)
        requires
            old(self).wf(),
            event.term == term@,
            event.doc == doc,
            doc != NO_DOCUMENT,
            postings::vocabulary(old(self).seen().push(event)).len() <= u32::MAX + 1,
            old(self).seen().len() < u64::MAX,
        ensures
            final(self).wf(),
            final(self).seen() == old(self).seen().push(event),
            final(self).counted_documents() == old(self).counted_documents(),
    {
        let ghost before = self.seen@;
        let ghost words = postings::vocabulary(before);
        let ghost after = before.push(event);
        proof {
            assert(after.drop_last() =~= before);
            postings::lemma_vocabulary(before);
            postings::lemma_vocabulary(after);
            postings::lemma_numbered_len(words);
        }
        let number: u32 = match dictionary::get(&self.dictionary, term) {
            Some(number) => number,
            None => {
                let number: u32 = dictionary::len(&self.dictionary) as u32;
                dictionary::insert(&mut self.dictionary, term, number);
                self.document_frequency.push(0);
                self.occurrences.push(0);
                self.last_document.push(NO_DOCUMENT);
                proof {
                    postings::lemma_numbered_push(words, term@);
                }
                number
            },
        };
        let ghost now = postings::vocabulary(after);
        let ghost have = postings::postings_of(before, event.term);
        proof {
            postings::lemma_fewer_postings(before, event.term);
            postings::lemma_posted(have, event.doc, event.position);
            if words.contains(event.term) {
                postings::lemma_numbered(words, words.index_of(event.term));
            } else {
                assert(now == words.push(event.term));
                assert(have.len() == 0);
            }
            assert(now[number as int] == event.term);
            assert forall|t: int| 0 <= t < now.len() implies #[trigger] self.counts(
                t,
                postings::postings_of(before, now[t]),
            ) by {
                if t < words.len() {
                    assert(now[t] == words[t]);
                    assert(old(self).counts(t, postings::postings_of(before, words[t])));
                }
            }
            assert(self.counts(number as int, have));
        }
        let slot: usize = number as usize;
        let occurred: u64 = self.occurrences[slot];
        self.occurrences.set(slot, occurred + 1);
        if self.last_document[slot] != doc {
            self.last_document.set(slot, doc);
            let frequency: u64 = self.document_frequency[slot];
            self.document_frequency.set(slot, frequency + 1);
        }
        self.total = self.total + 1;
        self.seen = Ghost(after);
        proof {
            assert forall|t: int| 0 <= t < now.len() implies self.counts(
                t,
                postings::postings_of(after, #[trigger] now[t]),
            ) by {
                if t != number {
                    assert(now[t] != event.term);
                }
            }
        }
    }

    /// Counts one document by the terms of its title and its body.
    pub fn add_terms(&mut self, doc: DocId, title: &Vec<String>, body: &Vec<String>)
        requires
            old(self).wf(),
            postings::counts_fit(title@.len(), body@.len()),
            old(self).has_room_for(
                postings::term_occurrences(doc.0, texts(title@), texts(body@)),
            ),
            old(self).counted_documents() < u32::MAX,
            doc.0 != u32::MAX,
        ensures
            final(self).wf(),
            final(self).seen() == old(self).seen() + postings::term_occurrences(
                doc.0,
                texts(title@),
                texts(body@),
            ),
            final(self).counted_documents() == old(self).counted_documents() + 1,
    {
        let ghost before = self.seen();
        let ghost events = postings::term_occurrences(doc.0, texts(title@), texts(body@));
        let found = positioned_terms(title, body, Ghost(doc.0));
        let mut index: usize = 0;
        proof {
            assert(before + events.take(0) =~= before);
        }
        while index < found.len()
            invariant
                self.wf(),
                self.seen() == before + events.take(index as int),
                self.counted_documents() == old(self).counted_documents(),
                index <= found@.len(),
                found@.len() == events.len(),
                doc.0 != u32::MAX,
                postings::vocabulary(before + events).len() <= u32::MAX + 1,
                before.len() + events.len() <= u64::MAX,
                forall|k: int|
                    0 <= k < found@.len() ==> is_occurrence(#[trigger] found@[k], events[k], doc.0),
            decreases found@.len() - index,
        {
            let ghost event = events[index as int];
            proof {
                assert(is_occurrence(found@[index as int], event, doc.0));
                assert((before + events.take(index as int)).push(event) =~= before + events.take(
                    index + 1,
                ));
                assert(before + events =~= (before + events.take(index + 1)) + events.skip(
                    index + 1,
                ));
                postings::lemma_vocabulary_grows(
                    before + events.take(index + 1),
                    events.skip(index + 1),
                );
            }
            self.count(found[index].0, doc.get(), Ghost(event));
            index += 1;
        }
        proof {
            assert(events.take(index as int) =~= events);
        }
        self.documents = self.documents + 1;
    }

    /// Counts one document. Call once per document, in corpus order.
    pub fn add_document(&mut self, document: &Document)
        requires
            old(self).wf(),
            old(self).has_room(document@),
            old(self).counted_documents() < u32::MAX,
            document.id.0 != u32::MAX,
        ensures
            final(self).wf(),
            final(self).seen() == old(self).seen() + postings::document_occurrences(document@),
            final(self).counted_documents() == old(self).counted_documents() + 1,
    {
        let title = tokenize::terms_of(document.title.as_str());
        let body = tokenize::terms_of(document.body.as_str());
        proof {
            assert(tokenize::terms(document.title@).len() == title@.len());
            assert(tokenize::terms(document.body@).len() == body@.len());
        }
        self.add_terms(document.id, &title, &body);
    }

    /// How many distinct terms have been seen so far.
    pub fn terms(&self) -> (count: usize)
        requires
            self.wf(),
        ensures
            count == postings::vocabulary(self.seen()).len(),
    {
        proof {
            postings::lemma_vocabulary(self.seen@);
            postings::lemma_numbered_len(postings::vocabulary(self.seen@));
        }
        dictionary::len(&self.dictionary)
    }
}

impl IndexBuilder {
    /// Turns the counts into starting offsets and hands back the filling pass.
    ///
    /// This is the prefix sum: `[3, 1, 4]` occurrences per term becomes
    /// `[0, 3, 4, 8]`. Every slice boundary in the finished index is one of these
    /// numbers. Offsets are `u32`, and so [`Error::IndexTooLarge`] comes of a corpus
    /// with more than `u32::MAX` occurrences.
    pub fn finish_counting(self) -> (assembler: Result<IndexAssembler, Error>)
        requires
            self.wf(),
        ensures
            match assembler {
                Ok(assembler) => {
                    &&& self.seen().len() <= u32::MAX
                    &&& assembler.wf()
                    &&& assembler.expected() == self.seen()
                    &&& assembler.seen() == Seq::<postings::Occurrence>::empty()
                    &&& assembler.filled_documents() == 0
                    &&& assembler.expected_documents() == self.counted_documents()
                },
                Err(error) => self.seen().len() > u32::MAX && error == Error::IndexTooLarge,
            },
    {
        let ghost events = self.seen@;
        let ghost words = postings::vocabulary(events);
        proof {
            postings::lemma_vocabulary(events);
            postings::lemma_all_occurrences(events);
        }
        let terms: usize = self.document_frequency.len();
        let mut term_postings_start: Vec<u32> = Vec::new();
        let mut term_positions_start: Vec<u32> = Vec::new();
        let mut posting_cursor: Vec<u32> = Vec::new();
        let mut position_cursor: Vec<u32> = Vec::new();
        let mut last_document: Vec<u32> = Vec::new();
        let mut postings_total: u64 = 0;
        let mut positions_total: u64 = 0;
        let limit: u64 = u32::MAX as u64;
        let mut slot: usize = 0;
        while slot < terms
            invariant
                self.wf(),
                events == self.seen@,
                words == postings::vocabulary(events),
                terms == words.len(),
                self.document_frequency@.len() == terms,
                self.occurrences@.len() == terms,
                limit == u32::MAX,
                slot <= terms,
                postings_total == postings::postings_before(events, words, slot as int),
                positions_total == postings::positions_before(events, words, slot as int),
                positions_total <= events.len(),
                postings::positions_before(events, words, words.len() as int) == events.len(),
                events.len() <= u64::MAX,
                term_postings_start@.len() == slot,
                term_positions_start@.len() == slot,
                posting_cursor@ == term_postings_start@,
                position_cursor@ == term_positions_start@,
                last_document@ == Seq::new(slot as nat, |t: int| NO_DOCUMENT),
                forall|t: int|
                    0 <= t < slot ==> #[trigger] term_postings_start@[t]
                        == postings::postings_before(events, words, t),
                forall|t: int|
                    0 <= t < slot ==> #[trigger] term_positions_start@[t]
                        == postings::positions_before(events, words, t),
            decreases terms - slot,
        {
            proof {
                postings::lemma_before_grows(events, words, slot as int, words.len() as int);
                postings::lemma_before_grows(events, words, slot as int, slot as int);
                assert(self.counts(
                    slot as int,
                    postings::postings_of(events, words[slot as int]),
                ));
                postings::lemma_fewer_postings(events, words[slot as int]);
            }
            if postings_total > limit || positions_total > limit {
                return Err(Error::IndexTooLarge);
            }
            term_postings_start.push(postings_total as u32);
            term_positions_start.push(positions_total as u32);
            posting_cursor.push(postings_total as u32);
            position_cursor.push(positions_total as u32);
            last_document.push(NO_DOCUMENT);
            proof {
                assert(last_document@ =~= Seq::new((slot + 1) as nat, |t: int| NO_DOCUMENT));
            }
            postings_total = postings_total + self.document_frequency[slot];
            positions_total = positions_total + self.occurrences[slot];
            slot += 1;
        }
        proof {
            postings::lemma_before_grows(events, words, words.len() as int, words.len() as int);
        }
        if postings_total > limit || positions_total > limit {
            return Err(Error::IndexTooLarge);
        }
        term_postings_start.push(postings_total as u32);
        term_positions_start.push(positions_total as u32);
        let postings_count: usize = postings_total as usize;
        let positions_count: usize = positions_total as usize;
        let mut posting_positions_start: Vec<u32> = vec![0u32; postings_count];
        // One more for the sentinel, so the last posting's positions have an end to
        // point at.
        posting_positions_start.push(0);
        let assembler = IndexAssembler {
            dictionary: self.dictionary,
            term_postings_start,
            term_positions_start,
            posting_docs: vec![DocId(0); postings_count],
            posting_positions_start,
            positions: vec![0u32; positions_count],
            posting_cursor,
            position_cursor,
            last_document,
            documents: self.documents,
            unexpected_terms: 0,
            displaced: 0,
            filled: 0,
            filled_documents: Ghost(0),
            expected: Ghost(events),
            seen: Ghost(Seq::empty()),
        };
        proof {
            reveal(IndexAssembler::wf);
            let none = Seq::<postings::Occurrence>::empty();
            assert forall|t: int| 0 <= t < words.len() implies assembler.holds(
                t,
                postings::postings_of(none, #[trigger] words[t]),
            ) by {
                assert(assembler.last_document@[t] == NO_DOCUMENT);
            }
            assert(assembler.wf());
        }
        Ok(assembler)
    }
}

/// The filling pass.
///
/// Writes postings and positions into arrays already sized by the counting pass. What
/// has no place there, the counting pass never saw.
pub struct IndexAssembler {
    dictionary: FxHashMap<Box<str>, u32>,
    term_postings_start: Vec<u32>,
    /// Per term: where its positions start, plus a sentinel.
    term_positions_start: Vec<u32>,
    posting_docs: Vec<DocId>,
    posting_positions_start: Vec<u32>,
    positions: Vec<u32>,
    /// Per term: the next posting slot to write.
    posting_cursor: Vec<u32>,
    /// Per term: the next position slot to write.
    position_cursor: Vec<u32>,
    /// Per term: the document the cursor is currently inside.
    last_document: Vec<u32>,
    documents: u32,
    /// Occurrences seen in the second pass of terms that the first pass never saw, which
    /// can only mean the corpus changed in between.
    unexpected_terms: u64,
    /// Occurrences for which no room was counted, those of unknown terms among them.
    displaced: u64,
    /// How many documents this pass has seen, as far as that can be counted.
    filled: u64,
    filled_documents: Ghost<nat>,
    expected: Ghost<Seq<postings::Occurrence>>,
    seen: Ghost<Seq<postings::Occurrence>>,
}

impl IndexAssembler {
    /// What the counting pass saw.
    pub closed spec fn expected(self) -> Seq<postings::Occurrence> {
        self.expected@
    }

    /// What this pass has seen.
    pub closed spec fn seen(self) -> Seq<postings::Occurrence> {
        self.seen@
    }

    /// How many documents the counting pass saw.
    pub closed spec fn expected_documents(self) -> u32 {
        self.documents
    }

    /// How many documents this pass has seen.
    pub closed spec fn filled_documents(self) -> nat {
        self.filled_documents@
    }

    /// Whether the arrays have the room that was counted and hold what was placed.
    #[verifier::opaque]
    pub closed spec fn wf(self) -> bool {
        let events = self.expected@;
        let words = postings::vocabulary(events);
        let n = words.len() as int;
        let placed = postings::placed(events, self.seen@);
        &&& dictionary::entries_of(self.dictionary) == postings::numbered(words)
        &&& events.len() <= u32::MAX
        &&& self.term_postings_start@.len() == n + 1
        &&& self.term_positions_start@.len() == n + 1
        &&& forall|t: int|
            0 <= t <= n ==> #[trigger] self.term_postings_start@[t] == postings::postings_before(
                events,
                words,
                t,
            )
        &&& forall|t: int|
            0 <= t <= n ==> #[trigger] self.term_positions_start@[t] == postings::positions_before(
                events,
                words,
                t,
            )
        &&& self.posting_docs@.len() == postings::postings_before(events, words, n)
        &&& self.posting_positions_start@.len() == self.posting_docs@.len() + 1
        &&& self.positions@.len() == postings::positions_before(events, words, n)
        &&& self.posting_cursor@.len() == n
        &&& self.position_cursor@.len() == n
        &&& self.last_document@.len() == n
        &&& self.unexpected_terms == postings::unknown(events, self.seen@)
        &&& self.displaced == self.seen@.len() - placed.len()
        &&& self.filled == (if self.filled_documents@ <= u64::MAX {
            self.filled_documents@
        } else {
            u64::MAX as nat
        })
        &&& forall|t: int|
            0 <= t < n ==> self.holds(t, postings::postings_of(placed, #[trigger] words[t]))
    }

    /// Whether term `t` has the postings `have` written.
    spec fn holds(self, t: int, have: Seq<postings::PostingView>) -> bool {
        let first = self.term_postings_start@[t] as int;
        let begin = self.term_positions_start@[t] as int;
        &&& first + have.len() <= self.term_postings_start@[t + 1]
        &&& begin + postings::total(have) <= self.term_positions_start@[t + 1]
        &&& self.posting_cursor@[t] == first + have.len()
        &&& self.position_cursor@[t] == begin + postings::total(have)
        &&& self.last_document@[t] == last_doc(have)
        &&& postings::written(
            self.posting_docs@,
            self.posting_positions_start@,
            self.positions@,
            first,
            begin,
            have,
        )
    }
}

impl IndexAssembler {
    /// Writes one occurrence to its place, or counts it as displaced where it has none,
    /// and as unexpected where its term is unknown.
    fn place(
        &mut self,
        term: &str,
        doc: DocId,
        position: u32,
        Ghost(event): Ghost<postings::Occurrence>,
    )
        requires
            old(self).wf(),
            event == (postings::Occurrence { term: term@, doc: doc.0, position }),
            doc.0 != NO_DOCUMENT,
            old(self).seen().len() < u64::MAX,
        ensures
            final(self).wf(),
            final(self).expected() == old(self).expected(),
            final(self).expected_documents() == old(self).expected_documents(),
            final(self).seen() == old(self).seen().push(event),
            final(self).filled_documents() == old(self).filled_documents(),
    {
        let ghost events = self.expected@;
        let ghost words = postings::vocabulary(events);
        let ghost n = words.len() as int;
        let ghost before = self.seen@;
        let ghost now = before.push(event);
        let ghost placed = postings::placed(events, before);
        let ghost have = postings::postings_of(placed, event.term);
        let ghost want = postings::postings_of(events, event.term);
        proof {
            reveal(IndexAssembler::wf);
            assert(now.drop_last() =~= before);
            assert(placed.push(event).drop_last() =~= placed);
            postings::lemma_vocabulary(events);
            postings::lemma_placed(events, before, event.term);
            postings::lemma_posted(have, event.doc, event.position);
        }
        self.seen = Ghost(now);
        match dictionary::get(&self.dictionary, term) {
            None => {
                proof {
                    assert(want.len() == 0);
                    postings::lemma_fewer_postings(events, event.term);
                    postings::lemma_unknown(events, before);
                }
                self.unexpected_terms = self.unexpected_terms + 1;
                self.displaced = self.displaced + 1;
            },
            Some(number) => {
                let ghost t = number as int;
                proof {
                    assert(words.contains(event.term));
                    assert(words[t] == event.term);
                    old(self).lemma_room(t);
                }
                let slot: usize = number as usize;
                let next_position: u32 = self.position_cursor[slot];
                let next_posting: u32 = self.posting_cursor[slot];
                let begins: bool = self.last_document[slot] != doc.0;
                if next_position >= self.term_positions_start[slot + 1] || (begins && next_posting
                    >= self.term_postings_start[slot + 1]) {
                    self.displaced = self.displaced + 1;
                } else {
                    proof {
                        assert(postings::has_place(events, placed, event));
                    }
                    if begins {
                        self.last_document.set(slot, doc.0);
                        self.posting_cursor.set(slot, next_posting + 1);
                        self.posting_docs.set(next_posting as usize, doc);
                        // This posting's positions begin wherever the term's cursor
                        // has reached, which is where the previous posting stopped.
                        self.posting_positions_start.set(next_posting as usize, next_position);
                    }
                    self.positions.set(next_position as usize, position);
                    self.position_cursor.set(slot, next_position + 1);
                    proof {
                        self.lemma_placed_one(*old(self), event, t);
                    }
                }
            },
        }
    }

    /// Whether one occurrence of term `t` was written behind what `was` written.
    spec fn wrote(self, was: IndexAssembler, event: postings::Occurrence, t: int) -> bool {
        &&& self.expected == was.expected
        &&& self.seen@ == was.seen@.push(event)
        &&& self.dictionary == was.dictionary
        &&& self.term_postings_start == was.term_postings_start
        &&& self.term_positions_start == was.term_positions_start
        &&& self.documents == was.documents
        &&& self.unexpected_terms == was.unexpected_terms
        &&& self.displaced == was.displaced
        &&& self.filled == was.filled
        &&& self.filled_documents == was.filled_documents
        &&& self.position_cursor@ == was.position_cursor@.update(
            t,
            (was.position_cursor@[t] + 1) as u32,
        )
        &&& self.positions@ == was.positions@.update(
            was.position_cursor@[t] as int,
            event.position,
        )
        &&& was.last_document@[t] == event.doc ==> {
            &&& self.last_document == was.last_document
            &&& self.posting_cursor == was.posting_cursor
            &&& self.posting_docs == was.posting_docs
            &&& self.posting_positions_start == was.posting_positions_start
        }
        &&& was.last_document@[t] != event.doc ==> {
            &&& self.last_document@ == was.last_document@.update(t, event.doc)
            &&& self.posting_cursor@ == was.posting_cursor@.update(
                t,
                (was.posting_cursor@[t] + 1) as u32,
            )
            &&& self.posting_docs@ == was.posting_docs@.update(
                was.posting_cursor@[t] as int,
                DocId(event.doc),
            )
            &&& self.posting_positions_start@ == was.posting_positions_start@.update(
                was.posting_cursor@[t] as int,
                was.position_cursor@[t],
            )
        }
    }

    /// Where term `u` keeps its postings and positions.
    proof fn lemma_room(self, u: int)
        requires
            self.wf(),
            0 <= u < postings::vocabulary(self.expected@).len(),
        ensures
            ({
                let events = self.expected@;
                let words = postings::vocabulary(events);
                let want = postings::postings_of(events, words[u]);
                &&& self.term_postings_start@[u + 1] == self.term_postings_start@[u] + want.len()
                &&& self.term_positions_start@[u + 1] == self.term_positions_start@[u]
                    + postings::total(want)
                &&& self.term_postings_start@[u + 1] <= self.posting_docs@.len()
                &&& self.term_positions_start@[u + 1] <= self.positions@.len()
                &&& self.holds(
                    u,
                    postings::postings_of(postings::placed(events, self.seen@), words[u]),
                )
            }),
    {
        reveal(IndexAssembler::wf);
        let events = self.expected@;
        let words = postings::vocabulary(events);
        let n = words.len() as int;
        postings::lemma_before_grows(events, words, u + 1, n);
        assert(self.term_postings_start@[u] == postings::postings_before(events, words, u));
        assert(self.term_postings_start@[u + 1] == postings::postings_before(events, words, u + 1));
        assert(self.term_positions_start@[u] == postings::positions_before(events, words, u));
        assert(self.term_positions_start@[u + 1] == postings::positions_before(
            events,
            words,
            u + 1,
        ));
        assert(words[u] == words[u]);
    }

    /// Later terms keep theirs behind those of earlier ones.
    proof fn lemma_rooms_apart(self, u: int, v: int)
        requires
            self.wf(),
            0 <= u < v < postings::vocabulary(self.expected@).len(),
        ensures
            self.term_postings_start@[u + 1] <= self.term_postings_start@[v],
            self.term_positions_start@[u + 1] <= self.term_positions_start@[v],
    {
        reveal(IndexAssembler::wf);
        let events = self.expected@;
        let words = postings::vocabulary(events);
        postings::lemma_before_grows(events, words, u + 1, v);
        assert(self.term_postings_start@[u + 1] == postings::postings_before(events, words, u + 1));
        assert(self.term_positions_start@[u + 1] == postings::positions_before(
            events,
            words,
            u + 1,
        ));
        assert(self.term_postings_start@[v] == postings::postings_before(events, words, v));
        assert(self.term_positions_start@[v] == postings::positions_before(events, words, v));
    }

    /// The term written to has its postings with that occurrence.
    proof fn lemma_wrote_own(
        self,
        was: IndexAssembler,
        event: postings::Occurrence,
        t: int,
        have: Seq<postings::PostingView>,
        want: Seq<postings::PostingView>,
    )
        requires
            self.wrote(was, event, t),
            was.holds(t, have),
            event.doc != NO_DOCUMENT,
            0 <= t < was.posting_cursor@.len(),
            was.position_cursor@.len() == was.posting_cursor@.len(),
            was.last_document@.len() == was.posting_cursor@.len(),
            was.posting_positions_start@.len() == was.posting_docs@.len() + 1,
            was.term_postings_start@[t + 1] == was.term_postings_start@[t] + want.len(),
            was.term_positions_start@[t + 1] == was.term_positions_start@[t] + postings::total(
                want,
            ),
            was.term_postings_start@[t + 1] <= was.posting_docs@.len(),
            was.term_positions_start@[t + 1] <= was.positions@.len(),
            postings::total(have) < postings::total(want),
            postings::posted(have, event.doc, event.position).len() <= want.len(),
        ensures
            self.holds(t, postings::posted(have, event.doc, event.position)),
    {
        postings::lemma_posted(have, event.doc, event.position);
        postings::lemma_written_posted(
            was.posting_docs@,
            was.posting_positions_start@,
            was.positions@,
            self.posting_docs@,
            self.posting_positions_start@,
            self.positions@,
            was.term_postings_start@[t] as int,
            was.term_positions_start@[t] as int,
            have,
            event.doc,
            event.position,
        );
    }

    /// Another term keeps its postings.
    proof fn lemma_wrote_other(
        self,
        was: IndexAssembler,
        event: postings::Occurrence,
        t: int,
        u: int,
        list: Seq<postings::PostingView>,
    )
        requires
            self.wrote(was, event, t),
            was.holds(u, list),
            u != t,
            0 <= t < was.posting_cursor@.len(),
            0 <= u < was.posting_cursor@.len(),
            was.position_cursor@.len() == was.posting_cursor@.len(),
            was.last_document@.len() == was.posting_cursor@.len(),
            was.posting_positions_start@.len() == was.posting_docs@.len() + 1,
            was.term_positions_start@[u + 1] <= was.positions@.len(),
            was.term_postings_start@[u + 1] <= was.posting_docs@.len(),
            was.term_positions_start@[t + 1] <= was.positions@.len(),
            was.term_postings_start@[t + 1] <= was.posting_docs@.len(),
            was.term_postings_start@[t] <= was.posting_cursor@[t],
            was.term_positions_start@[t] <= was.position_cursor@[t] < was.term_positions_start@[t
                + 1],
            was.last_document@[t] != event.doc ==> was.posting_cursor@[t]
                < was.term_postings_start@[t + 1],
            u < t ==> was.term_postings_start@[u + 1] <= was.term_postings_start@[t]
                && was.term_positions_start@[u + 1] <= was.term_positions_start@[t],
            t < u ==> was.term_postings_start@[t + 1] <= was.term_postings_start@[u]
                && was.term_positions_start@[t + 1] <= was.term_positions_start@[u],
        ensures
            self.holds(u, list),
    {
        postings::lemma_written_elsewhere(
            was.posting_docs@,
            was.posting_positions_start@,
            was.positions@,
            self.posting_docs@,
            self.posting_positions_start@,
            self.positions@,
            was.term_postings_start@[u] as int,
            was.term_positions_start@[u] as int,
            list,
        );
    }

    /// After one occurrence of term `t` was written to its place, every term still has
    /// its postings written.
    proof fn lemma_placed_one(self, was: IndexAssembler, event: postings::Occurrence, t: int)
        requires
            was.wf(),
            self.wrote(was, event, t),
            0 <= t < postings::vocabulary(was.expected@).len(),
            postings::vocabulary(was.expected@)[t] == event.term,
            event.doc != NO_DOCUMENT,
            postings::has_place(
                was.expected@,
                postings::placed(was.expected@, was.seen@),
                event,
            ),
        ensures
            self.wf(),
    {
        reveal(IndexAssembler::wf);
        let events = was.expected@;
        let words = postings::vocabulary(events);
        let n = words.len() as int;
        let before = postings::placed(events, was.seen@);
        let after = before.push(event);
        let have = postings::postings_of(before, event.term);
        assert(self.seen@.drop_last() =~= was.seen@);
        assert(postings::placed(events, self.seen@) =~= after);
        assert(after.drop_last() =~= before);
        postings::lemma_vocabulary(events);
        postings::lemma_posted(have, event.doc, event.position);
        was.lemma_room(t);
        assert forall|u: int| 0 <= u < n implies self.holds(
            u,
            postings::postings_of(after, #[trigger] words[u]),
        ) by {
            if u == t {
                self.lemma_wrote_own(
                    was,
                    event,
                    t,
                    have,
                    postings::postings_of(events, event.term),
                );
            } else {
                assert(words[u] != event.term);
                was.lemma_room(u);
                if u < t {
                    was.lemma_rooms_apart(u, t);
                } else {
                    was.lemma_rooms_apart(t, u);
                }
                self.lemma_wrote_other(
                    was,
                    event,
                    t,
                    u,
                    postings::postings_of(before, words[u]),
                );
            }
        }
    }

    /// Fills in one document by the terms of its title and its body.
    pub fn add_terms(&mut self, doc: DocId, title: &Vec<String>, body: &Vec<String>)
        requires
            old(self).wf(),
            postings::counts_fit(title@.len(), body@.len()),
            doc.0 != u32::MAX,
            old(self).seen().len() + title@.len() + body@.len() <= u64::MAX,
        ensures
            final(self).wf(),
            final(self).expected() == old(self).expected(),
            final(self).expected_documents() == old(self).expected_documents(),
            final(self).seen() == old(self).seen() + postings::term_occurrences(
                doc.0,
                texts(title@),
                texts(body@),
            ),
            final(self).filled_documents() == old(self).filled_documents() + 1,
    {
        let ghost before = self.seen();
        let ghost events = postings::term_occurrences(doc.0, texts(title@), texts(body@));
        let found = positioned_terms(title, body, Ghost(doc.0));
        let mut index: usize = 0;
        proof {
            assert(before + events.take(0) =~= before);
        }
        while index < found.len()
            invariant
                self.wf(),
                self.expected() == old(self).expected(),
                self.expected_documents() == old(self).expected_documents(),
                self.filled_documents() == old(self).filled_documents(),
                self.seen() == before + events.take(index as int),
                index <= found@.len(),
                found@.len() == events.len(),
                doc.0 != u32::MAX,
                before.len() + events.len() <= u64::MAX,
                forall|k: int|
                    0 <= k < found@.len() ==> is_occurrence(#[trigger] found@[k], events[k], doc.0),
            decreases found@.len() - index,
        {
            let ghost event = events[index as int];
            proof {
                assert(is_occurrence(found@[index as int], event, doc.0));
                assert((before + events.take(index as int)).push(event) =~= before + events.take(
                    index + 1,
                ));
            }
            self.place(found[index].0, doc, found[index].1, Ghost(event));
            index += 1;
        }
        proof {
            assert(events.take(index as int) =~= events);
        }
        self.close_document();
    }

    /// Counts a document whose terms are all placed.
    fn close_document(&mut self)
        requires
            old(self).wf(),
        ensures
            final(self).wf(),
            final(self).expected() == old(self).expected(),
            final(self).expected_documents() == old(self).expected_documents(),
            final(self).seen() == old(self).seen(),
            final(self).filled_documents() == old(self).filled_documents() + 1,
    {
        proof {
            reveal(IndexAssembler::wf);
        }
        if self.filled < u64::MAX {
            self.filled = self.filled + 1;
        }
        self.filled_documents = Ghost((self.filled_documents@ + 1) as nat);
        proof {
            let words = postings::vocabulary(self.expected@);
            let placed = postings::placed(self.expected@, self.seen@);
            assert forall|t: int| 0 <= t < words.len() implies self.holds(
                t,
                postings::postings_of(placed, #[trigger] words[t]),
            ) by {
                assert(old(self).holds(t, postings::postings_of(placed, words[t])));
            }
        }
    }

    /// Fills in one document. Call with the same documents, in the same order, as the
    /// counting pass.
    pub fn add_document(&mut self, document: &Document)
        requires
            old(self).wf(),
            postings::positions_fit(document@),
            document.id.0 != u32::MAX,
            old(self).seen().len() + postings::document_occurrences(document@).len() <= u64::MAX,
        ensures
            final(self).wf(),
            final(self).expected() == old(self).expected(),
            final(self).expected_documents() == old(self).expected_documents(),
            final(self).seen() == old(self).seen() + postings::document_occurrences(document@),
            final(self).filled_documents() == old(self).filled_documents() + 1,
    {
        let title = tokenize::terms_of(document.title.as_str());
        let body = tokenize::terms_of(document.body.as_str());
        proof {
            assert(tokenize::terms(document.title@).len() == title@.len());
            assert(tokenize::terms(document.body@).len() == body@.len());
        }
        self.add_terms(document.id, &title, &body);
    }

    /// Whether the cursors of term `slot` have reached the ends of its room.
    fn is_term_full(&self, slot: usize) -> (full: bool)
        requires
            self.wf(),
            slot < postings::vocabulary(self.expected@).len(),
        ensures
            full == ({
                let term = postings::vocabulary(self.expected@)[slot as int];
                let want = postings::postings_of(self.expected@, term);
                let have = postings::postings_of(
                    postings::placed(self.expected@, self.seen@),
                    term,
                );
                want.len() == have.len() && postings::total(want) == postings::total(have)
            }),
    {
        let ghost terms = self.posting_cursor.len();
        proof {
            reveal(IndexAssembler::wf);
            self.lemma_room(slot as int);
        }
        self.posting_cursor[slot] == self.term_postings_start[slot + 1]
            && self.position_cursor[slot] == self.term_positions_start[slot + 1]
    }

    /// Whether everything that was counted has been filled in.
    fn is_full(&self) -> (full: bool)
        requires
            self.wf(),
            postings::placed(self.expected@, self.seen@) == self.seen@,
        ensures
            full == postings::same_counts(self.expected@, self.seen@),
    {
        let ghost events = self.expected@;
        let ghost seen = self.seen@;
        let ghost words = postings::vocabulary(events);
        let terms: usize = self.posting_cursor.len();
        let mut slot: usize = 0;
        proof {
            assert(terms == words.len()) by {
                reveal(IndexAssembler::wf);
            }
        }
        while slot < terms
            invariant
                self.wf(),
                events == self.expected@,
                seen == self.seen@,
                postings::placed(events, seen) == seen,
                words == postings::vocabulary(events),
                terms == words.len(),
                slot <= terms,
                forall|t: int|
                    0 <= t < slot ==> postings::postings_of(events, #[trigger] words[t]).len()
                        == postings::postings_of(seen, words[t]).len() && postings::total(
                        postings::postings_of(events, words[t]),
                    ) == postings::total(postings::postings_of(seen, words[t])),
            decreases terms - slot,
        {
            if !self.is_term_full(slot) {
                return false;
            }
            slot += 1;
        }
        proof {
            postings::lemma_vocabulary(events);
            assert forall|term: Seq<char>|
                #![trigger postings::postings_of(events, term)]
                #![trigger postings::postings_of(seen, term)]
                postings::postings_of(events, term).len() == postings::postings_of(
                    seen,
                    term,
                ).len() && postings::total(postings::postings_of(events, term))
                    == postings::total(postings::postings_of(seen, term)) by {
                if words.contains(term) {
                    let t = words.index_of(term);
                    assert(words[t] == term);
                } else {
                    assert(postings::postings_of(events, term).len() == 0);
                    postings::lemma_fewer_postings(events, term);
                    postings::lemma_placed(events, seen, term);
                }
            }
        }
        true
    }

    /// Seals the index, where this pass saw as many documents as the counting pass did and
    /// every term as often; otherwise the corpus changed between the passes.
    pub fn finish(self) -> (index: Result<Index, Error>)
        requires
            self.wf(),
        ensures
            match index {
                Ok(index) => {
                    &&& postings::same_counts(self.expected(), self.seen())
                    &&& self.filled_documents() == self.expected_documents()
                    &&& index@.consistent()
                    &&& postings::indexes(
                        index@,
                        self.expected(),
                        self.seen(),
                        self.expected_documents(),
                    )
                },
                Err(error) => {
                    &&& !postings::same_counts(self.expected(), self.seen())
                        || self.filled_documents() != self.expected_documents()
                    &&& error == (Error::CorpusChanged {
                        unexpected_terms: postings::unknown(
                            self.expected(),
                            self.seen(),
                        ) as u64,
                    })
                },
            },
    {
        let ghost events = self.expected@;
        let ghost seen = self.seen@;
        let ghost words = postings::vocabulary(events);
        let ghost n = words.len() as int;
        let ghost placed = postings::placed(events, seen);
        proof {
            reveal(IndexAssembler::wf);
            postings::lemma_vocabulary(events);
            postings::lemma_all_occurrences(events);
            if postings::same_counts(events, seen) {
                assert(seen + Seq::<postings::Occurrence>::empty() =~= seen);
                postings::lemma_same_counts_all_placed(events, seen, Seq::empty());
            }
        }
        if self.filled != self.documents as u64 || self.displaced > 0 {
            return Err(Error::CorpusChanged { unexpected_terms: self.unexpected_terms });
        }
        proof {
            postings::lemma_placed(events, seen, Seq::empty());
            assert(placed == seen);
        }
        if !self.is_full() {
            return Err(Error::CorpusChanged { unexpected_terms: self.unexpected_terms });
        }
        proof {
            assert(postings::same_counts(events, seen));
            postings::lemma_before_same(events, seen, words, n);
            assert forall|t: int| 0 <= t < n implies postings::written(
                self.posting_docs@,
                self.posting_positions_start@,
                self.positions@,
                postings::postings_before(seen, words, t) as int,
                postings::positions_before(seen, words, t) as int,
                postings::postings_of(seen, #[trigger] words[t]),
            ) by {
                postings::lemma_before_same(events, seen, words, t);
                assert(self.holds(t, postings::postings_of(placed, words[t])));
                assert(self.term_postings_start@[t] == postings::postings_before(
                    events,
                    words,
                    t,
                ));
                assert(self.term_positions_start@[t] == postings::positions_before(
                    events,
                    words,
                    t,
                ));
            }
        }
        // The sentinel: the last posting's positions end where the array does.
        let postings_count: usize = self.posting_docs.len();
        let positions_count: u32 = self.positions.len() as u32;
        let mut posting_positions_start = self.posting_positions_start;
        let ghost starts = posting_positions_start@;
        posting_positions_start.set(postings_count, positions_count);
        proof {
            let view = postings::IndexView {
                dictionary: dictionary::entries_of(self.dictionary),
                term_postings_start: self.term_postings_start@,
                posting_docs: self.posting_docs@,
                posting_positions_start: posting_positions_start@,
                positions: self.positions@,
                documents: self.documents,
            };
            assert forall|t: int| 0 <= t < n implies postings::written(
                view.posting_docs,
                view.posting_positions_start,
                view.positions,
                postings::postings_before(seen, words, t) as int,
                postings::positions_before(seen, words, t) as int,
                postings::postings_of(seen, #[trigger] words[t]),
            ) by {
                let list = postings::postings_of(seen, words[t]);
                postings::lemma_before_grows(seen, words, t, n);
                postings::lemma_written_elsewhere(
                    view.posting_docs,
                    starts,
                    view.positions,
                    view.posting_docs,
                    view.posting_positions_start,
                    view.positions,
                    postings::postings_before(seen, words, t) as int,
                    postings::positions_before(seen, words, t) as int,
                    list,
                );
            }
            assert forall|t: int| 0 <= t < n implies postings::postings_of(
                seen,
                #[trigger] words[t],
            ).len() > 0 by {
                assert(words.contains(words[t]));
                assert(postings::postings_of(events, words[t]).len() > 0);
            }
            assert forall|t: int| 0 <= t <= n implies #[trigger] view.term_postings_start[t]
                == postings::postings_before(seen, words, t) by {
                postings::lemma_before_same(events, seen, words, t);
            }
            assert(postings::all_written(view, seen, words));
            postings::lemma_assembled(view, seen, words);
            assert(view.positions.len() == seen.len()) by {
                lemma_same_counts_same_length(events, seen);
            }
        }
        Ok(
            Index {
                dictionary: self.dictionary,
                term_postings_start: self.term_postings_start,
                posting_docs: self.posting_docs,
                posting_positions_start,
                positions: self.positions,
                documents: self.documents,
            },
        )
    }
}

/// Runs of events with the same counts are equally long.
proof fn lemma_same_counts_same_length(
    one: Seq<postings::Occurrence>,
    other: Seq<postings::Occurrence>,
)
    requires
        postings::same_counts(one, other),
    ensures
        one.len() == other.len(),
{
    let words = postings::vocabulary(one);
    let n = words.len() as int;
    postings::lemma_vocabulary(one);
    postings::lemma_all_occurrences(one);
    postings::lemma_before_same(one, other, words, n);
    assert forall|k: int| 0 <= k < other.len() implies words.contains(
        (#[trigger] other[k]).term,
    ) by {
        postings::lemma_event_is_posted(other, k);
        assert(postings::postings_of(one, other[k].term).len() > 0);
    }
    postings::lemma_sum_is_length(other, words);
}

/// A finished positional inverted index.
#[derive(Debug)]
pub struct Index {
    dictionary: FxHashMap<Box<str>, u32>,
    term_postings_start: Vec<u32>,
    posting_docs: Vec<DocId>,
    posting_positions_start: Vec<u32>,
    positions: Vec<u32>,
    documents: u32,
}

impl View for Index {
    type V = postings::IndexView;

    closed spec fn view(&self) -> postings::IndexView {
        postings::IndexView {
            dictionary: dictionary::entries_of(self.dictionary),
            term_postings_start: self.term_postings_start@,
            posting_docs: self.posting_docs@,
            posting_positions_start: self.posting_positions_start@,
            positions: self.positions@,
            documents: self.documents,
        }
    }
}

impl Index {
    #[verifier::type_invariant]
    spec fn arrays_fit_together(self) -> bool {
        self@.consistent()
    }
}

impl Index {
    /// An index of the given parts, which fit together.
    pub(crate) fn from_parts(
        dictionary: FxHashMap<Box<str>, u32>,
        term_postings_start: Vec<u32>,
        posting_docs: Vec<DocId>,
        posting_positions_start: Vec<u32>,
        positions: Vec<u32>,
        documents: u32,
    ) -> (index: Index)
        requires
            (postings::IndexView {
                dictionary: dictionary::entries_of(dictionary),
                term_postings_start: term_postings_start@,
                posting_docs: posting_docs@,
                posting_positions_start: posting_positions_start@,
                positions: positions@,
                documents,
            }).consistent(),
        ensures
            index@ == (postings::IndexView {
                dictionary: dictionary::entries_of(dictionary),
                term_postings_start: term_postings_start@,
                posting_docs: posting_docs@,
                posting_positions_start: posting_positions_start@,
                positions: positions@,
                documents,
            }),
    {
        Index {
            dictionary,
            term_postings_start,
            posting_docs,
            posting_positions_start,
            positions,
            documents,
        }
    }

    /// The parts of the index but for its dictionary.
    pub(crate) fn parts(&self) -> (parts: (&Vec<u32>, &Vec<DocId>, &Vec<u32>, &Vec<u32>))
        ensures
            self@.consistent(),
            parts.0@ == self@.term_postings_start,
            parts.1@ == self@.posting_docs,
            parts.2@ == self@.posting_positions_start,
            parts.3@ == self@.positions,
    {
        proof {
            use_type_invariant(self);
        }
        (
            &self.term_postings_start,
            &self.posting_docs,
            &self.posting_positions_start,
            &self.positions,
        )
    }

    /// Looks a term up by its normalized text. The index does not normalize on lookup.
    pub fn term_id(&self, term: &str) -> (id: Option<TermId>)
        ensures
            id == (if self@.dictionary.contains_key(term@) {
                Some(TermId(self@.dictionary[term@]))
            } else {
                None
            }),
    {
        match dictionary::get(&self.dictionary, term) {
            Some(number) => Some(TermId(number)),
            None => None,
        }
    }

    /// How many documents were indexed.
    pub fn documents(&self) -> (count: usize)
        ensures
            count == self@.documents,
    {
        self.documents as usize
    }

    /// How many distinct terms the index holds.
    pub fn terms(&self) -> (count: usize)
        ensures
            count == self@.dictionary.dom().len(),
    {
        dictionary::len(&self.dictionary)
    }

    /// The documents containing `term`, a contiguous slice: nothing where the index
    /// has no such term.
    pub fn doc_ids(&self, term: TermId) -> (docs: &[DocId])
        ensures
            docs@.len() == self@.postings(term.0 as int).len(),
            forall|i: int|
                0 <= i < docs@.len() ==> (#[trigger] docs@[i]).0 == self@.postings(
                    term.0 as int,
                )[i].doc,
    {
        proof {
            use_type_invariant(self);
        }
        let slot: usize = term.as_usize();
        if slot >= self.term_postings_start.len() - 1 {
            return vstd::slice::slice_subrange(self.posting_docs.as_slice(), 0, 0);
        }
        let start: usize = self.term_postings_start[slot] as usize;
        let end: usize = self.term_postings_start[slot + 1] as usize;
        vstd::slice::slice_subrange(self.posting_docs.as_slice(), start, end)
    }

    /// In how many documents `term` occurs.
    pub fn document_frequency(&self, term: TermId) -> (count: usize)
        ensures
            count == self@.postings(term.0 as int).len(),
    {
        self.doc_ids(term).len()
    }

    /// The positions of `term` in the `nth` document that contains it. `nth` lines up
    /// with [`Index::doc_ids`]; past its end there are none.
    pub fn positions(&self, term: TermId, nth: usize) -> (positions: &[u32])
        ensures
            positions@ == (if nth < self@.postings(term.0 as int).len() {
                self@.postings(term.0 as int)[nth as int].positions
            } else {
                seq![]
            }),
    {
        proof {
            use_type_invariant(self);
        }
        let slot: usize = term.as_usize();
        if slot >= self.term_postings_start.len() - 1 {
            let nothing = vstd::slice::slice_subrange(self.positions.as_slice(), 0, 0);
            proof {
                assert(nothing@ =~= seq![]);
            }
            return nothing;
        }
        let start: usize = self.term_postings_start[slot] as usize;
        let end: usize = self.term_postings_start[slot + 1] as usize;
        if nth >= end - start {
            let nothing = vstd::slice::slice_subrange(self.positions.as_slice(), 0, 0);
            proof {
                assert(nothing@ =~= seq![]);
            }
            return nothing;
        }
        let posting: usize = start + nth;
        let from: usize = self.posting_positions_start[posting] as usize;
        let to: usize = self.posting_positions_start[posting + 1] as usize;
        vstd::slice::slice_subrange(self.positions.as_slice(), from, to)
    }

    /// Every posting for `term`.
    pub fn postings(&self, term: TermId) -> (list: Postings<'_>)
        ensures
            list.all() == self@.postings(term.0 as int),
            list.given() == 0,
    {
        Postings { index: self, term, next: 0, count: self.document_frequency(term) }
    }

    /// Every posting for a term given by its normalized text.
    pub fn postings_for(&self, term: &str) -> (list: Option<Postings<'_>>)
        ensures
            match list {
                Some(list) => {
                    &&& self@.dictionary.contains_key(term@)
                    &&& list.all() == self@.postings(self@.dictionary[term@] as int)
                    &&& list.given() == 0
                },
                None => !self@.dictionary.contains_key(term@),
            },
    {
        match self.term_id(term) {
            Some(id) => Some(self.postings(id)),
            None => None,
        }
    }

    /// Every term in the index, with its identifier, in arbitrary order.
    pub fn vocabulary(&self) -> (terms: Vec<(&str, TermId)>)
        ensures
            dictionary::lists(
                terms@.map_values(|entry: (&str, TermId)| (entry.0@, entry.1.0)),
                self@.dictionary,
            ),
    {
        let entries = dictionary::entries(&self.dictionary);
        let ghost listed = entries@.map_values(|entry: (&str, u32)| (entry.0@, entry.1));
        let mut terms: Vec<(&str, TermId)> = Vec::with_capacity(entries.len());
        let mut index: usize = 0;
        while index < entries.len()
            invariant
                index <= entries@.len(),
                terms@.len() == index,
                forall|k: int|
                    0 <= k < index ==> (#[trigger] terms@[k]).0 == entries@[k].0
                        && terms@[k].1.0 == entries@[k].1,
            decreases entries@.len() - index,
        {
            terms.push((entries[index].0, TermId(entries[index].1)));
            index += 1;
        }
        proof {
            assert(terms@.map_values(|entry: (&str, TermId)| (entry.0@, entry.1.0)) =~= listed);
        }
        terms
    }

    /// What the index holds and roughly what it costs: four bytes for each entry of an
    /// array, and the dictionary's bytes. `None` where those do not fit a `usize`.
    pub fn try_stats(&self) -> (stats: Option<IndexStats>)
        ensures
            stats is Some <==> index_bytes(self@) <= usize::MAX,
            stats matches Some(stats) ==> stats.sums_up(self@),
    {
        let entries = dictionary::entries(&self.dictionary);
        let ghost listed = entries@.map_values(|entry: (&str, u32)| (entry.0@, entry.1));
        proof {
            dictionary::lemma_dictionary_bytes(listed, self@.dictionary);
            assert(listed.take(0) =~= Seq::<(Seq<char>, u32)>::empty());
        }
        let limit: u128 = usize::MAX as u128;
        let pointer: usize = core::mem::size_of::<Box<str>>();
        let arrays: u128 = 4 * (self.term_postings_start.len() as u128 + self.posting_docs.len()
            as u128 + self.posting_positions_start.len() as u128 + self.positions.len() as u128);
        let mut bytes: u128 = arrays;
        let mut index: usize = 0;
        while index < entries.len()
            invariant
                index <= entries@.len(),
                listed == entries@.map_values(|entry: (&str, u32)| (entry.0@, entry.1)),
                limit == usize::MAX,
                pointer == vstd::layout::size_of::<Box<str>>(),
                bytes == arrays + dictionary::bytes_of_list(listed.take(index as int)),
                bytes <= 20 * limit,
                index_bytes(self@) == arrays + dictionary::bytes_of_list(listed),
            decreases entries@.len() - index,
        {
            proof {
                lemma_bytes_grow(listed, index as int);
                assert(listed.take(index + 1).drop_last() =~= listed.take(index as int));
                assert(listed.take(index + 1).last() == listed[index as int]);
            }
            if bytes > limit {
                return None;
            }
            bytes = bytes + (text::length_of(entries[index].0) as u128 + pointer as u128 + 5);
            index += 1;
        }
        proof {
            assert(listed.take(index as int) =~= listed);
        }
        if bytes > limit {
            return None;
        }
        Some(
            IndexStats {
                documents: self.documents(),
                terms: self.terms(),
                postings: self.posting_docs.len(),
                positions: self.positions.len(),
                bytes: bytes as usize,
            },
        )
    }

    /// What the index holds and roughly what it costs: four bytes for each entry of an
    /// array, and the dictionary's bytes.
    pub fn stats(&self) -> (stats: IndexStats)
        requires
            index_bytes(self@) <= usize::MAX,
        ensures
            stats.sums_up(self@),
    {
        self.try_stats().unwrap()
    }
}

impl IndexStats {
    /// Whether this is the summary of `index`.
    pub open spec fn sums_up(self, index: postings::IndexView) -> bool {
        &&& self.documents == index.documents
        &&& self.terms == index.dictionary.dom().len()
        &&& self.postings == index.posting_docs.len()
        &&& self.positions == index.positions.len()
        &&& self.bytes == index_bytes(index)
    }
}

proof fn lemma_bytes_grow(list: Seq<(Seq<char>, u32)>, k: int)
    requires
        0 <= k <= list.len(),
    ensures
        dictionary::bytes_of_list(list.take(k)) <= dictionary::bytes_of_list(list),
    decreases list.len() - k,
{
    if k < list.len() {
        lemma_bytes_grow(list, k + 1);
        assert(list.take(k + 1).drop_last() =~= list.take(k));
    } else {
        assert(list.take(k) =~= list);
    }
}

/// Roughly how many bytes an index holds.
pub open spec fn index_bytes(index: postings::IndexView) -> nat {
    4 * index.term_postings_start.len() + 4 * index.posting_docs.len() + 4
        * index.posting_positions_start.len() + 4 * index.positions.len()
        + dictionary::dictionary_bytes(index.dictionary)
}

/// A summary of an index's contents and cost.
#[derive(Debug, Clone, Copy, PartialEq, Eq)]
pub struct IndexStats {
    /// Documents indexed.
    pub documents: usize,
    /// Distinct terms.
    pub terms: usize,
    /// (term, document) pairs.
    pub postings: usize,
    /// Individual term occurrences.
    pub positions: usize,
    /// Approximate heap bytes held by the index.
    pub bytes: usize,
}

/// One term's occurrences within one document.
#[derive(Debug, Clone, Copy, PartialEq, Eq)]
pub struct Posting<'a> {
    /// The document containing the term.
    pub doc_id: DocId,
    /// Every position the term occurs at.
    pub positions: &'a [u32],
}

impl<'a> View for Posting<'a> {
    type V = postings::PostingView;

    open spec fn view(&self) -> postings::PostingView {
        postings::PostingView { doc: self.doc_id.0, positions: self.positions@ }
    }
}

impl<'a> Posting<'a> {
    /// How many times the term occurs in this document.
    pub fn frequency(&self) -> (count: usize)
        ensures
            count == self@.positions.len(),
    {
        self.positions.len()
    }
}

/// One term's postings, one at a time.
#[derive(Debug)]
pub struct Postings<'a> {
    index: &'a Index,
    term: TermId,
    next: usize,
    count: usize,
}

impl<'a> Clone for Postings<'a> {
    fn clone(&self) -> (copy: Self)
        ensures
            copy == *self,
    {
        proof {
            use_type_invariant(self);
        }
        Postings { index: self.index, term: self.term, next: self.next, count: self.count }
    }
}

impl<'a> Postings<'a> {
    #[verifier::type_invariant]
    spec fn in_range(self) -> bool {
        &&& self.next <= self.count
        &&& self.count == self.all().len()
    }

    /// All of the term's postings.
    pub closed spec fn all(self) -> Seq<postings::PostingView> {
        self.index@.postings(self.term.0 as int)
    }

    /// How many of them have been handed out.
    pub closed spec fn given(self) -> int {
        self.next as int
    }

    /// The next posting, or `None` after the last.
    pub fn next(&mut self) -> (posting: Option<Posting<'a>>)
        ensures
            final(self).all() == old(self).all(),
            0 <= old(self).given() <= old(self).all().len(),
            match posting {
                Some(posting) => {
                    &&& old(self).given() < old(self).all().len()
                    &&& posting@ == old(self).all()[old(self).given()]
                    &&& final(self).given() == old(self).given() + 1
                },
                None => {
                    &&& old(self).given() == old(self).all().len()
                    &&& final(self).given() == old(self).given()
                },
            },
    {
        proof {
            use_type_invariant(&*self);
        }
        if self.next >= self.count {
            return None;
        }
        let nth: usize = self.next;
        self.next = nth + 1;
        Some(
            Posting {
                doc_id: self.index.doc_ids(self.term)[nth],
                positions: self.index.positions(self.term, nth),
            },
        )
    }

    /// How many postings are to come, from below and from above.
    pub fn size_hint(&self) -> (bounds: (usize, Option<usize>))
        ensures
            bounds.0 == self.all().len() - self.given(),
            bounds.1 == Some(bounds.0),
    {
        proof {
            use_type_invariant(self);
        }
        let remaining: usize = self.count - self.next;
        (remaining, Some(remaining))
    }

    /// How many postings are to come.
    pub fn len(&self) -> (count: usize)
        ensures
            count == self.all().len() - self.given(),
    {
        proof {
            use_type_invariant(self);
        }
        self.count - self.next
    }

    /// The postings to come.
    pub fn collect(self) -> (list: Vec<Posting<'a>>)
        ensures
            list@.map_values(|posting: Posting<'a>| posting@) == self.all().skip(self.given()),
    {
        proof {
            use_type_invariant(&self);
        }
        let ghost all = self.all();
        let ghost begin = self.given();
        let mut rest = self;
        let mut list: Vec<Posting<'a>> = Vec::new();
        loop
            invariant
                all == self.all(),
                begin == self.given(),
                rest.all() == all,
                0 <= begin,
                rest.given() == begin + list@.len(),
                rest.given() <= all.len(),
                forall|k: int|
                    0 <= k < list@.len() ==> (#[trigger] list@[k])@ == all[begin + k],
            decreases all.len() - rest.given(),
        {
            match rest.next() {
                Some(posting) => {
                    list.push(posting);
                },
                None => {
                    proof {
                        assert(list@.map_values(|posting: Posting<'a>| posting@) =~= all.skip(
                            begin,
                        ));
                    }
                    return list;
                },
            }
        }
    }
}

/// What the documents of a pass hold, none of them having failed.
pub open spec fn views(items: Seq<Result<Document, Error>>) -> Seq<crate::corpus::DocumentView> {
    items.map_values(|item: Result<Document, Error>| item->Ok_0@)
}

/// The first document of a pass that failed, and how, if any did.
pub open spec fn first_failure(items: Seq<Result<Document, Error>>) -> Option<Error>
    decreases items.len(),
{
    if items.len() == 0 {
        None
    } else {
        match items[0] {
            Err(error) => Some(error),
            Ok(_) => first_failure(items.drop_first()),
        }
    }
}

proof fn lemma_first_failure(items: Seq<Result<Document, Error>>, k: int)
    requires
        0 <= k <= items.len(),
        forall|i: int| 0 <= i < k ==> (#[trigger] items[i]) is Ok,
    ensures
        first_failure(items) == first_failure(items.skip(k)),
    decreases k,
{
    if k == 0 {
        assert(items.skip(0) =~= items);
    } else {
        lemma_first_failure(items, k - 1);
        assert(items.skip(k - 1)[0] == items[k - 1]);
        assert(items.skip(k - 1).drop_first() =~= items.skip(k));
    }
}

/// The documents of a pass, or the first failure among them.
fn unfailing(items: Vec<Result<Document, Error>>) -> (passed: Result<
    Vec<Result<Document, Error>>,
    Error,
>)
    ensures
        match first_failure(items@) {
            Some(error) => passed == Err::<Vec<Result<Document, Error>>, Error>(error),
            None => {
                &&& passed is Ok
                &&& passed->Ok_0@ == items@
                &&& forall|i: int| 0 <= i < items@.len() ==> (#[trigger] items@[i]) is Ok
            },
        },
{
    let mut index: usize = 0;
    while index < items.len()
        invariant
            index <= items@.len(),
            forall|i: int| 0 <= i < index ==> (#[trigger] items@[i]) is Ok,
        decreases items@.len() - index,
    {
        if items[index].is_err() {
            proof {
                lemma_first_failure(items@, index as int);
                assert(items@.skip(index as int)[0] == items@[index as int]);
            }
            let mut rest = items;
            return match rest.swap_remove(index) {
                Err(error) => Err(error),
                Ok(_) => Ok(rest),
            };
        }
        index += 1;
    }
    proof {
        lemma_first_failure(items@, index as int);
        assert(items@.skip(index as int) =~= Seq::empty());
    }
    Ok(items)
}

/// The counting pass over documents none of which failed.
fn count_all(items: &Vec<Result<Document, Error>>) -> (assembler: Result<IndexAssembler, Error>)
    requires
        items@.len() <= u32::MAX,
        forall|i: int|
            0 <= i < items@.len() ==> (#[trigger] items@[i]) is Ok && items@[i]->Ok_0.id.0
                != u32::MAX,
    ensures
        ({
            let counted = postings::corpus_occurrences(views(items@));
            if !all_fit(views(items@)) || counted.len() > u32::MAX {
                assembler == Err::<IndexAssembler, Error>(Error::IndexTooLarge)
            } else {
                &&& assembler is Ok
                &&& assembler->Ok_0.wf()
                &&& assembler->Ok_0.expected() == counted
                &&& assembler->Ok_0.expected_documents() == items@.len()
                &&& assembler->Ok_0.seen() == Seq::<postings::Occurrence>::empty()
                &&& assembler->Ok_0.filled_documents() == 0
            }
        }),
{
    let ghost all = views(items@);
    let mut builder = IndexBuilder::new();
    let mut index: usize = 0;
    proof {
        assert(all.take(0) =~= Seq::empty());
    }
    while index < items.len()
        invariant
            all == views(items@),
            items@.len() <= u32::MAX,
            forall|i: int|
                0 <= i < items@.len() ==> (#[trigger] items@[i]) is Ok && items@[i]->Ok_0.id.0
                    != u32::MAX,
            index <= items@.len(),
            builder.wf(),
            builder.counted_documents() == index,
            builder.seen() == postings::corpus_occurrences(all.take(index as int)),
            forall|i: int| 0 <= i < index ==> postings::positions_fit(#[trigger] all[i]),
        decreases items@.len() - index,
    {
        proof {
            lemma_next_document(all, index as int);
            assert(all[index as int] == items@[index as int]->Ok_0@);
        }
        if let Ok(document) = &items[index] {
            if !builder.can_add(document) {
                proof {
                    assert(!all_fit(all) || postings::corpus_occurrences(all).len() > u32::MAX);
                }
                return Err(Error::IndexTooLarge);
            }
            builder.add_document(document);
        }
        index += 1;
    }
    proof {
        assert(all.take(index as int) =~= all);
    }
    builder.finish_counting()
}

/// Whether two lists hold the same terms.
fn same_terms(one: &Vec<String>, other: &Vec<String>) -> (same: bool)
    ensures
        same == (texts(one@) == texts(other@)),
{
    if one.len() != other.len() {
        proof {
            assert(texts(one@).len() != texts(other@).len());
        }
        return false;
    }
    let mut index: usize = 0;
    while index < one.len()
        invariant
            one@.len() == other@.len(),
            index <= one@.len(),
            forall|i: int| 0 <= i < index ==> (#[trigger] one@[i])@ == other@[i]@,
        decreases one@.len() - index,
    {
        if !text::same_text(one[index].as_str(), other[index].as_str()) {
            proof {
                assert(texts(one@)[index as int] != texts(other@)[index as int]);
            }
            return false;
        }
        index += 1;
    }
    proof {
        assert(texts(one@) =~= texts(other@));
    }
    true
}

/// Whether two documents are the same to a pass.
fn is_same_to_a_pass(one: &Document, other: &Document) -> (same: bool)
    ensures
        same == same_to_a_pass(one@, other@),
{
    one.id.get() == other.id.get() && same_terms(
        &tokenize::terms_of(one.title.as_str()),
        &tokenize::terms_of(other.title.as_str()),
    ) && same_terms(
        &tokenize::terms_of(one.body.as_str()),
        &tokenize::terms_of(other.body.as_str()),
    )
}

/// Whether two passes agree, none of whose documents failed.
fn do_agree(one: &Vec<Result<Document, Error>>, other: &Vec<Result<Document, Error>>) -> (same:
    bool)
    requires
        forall|i: int| 0 <= i < one@.len() ==> (#[trigger] one@[i]) is Ok,
        forall|i: int| 0 <= i < other@.len() ==> (#[trigger] other@[i]) is Ok,
    ensures
        same == agree(views(one@), views(other@)),
{
    if one.len() != other.len() {
        return false;
    }
    let mut index: usize = 0;
    while index < one.len()
        invariant
            one@.len() == other@.len(),
            forall|i: int| 0 <= i < one@.len() ==> (#[trigger] one@[i]) is Ok,
            forall|i: int| 0 <= i < other@.len() ==> (#[trigger] other@[i]) is Ok,
            index <= one@.len(),
            forall|i: int|
                0 <= i < index ==> same_to_a_pass(#[trigger] views(one@)[i], views(other@)[i]),
        decreases one@.len() - index,
    {
        if let (Ok(a), Ok(b)) = (&one[index], &other[index]) {
            proof {
                assert(views(one@)[index as int] == a@);
                assert(views(other@)[index as int] == b@);
            }
            if !is_same_to_a_pass(a, b) {
                return false;
            }
        }
        index += 1;
    }
    true
}

/// Passes that agree see the same.
proof fn lemma_agreeing_passes(
    one: Seq<crate::corpus::DocumentView>,
    other: Seq<crate::corpus::DocumentView>,
)
    requires
        agree(one, other),
    ensures
        postings::corpus_occurrences(one) == postings::corpus_occurrences(other),
    decreases one.len(),
{
    if one.len() > 0 {
        let a = one.drop_last();
        let b = other.drop_last();
        assert forall|i: int| 0 <= i < a.len() implies same_to_a_pass(#[trigger] a[i], b[i]) by {
            assert(same_to_a_pass(one[i], other[i]));
        }
        lemma_agreeing_passes(a, b);
        assert(same_to_a_pass(one[one.len() - 1], other[one.len() - 1]));
    }
}

/// The filling pass over documents none of which failed, behind a counting pass over
/// `first`.
fn fill_all(
    assembler: IndexAssembler,
    first: &Vec<Result<Document, Error>>,
    items: &Vec<Result<Document, Error>>,
) -> (index: Result<Index, Error>)
    requires
        assembler.wf(),
        assembler.seen() == Seq::<postings::Occurrence>::empty(),
        assembler.filled_documents() == 0,
        assembler.expected() == postings::corpus_occurrences(views(first@)),
        assembler.expected_documents() == first@.len(),
        forall|i: int| 0 <= i < first@.len() ==> (#[trigger] first@[i]) is Ok,
        items@.len() <= u32::MAX,
        forall|i: int|
            0 <= i < items@.len() ==> (#[trigger] items@[i]) is Ok && items@[i]->Ok_0.id.0
                != u32::MAX,
    ensures
        filled(index, views(first@), views(items@)),
{
    let ghost all = views(items@);
    let mut filling = assembler;
    let mut index: usize = 0;
    proof {
        assert(all.take(0) =~= Seq::empty());
    }
    while index < items.len()
        invariant
            all == views(items@),
            items@.len() <= u32::MAX,
            forall|i: int|
                0 <= i < items@.len() ==> (#[trigger] items@[i]) is Ok && items@[i]->Ok_0.id.0
                    != u32::MAX,
            index <= items@.len(),
            filling.wf(),
            filling.expected() == assembler.expected(),
            filling.expected_documents() == assembler.expected_documents(),
            filling.filled_documents() == index,
            filling.seen() == postings::corpus_occurrences(all.take(index as int)),
            filling.seen().len() <= index * u32::MAX,
            forall|i: int| 0 <= i < index ==> postings::positions_fit(#[trigger] all[i]),
        decreases items@.len() - index,
    {
        proof {
            lemma_next_document(all, index as int);
            assert(all[index as int] == items@[index as int]->Ok_0@);
        }
        if let Ok(document) = &items[index] {
            if !document.positions_fit() {
                return Err(Error::IndexTooLarge);
            }
            proof {
                assert(index * u32::MAX + u32::MAX == (index + 1) * u32::MAX) by (nonlinear_arith);
                assert((index + 1) * u32::MAX <= u64::MAX) by (nonlinear_arith)
                    requires
                        index + 1 <= u32::MAX,
                ;
            }
            filling.add_document(document);
        }
        index += 1;
    }
    proof {
        assert(all.take(index as int) =~= all);
    }
    if !do_agree(first, items) {
        proof {
            reveal(IndexAssembler::wf);
        }
        return Err(Error::CorpusChanged { unexpected_terms: filling.unexpected_terms });
    }
    proof {
        lemma_agreeing_passes(views(first@), all);
    }
    filling.finish()
}

/// Whether the positions of all documents fit.
pub open spec fn all_fit(documents: Seq<crate::corpus::DocumentView>) -> bool {
    forall|i: int| 0 <= i < documents.len() ==> postings::positions_fit(#[trigger] documents[i])
}

/// The occurrences of the documents up to one more.
proof fn lemma_next_document(documents: Seq<crate::corpus::DocumentView>, k: int)
    requires
        0 <= k < documents.len(),
    ensures
        postings::corpus_occurrences(documents.take(k + 1)) == postings::corpus_occurrences(
            documents.take(k),
        ) + postings::document_occurrences(documents[k]),
        postings::corpus_occurrences(documents.take(k + 1)).len() <= postings::corpus_occurrences(
            documents,
        ).len(),
    decreases documents.len() - k,
{
    assert(documents.take(k + 1).drop_last() =~= documents.take(k));
    if k + 1 < documents.len() {
        lemma_next_document(documents, k + 1);
    } else {
        assert(documents.take(k + 1) =~= documents);
    }
}

/// Whether two documents are the same to a pass: they have the same id, and the same
/// terms in title and body.
pub open spec fn same_to_a_pass(
    one: crate::corpus::DocumentView,
    other: crate::corpus::DocumentView,
) -> bool {
    &&& one.id == other.id
    &&& tokenize::terms(one.title) == tokenize::terms(other.title)
    &&& tokenize::terms(one.body) == tokenize::terms(other.body)
}

/// Whether two passes agree: they gave the same documents in the same order.
pub open spec fn agree(
    one: Seq<crate::corpus::DocumentView>,
    other: Seq<crate::corpus::DocumentView>,
) -> bool {
    &&& one.len() == other.len()
    &&& forall|i: int| 0 <= i < one.len() ==> same_to_a_pass(#[trigger] one[i], other[i])
}

/// What comes of filling an index from the documents of a second pass, those of the
/// first having been counted: [`Error::IndexTooLarge`] where positions do not fit, the
/// index where the passes agree, and [`Error::CorpusChanged`] elsewhere.
pub open spec fn filled(
    index: Result<Index, Error>,
    first: Seq<crate::corpus::DocumentView>,
    second: Seq<crate::corpus::DocumentView>,
) -> bool {
    let counted = postings::corpus_occurrences(first);
    let seen = postings::corpus_occurrences(second);
    if !all_fit(second) {
        index == Err::<Index, Error>(Error::IndexTooLarge)
    } else if agree(first, second) {
        &&& index is Ok
        &&& index->Ok_0@.consistent()
        &&& seen == counted
        &&& postings::indexes(index->Ok_0@, counted, seen, first.len() as u32)
    } else {
        index == Err::<Index, Error>(
            Error::CorpusChanged { unexpected_terms: postings::unknown(counted, seen) as u64 },
        )
    }
}

/// Whether the documents of a pass are such that they can be told apart and counted.
pub open spec fn countable(pass: Result<Vec<Result<Document, Error>>, Error>) -> bool {
    pass matches Ok(items) ==> items@.len() <= u32::MAX && forall|i: int|
        0 <= i < items@.len() && (#[trigger] items@[i]) is Ok ==> items@[i]->Ok_0.id.0 != u32::MAX
}

/// What comes of two passes over a corpus: the first failure of either, or what comes of
/// counting the documents of the one and filling an index from those of the other.
pub open spec fn built(
    index: Result<Index, Error>,
    counting: Result<Vec<Result<Document, Error>>, Error>,
    filling: Result<Vec<Result<Document, Error>>, Error>,
) -> bool {
    match counting {
        Err(error) => index == Err::<Index, Error>(error),
        Ok(first) => match first_failure(first@) {
            Some(error) => index == Err::<Index, Error>(error),
            None => {
                let counted = postings::corpus_occurrences(views(first@));
                if !all_fit(views(first@)) || counted.len() > u32::MAX {
                    index == Err::<Index, Error>(Error::IndexTooLarge)
                } else {
                    match filling {
                        Err(error) => index == Err::<Index, Error>(error),
                        Ok(second) => match first_failure(second@) {
                            Some(error) => index == Err::<Index, Error>(error),
                            None => filled(index, views(first@), views(second@)),
                        },
                    }
                }
            },
        },
    }
}

/// Builds an index from what two passes over a corpus gave.
///
/// The first failure is handed on: that the corpus could not be opened, or that one of
/// its documents could not be had, in the counting pass before the filling pass.
/// [`Error::IndexTooLarge`] comes of documents that offsets of 32 bits cannot address,
/// and [`Error::CorpusChanged`] of passes that disagree: they gave another number of
/// documents, or somewhere one with another id or with other terms.
pub fn build(
    counting: Result<Vec<Result<Document, Error>>, Error>,
    filling: Result<Vec<Result<Document, Error>>, Error>,
) -> (index: Result<Index, Error>)
    requires
        countable(counting),
        countable(filling),
    ensures
        built(index, counting, filling),
{
    let first = match counting {
        Ok(items) => match unfailing(items) {
            Ok(items) => items,
            Err(error) => {
                return Err(error);
            },
        },
        Err(error) => {
            return Err(error);
        },
    };
    let assembler = match count_all(&first) {
        Ok(assembler) => assembler,
        Err(error) => {
            return Err(error);
        },
    };
    let second = match filling {
        Ok(items) => match unfailing(items) {
            Ok(items) => items,
            Err(error) => {
                return Err(error);
            },
        },
        Err(error) => {
            return Err(error);
        },
    };
    fill_all(assembler, &first, &second)
}

spec fn last_doc(have: Seq<postings::PostingView>) -> u32 {
    if have.len() == 0 {
        NO_DOCUMENT
    } else {
        have.last().doc
    }
}

} // verus!
