//! A Boolean and proximity search engine over a text corpus.
//!
//! ```text
//! build time:   corpus --> tokenize --> index --> index file
//! query time:   query  --> lexemes
//! ```
//!
//! [`corpus`] hands out dense document ids. [`mod@tokenize`] splits text into positioned
//! terms. [`index`] inverts that into a map from terms to postings, where a posting is a
//! document plus every position the term occurs at. [`mod@format`] and [`reading`] turn
//! an index into the bytes of a file and back. [`query`] lexes the query language.
//!
//! What each function returns is stated over mathematical models: characters and where
//! they sit in bytes ([`text`]), words between white space ([`whitespace`]), tokens
//! ([`mod@tokenize`]), occurrences and postings ([`postings`]), numbers and strings as
//! bytes ([`codec`]). What holds of several of them together is stated and proved by
//! public proof functions: in [`agreement`] that an index answers as reading every
//! document would, in [`capacity`] what can be indexed and saved and where every term is
//! then found, in [`roundtrip`] that reading a file gives back what was written, in
//! [`splitting`] which characters make up tokens and words, in [`asking`] what a query asks
//! for, in [`relexing`] what comes of lexing queries put together, or shown again.

pub mod agreement;
pub mod asking;
pub mod capacity;
pub mod codec;
pub mod corpus;
pub mod dictionary;
pub mod error;
pub mod format;
pub mod index;
pub mod ordering;
pub mod postings;
pub mod query;
pub mod reading;
pub mod relexing;
pub mod report;
pub mod roundtrip;
pub mod splitting;
pub mod text;
pub mod tokenize;
pub mod whitespace;

pub use crate::corpus::{
    ArxivRecord, DocId, DocMeta, DocStore, Document, JsonlCorpus, LineAction, ParsedLine,
    ParsedLines,
};
pub use crate::error::Error;
pub use crate::format::SearchIndex;
pub use crate::index::{
    build, Index, IndexAssembler, IndexBuilder, IndexStats, Posting, Postings, TermId,
};
pub use crate::postings::FIELD_GAP;
pub use crate::query::{lex, point_at, Lexeme, LexemeKind, Span};
pub use crate::tokenize::{tokenize, Token, Tokens};
pub use crate::whitespace::normalize_whitespace;
