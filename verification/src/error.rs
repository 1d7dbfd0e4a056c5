//! The library's error type.
//!
//! One enum for everything that can go wrong, so that a caller can tell a user's
//! mistake from a broken file by matching, not by reading a message.

use crate::text;
use serde_json::Error as JsonError;
use std::io::Error as IoError;
use vstd::prelude::*;
use vstd::string::*;

verus! {

/// `std::io::Error`, carried along as the cause of [`Error::Io`] and never looked
/// into.
#[verifier::external_type_specification]
#[verifier::external_body]
pub struct ExIoError(IoError);

/// `serde_json::Error`, carried along as the cause of [`Error::MalformedRecord`] and
/// never looked into.
#[verifier::external_type_specification]
#[verifier::external_body]
pub struct ExJsonError(JsonError);

/// Anything that can go wrong inside the engine.
#[derive(Debug)]
#[non_exhaustive]
#[allow(inconsistent_fields)]
pub enum Error {
    /// An I/O operation failed.
    Io {
        /// The file that was being read or written.
        path: String,
        /// The underlying operating-system error.
        source: IoError,
    },
    /// A query could not be lexed.
    Query {
        /// Byte offset into the query string where the trouble starts.
        offset: usize,
        /// How many bytes of the query the problem covers.
        length: usize,
        /// What was found, and what was wanted instead.
        message: String,
    },
    /// An index file was truncated, corrupt, or written by another version.
    IndexFormat(String),
    /// A line in the corpus was not valid JSON, or was missing a field the engine
    /// requires.
    MalformedRecord {
        /// The corpus file.
        path: String,
        /// One-based line number of the offending record.
        line: usize,
        /// What the JSON reader objected to.
        source: JsonError,
    },
    /// The corpus holds more documents than a document id can address.
    CorpusTooLarge,
    /// The index needs more postings or positions than a `u32` offset can address.
    IndexTooLarge,
    /// The corpus changed between the counting pass and the filling pass.
    CorpusChanged {
        /// How many occurrences of unknown terms the filling pass met.
        unexpected_terms: u64,
    },
    /// A feature that is yet to come.
    NotImplemented(&'static str),
}

impl Error {
    /// What the error says to a person, its cause left out.
    pub open spec fn message(self) -> Seq<char> {
        match self {
            Error::Io { path, .. } => "i/o error on "@ + path@,
            Error::Query { offset, message, .. } => "invalid query at byte "@ + text::decimal(
                offset as nat,
            ) + ": "@ + message@,
            Error::IndexFormat(detail) => "invalid index: "@ + detail@,
            Error::MalformedRecord { path, line, .. } => path@ + ":"@ + text::decimal(line as nat)
                + ": malformed record"@,
            Error::CorpusTooLarge =>
                "corpus exceeds 4294967295 documents, the most a u32 document id can address"@,
            Error::IndexTooLarge => "index exceeds 4294967295 postings or positions"@,
            Error::CorpusChanged { unexpected_terms } => "corpus changed between passes: "@
                + text::decimal(unexpected_terms as nat)
                + " term occurrence(s) the counting pass never saw"@,
            Error::NotImplemented(feature) => feature@ + " is not implemented yet"@,
        }
    }

    /// Attaches a path to an I/O error, which on its own never says which file.
    pub fn io(path: String, source: IoError) -> (error: Error)
        ensures
            error == (Error::Io { path, source }),
    {
        Error::Io { path, source }
    }

    /// What the error says to a person, its cause left out.
    pub fn to_string(&self) -> (said: String)
        ensures
            said@ == self.message(),
    {
        let mut said = String::new();
        match self {
            Error::Io { path, .. } => {
                said.append("i/o error on ");
                said.append(path.as_str());
            },
            Error::Query { offset, message, .. } => {
                said.append("invalid query at byte ");
                text::push_decimal(&mut said, *offset as u64);
                said.append(": ");
                said.append(message.as_str());
            },
            Error::IndexFormat(detail) => {
                said.append("invalid index: ");
                said.append(detail.as_str());
            },
            Error::MalformedRecord { path, line, .. } => {
                said.append(path.as_str());
                said.append(":");
                text::push_decimal(&mut said, *line as u64);
                said.append(": malformed record");
            },
            Error::CorpusTooLarge => {
                said.append(
                    "corpus exceeds 4294967295 documents, the most a u32 document id can address",
                );
            },
            Error::IndexTooLarge => {
                said.append("index exceeds 4294967295 postings or positions");
            },
            Error::CorpusChanged { unexpected_terms } => {
                said.append("corpus changed between passes: ");
                text::push_decimal(&mut said, *unexpected_terms);
                said.append(" term occurrence(s) the counting pass never saw");
            },
            Error::NotImplemented(feature) => {
                said.append(feature);
                said.append(" is not implemented yet");
            },
        }
        proof {
            assert(said@ =~= self.message());
        }
        said
    }
}

/// What an error says names what it is about: the file, the file and the line, the byte of
/// the query and what is wrong there, what is wrong with the index, how many terms were not
/// expected, or what is yet to come.
pub proof fn a_message_names_what_it_is_about(error: Error)
    ensures
        match error {
            Error::Io { path, .. } => error.message().skip(13) == path@,
            Error::Query { offset, message, .. } => error.message().skip(22) == text::decimal(
                offset as nat,
            ) + seq![':', ' '] + message@,
            Error::IndexFormat(detail) => error.message().skip(15) == detail@,
            Error::MalformedRecord { path, line, .. } => (path@ + seq![':'] + text::decimal(
                line as nat,
            )).is_prefix_of(error.message()),
            Error::CorpusChanged { unexpected_terms } => text::decimal(
                unexpected_terms as nat,
            ).is_prefix_of(error.message().skip(31)),
            Error::NotImplemented(feature) => feature@.is_prefix_of(error.message()),
            _ => true,
        },
{
    reveal_strlit("i/o error on ");
    reveal_strlit("invalid query at byte ");
    reveal_strlit(": ");
    reveal_strlit(":");
    reveal_strlit("invalid index: ");
    reveal_strlit("corpus changed between passes: ");
    match error {
        Error::Io { path, .. } => {
            assert(error.message().skip(13) =~= path@);
        },
        Error::Query { offset, message, .. } => {
            assert(error.message().skip(22) =~= text::decimal(offset as nat) + seq![':', ' ']
                + message@);
        },
        Error::IndexFormat(detail) => {
            assert(error.message().skip(15) =~= detail@);
        },
        Error::MalformedRecord { path, line, .. } => {
            assert(":"@ =~= seq![':']);
        },
        _ => {},
    }
}

} // verus!
