//! Locale-aware parsing, conversion, discovery and lookup of Bible passage
//! references.
//!
//! The crate has four coupled pieces: a per-locale book registry
//! ([`bible::BookId`], [`bible::TextId`]), a strict reference parser that
//! validates book names and chapter bounds against the registry
//! ([`bible::parse_reference_by_text`]), a permissive grammar parser that
//! turns a raw string into a structured parse result ([`parse_reference`]),
//! and a verse-content locator that walks a verse-tagged event stream
//! ([`find_content_in_source`]).

pub mod bible;
pub mod books;
pub mod locate;
pub mod parse;
pub mod scan;
pub mod text;

pub use locate::VerseEvent;
pub use locate::find_content_in_source;
pub use parse::Locale;
pub use parse::Reference;
pub use parse::ReferenceParseErrorCode;
pub use parse::ReferenceParseResult;
pub use parse::ReferenceParseResultType;
pub use parse::parse_reference;
pub use parse::parse_references;

