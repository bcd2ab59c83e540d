//! A verified library for a canonical text organised as books, chapters and
//! verses.  A streaming markup parser builds the hierarchical document
//! together with two concordances (lexicon number -> spelling variants and
//! verse occurrences, split at a fixed book boundary), an optional second
//! pass re-aligns lexicon tags against a reference document, and a query
//! engine answers multi-term substring searches over the finished document.

pub mod align;
pub mod bible;
pub mod constants;
pub mod search;
pub mod text;
pub mod zefania;

pub use bible::{
    Bible, Book, Chapter, Chunk, StrongDictEntry, StrongNumber, StrongVariant, Translation, Verse,
    VerseRef, BOUNDARY,
};
pub use constants::BookNames;
pub use search::QueryError;
pub use zefania::{MarkupEvent, ParseError, ZefaniaBible};
