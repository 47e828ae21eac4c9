//! Discovery, path isolation, build planning and hierarchy assembly for a
//! shelf of books: structured multi-page books and single-file documents.
pub mod book;
pub mod builder;
pub mod clean;
pub mod hierarchy;
pub mod indexer;
pub mod path;

pub use book::{BookMetadata, BookType, BookshelfMetadata, HierarchySection};
pub use builder::{complete_compiled, complete_copied, plan_book, stem_of, BuildError, BuildJob};
pub use clean::{report_clean, CleanOutcome, CleanReport};
pub use hierarchy::{build_bookshelf, compile_hierarchy};
pub use indexer::{classify_lowered_name, index_books, is_book};
pub use path::{isolate_partial_path, BookPath, PathMismatch};
