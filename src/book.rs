//! The records that flow through a bookshelf build.
use vstd::prelude::*;

use crate::path::BookPath;

verus! {

/// The kind of a book source.
#[derive(Debug, Clone, Copy, PartialEq, Eq, Structural)]
pub enum BookType {
    /// A directory-based, multi-file book that an external compiler builds.
    MDBook,
    /// A single document (a PDF file), published by plain copy.
    PDF,
}

/// What is known of one built book.
#[derive(Debug, Clone, PartialEq, Eq)]
pub struct BookMetadata {
    pub book_type: BookType,
    pub title: String,
    pub description: String,
    pub source_path: BookPath,
    /// The source path with the scan root stripped off.
    pub partial_path: BookPath,
    pub build_path: BookPath,
}

/// One level of the shelf hierarchy: the books placed directly at this level
/// and the sections below it, each keyed by its `name`.
#[derive(Debug)]
pub struct HierarchySection {
    pub name: String,
    pub books: Vec<BookMetadata>,
    pub sub_sections: Vec<HierarchySection>,
}

/// Everything the index page of a shelf is rendered from.
#[derive(Debug)]
pub struct BookshelfMetadata {
    pub source_directory: BookPath,
    pub build_directory: BookPath,
    pub bookshelf_directory: BookPath,
    pub book_hierarchy: HierarchySection,
}

} // verus!
