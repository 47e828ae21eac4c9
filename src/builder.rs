//! The decisions of a shelf build, one book at a time.
//!
//! For each discovered book, `plan_book` works out where it goes; the caller
//! then runs the external work (the book compiler for a structured book, a
//! directory creation and a copy for a document) and hands the outcome to
//! `complete_compiled` or `complete_copied`, which decide what is recorded.
//! A path outside the scan root and a compiler failure stop the run; a copy
//! failure only drops that document.
use vstd::prelude::*;

use crate::book::{BookMetadata, BookType};
use crate::path::{is_prefix, isolate_partial_path, parent_of, BookPath, PathModel};

verus! {

/// Why a shelf build stops.
#[derive(Debug, Clone, PartialEq, Eq)]
pub enum BuildError {
    /// A discovered path does not lie under the scan root.
    PathMismatch,
    /// The book compiler rejected a structured book.
    CompilerFailure(String),
    /// A structured book's configuration has no title.
    MissingTitle,
}

/// One book, placed: where it comes from and where its output goes.
#[derive(Debug, Clone, PartialEq, Eq)]
pub struct BuildJob {
    pub book_type: BookType,
    pub source_path: BookPath,
    /// The source path with the scan root stripped off.
    pub partial_path: BookPath,
    /// `build root / bookshelf directory / partial path`.
    pub build_path: BookPath,
    /// The directory the output lands in; it must exist before a copy.
    pub parent_directory: BookPath,
}

/// Index of the last `.` among the first `n` characters, or -1.
pub open spec fn last_dot(name: Seq<char>, n: int) -> int
    decreases n,
{
    if n <= 0 {
        -1
    } else if name[n - 1] == '.' {
        n - 1
    } else {
        last_dot(name, n - 1)
    }
}

/// A file name without its extension, as `Path::file_stem` gives it: the
/// part before the last `.`, or the whole name where that part would be
/// empty (and for `..`).
pub open spec fn file_stem(name: Seq<char>) -> Seq<char> {
    let d = last_dot(name, name.len() as int);
    if name == seq!['.', '.'] || d <= 0 {
        name
    } else {
        name.subrange(0, d)
    }
}

/// The title a document gets: the stem of its file name.
pub open spec fn document_title(source: PathModel) -> Seq<char> {
    if source.len() == 0 {
        Seq::empty()
    } else {
        file_stem(source.last())
    }
}

/// The file name `name` without its extension.
pub fn stem_of(name: &str) -> (r: String)
    ensures
        r@ == file_stem(name@),
{
    let n = name.unicode_len();
    if n == 2 && name.get_char(0) == '.' && name.get_char(1) == '.' {
        proof {
            assert(name@ =~= seq!['.', '.']);
        }
        return name.to_owned();
    }
    let mut k: usize = n;
    while k > 0 && name.get_char(k - 1) != '.'
        invariant
            n == name@.len(),
            k <= n,
            last_dot(name@, n as int) == last_dot(name@, k as int),
        decreases k,
    {
        k = k - 1;
    }
    proof {
        if n == 2 {
            if name@ =~= seq!['.', '.'] {
                assert(name@[0] == '.' && name@[1] == '.');
            }
        }
    }
    if k <= 1 {
        name.to_owned()
    } else {
        name.substring_char(0, k - 1).to_owned()
    }
}

/// Works out where a discovered book goes.
///
/// Fails with `PathMismatch` exactly when `source_root` is not a prefix of
/// the book's path; otherwise the partial path is the rest of the book's
/// path and the build path is `build_root / bookshelf_directory / partial`.
pub fn plan_book(
    book: (BookType, BookPath),
    source_root: &BookPath,
    build_root: &BookPath,
    bookshelf_directory: &BookPath,
) -> (r: Result<BuildJob, BuildError>)
    ensures
        r is Ok <==> is_prefix(source_root@, book.1@),
        r is Err ==> r->Err_0 is PathMismatch,
        r matches Ok(job) ==> {
            &&& job.book_type == book.0
            &&& job.source_path@ == book.1@
            &&& job.partial_path@ == book.1@.subrange(source_root@.len() as int, book.1@.len() as int)
            &&& job.build_path@ == build_root@ + bookshelf_directory@ + job.partial_path@
            &&& job.parent_directory@ == parent_of(job.build_path@)
        },
{
    let (book_type, source_path) = book;
    match isolate_partial_path(&source_path, source_root) {
        Err(_) => Err(BuildError::PathMismatch),
        Ok(partial_path) => {
            let build_path = build_root.join(bookshelf_directory).join(&partial_path);
            let parent_directory = build_path.parent();
            Ok(BuildJob { book_type, source_path, partial_path, build_path, parent_directory })
        },
    }
}

/// Records a structured book after the compiler ran on it.
///
/// `compiled` is what the compiler gave: the title and description of the
/// book's configuration, or its failure. A failure, or a configuration
/// without a title, stops the run; a missing description is empty.
pub fn complete_compiled(job: BuildJob, compiled: Result<(Option<String>, Option<String>), String>) -> (r:
    Result<BookMetadata, BuildError>)
    ensures
        compiled is Err ==> (r matches Err(BuildError::CompilerFailure(m)) && m@ == compiled->Err_0@),
        compiled matches Ok((None, _)) ==> r matches Err(BuildError::MissingTitle),
        compiled matches Ok((Some(t), d)) ==> (r matches Ok(meta) && {
            &&& meta.book_type == job.book_type
            &&& meta.title@ == t@
            &&& meta.description@ == (match d {
                Some(d) => d@,
                None => Seq::<char>::empty(),
            })
            &&& meta.source_path@ == job.source_path@
            &&& meta.partial_path@ == job.partial_path@
            &&& meta.build_path@ == job.build_path@
        }),
{
    match compiled {
        Err(message) => Err(BuildError::CompilerFailure(message)),
        Ok((None, _)) => Err(BuildError::MissingTitle),
        Ok((Some(title), description)) => {
            let description = match description {
                Some(d) => d,
                None => String::new(),
            };
            Ok(
                BookMetadata {
                    book_type: job.book_type,
                    title,
                    description,
                    source_path: job.source_path,
                    partial_path: job.partial_path,
                    build_path: job.build_path,
                },
            )
        },
    }
}

/// Records a document after its copy was attempted: a copied document is
/// titled by the stem of its file name and has no description; one whose
/// directories or copy failed is left out.
pub fn complete_copied(job: BuildJob, copied: bool) -> (r: Option<BookMetadata>)
    ensures
        !copied ==> r is None,
        copied ==> (r matches Some(meta) && {
            &&& meta.book_type == job.book_type
            &&& meta.title@ == document_title(job.source_path@)
            &&& meta.description@ == Seq::<char>::empty()
            &&& meta.source_path@ == job.source_path@
            &&& meta.partial_path@ == job.partial_path@
            &&& meta.build_path@ == job.build_path@
        }),
{
    if !copied {
        return None;
    }
    let n = job.source_path.components.len();
    let title = if n == 0 {
        String::new()
    } else {
        stem_of(job.source_path.components[n - 1].as_str())
    };
    Some(
        BookMetadata {
            book_type: job.book_type,
            title,
            description: String::new(),
            source_path: job.source_path,
            partial_path: job.partial_path,
            build_path: job.build_path,
        },
    )
}

} // verus!
