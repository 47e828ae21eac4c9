use mdbookshelf::{classify_lowered_name, index_books, is_book, BookPath, BookType};

fn listed(parts: &[&str]) -> BookPath {
    BookPath::from_components(parts.iter().map(|p| p.to_string()).collect())
}

fn under_root(rest: &[&str]) -> BookPath {
    let mut parts = vec!["/", "shelf", "bookshelf"];
    parts.extend_from_slice(rest);
    listed(&parts)
}

#[test]
fn names_are_classified_without_case() {
    assert_eq!(is_book("book.toml"), Some(BookType::MDBook));
    assert_eq!(is_book("BOOK.TOML"), Some(BookType::MDBook));
    assert_eq!(is_book("Book.Toml"), Some(BookType::MDBook));
    assert_eq!(is_book("report.pdf"), Some(BookType::PDF));
    assert_eq!(is_book("Report.PDF"), Some(BookType::PDF));
    assert_eq!(is_book("notes.md"), None);
    assert_eq!(is_book("book.toml.bak"), None);
    assert_eq!(is_book("pdf"), None);
}

#[test]
fn lowered_names_are_compared_exactly() {
    assert_eq!(classify_lowered_name("book.toml"), Some(BookType::MDBook));
    assert_eq!(classify_lowered_name("BOOK.TOML"), None);
    assert_eq!(classify_lowered_name(".pdf"), Some(BookType::PDF));
    assert_eq!(classify_lowered_name("a.PDF"), None);
    assert_eq!(classify_lowered_name(""), None);
}

#[test]
fn structured_book_and_document_are_found() {
    let entries = vec![
        under_root(&["guide", "book.toml"]),
        under_root(&["guide", "src", "SUMMARY.md"]),
        under_root(&["papers", "report.pdf"]),
        under_root(&["papers", "notes.txt"]),
    ];
    let found = index_books(&entries);
    assert_eq!(
        found,
        vec![
            (BookType::MDBook, under_root(&["guide"])),
            (BookType::PDF, under_root(&["papers", "report.pdf"])),
        ]
    );
}

#[test]
fn nested_book_is_claimed_by_outer_book() {
    let entries = vec![
        under_root(&["outer", "inner", "book.toml"]),
        under_root(&["outer", "book.toml"]),
        under_root(&["other", "book.toml"]),
    ];
    let found = index_books(&entries);
    assert_eq!(
        found,
        vec![
            (BookType::MDBook, under_root(&["outer"])),
            (BookType::MDBook, under_root(&["other"])),
        ]
    );
}

#[test]
fn documents_inside_a_book_are_not_documents() {
    let entries = vec![
        under_root(&["guide", "a.pdf"]),
        under_root(&["guide", "images", "figure.pdf"]),
        under_root(&["guide", "BOOK.toml"]),
        under_root(&["loose.pdf"]),
    ];
    let found = index_books(&entries);
    assert_eq!(
        found,
        vec![
            (BookType::MDBook, under_root(&["guide"])),
            (BookType::PDF, under_root(&["loose.pdf"])),
        ]
    );
}

#[test]
fn results_never_overlap() {
    let entries = vec![
        under_root(&["x.pdf", "y.pdf"]),
        under_root(&["x.pdf"]),
        under_root(&["a", "book.toml"]),
        under_root(&["a", "book.toml"]),
        under_root(&["b.pdf"]),
        under_root(&["b.pdf"]),
    ];
    let found = index_books(&entries);
    assert_eq!(
        found,
        vec![
            (BookType::PDF, under_root(&["x.pdf", "y.pdf"])),
            (BookType::MDBook, under_root(&["a"])),
            (BookType::PDF, under_root(&["b.pdf"])),
        ]
    );
    for (i, a) in found.iter().enumerate() {
        for (j, b) in found.iter().enumerate() {
            if i != j {
                assert!(!b.1.starts_with(&a.1));
            }
        }
    }
}

#[test]
fn empty_listing_finds_nothing() {
    assert!(index_books(&Vec::new()).is_empty());
}
