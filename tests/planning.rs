use mdbookshelf::{
    complete_compiled, complete_copied, plan_book, stem_of, BookPath, BookType, BuildError,
};

fn p(parts: &[&str]) -> BookPath {
    BookPath::from_components(parts.iter().map(|c| c.to_string()).collect())
}

fn roots() -> (BookPath, BookPath, BookPath) {
    (p(&["/", "shelf", "bookshelf"]), p(&["/", "shelf", "build"]), p(&["bookshelf"]))
}

#[test]
fn plan_places_book_under_build_root() {
    let (src, bld, shelf) = roots();
    let job = plan_book(
        (BookType::PDF, p(&["/", "shelf", "bookshelf", "papers", "report.pdf"])),
        &src,
        &bld,
        &shelf,
    )
    .unwrap();
    assert_eq!(job.book_type, BookType::PDF);
    assert_eq!(job.partial_path, p(&["papers", "report.pdf"]));
    assert_eq!(job.build_path, p(&["/", "shelf", "build", "bookshelf", "papers", "report.pdf"]));
    assert_eq!(job.parent_directory, p(&["/", "shelf", "build", "bookshelf", "papers"]));
    assert_eq!(job.source_path, p(&["/", "shelf", "bookshelf", "papers", "report.pdf"]));
}

#[test]
fn plan_outside_root_is_path_mismatch() {
    let (src, bld, shelf) = roots();
    let r = plan_book((BookType::MDBook, p(&["/", "elsewhere", "guide"])), &src, &bld, &shelf);
    assert_eq!(r, Err(BuildError::PathMismatch));
}

#[test]
fn copied_document_is_titled_by_stem() {
    let (src, bld, shelf) = roots();
    let job = plan_book(
        (BookType::PDF, p(&["/", "shelf", "bookshelf", "a.pdf"])),
        &src,
        &bld,
        &shelf,
    )
    .unwrap();
    assert_eq!(job.parent_directory, p(&["/", "shelf", "build", "bookshelf"]));
    let meta = complete_copied(job, true).unwrap();
    assert_eq!(meta.title, "a");
    assert_eq!(meta.description, "");
    assert_eq!(meta.book_type, BookType::PDF);
    assert_eq!(meta.partial_path, p(&["a.pdf"]));
    assert_eq!(meta.build_path, p(&["/", "shelf", "build", "bookshelf", "a.pdf"]));
}

#[test]
fn failed_copy_skips_only_that_document() {
    let (src, bld, shelf) = roots();
    let books = vec![
        (BookType::PDF, p(&["/", "shelf", "bookshelf", "one.pdf"])),
        (BookType::PDF, p(&["/", "shelf", "bookshelf", "locked", "two.pdf"])),
        (BookType::PDF, p(&["/", "shelf", "bookshelf", "three.pdf"])),
    ];
    let mut kept = Vec::new();
    for (i, book) in books.into_iter().enumerate() {
        let job = plan_book(book, &src, &bld, &shelf).unwrap();
        if let Some(meta) = complete_copied(job, i != 1) {
            kept.push(meta.title);
        }
    }
    assert_eq!(kept, vec!["one".to_string(), "three".to_string()]);
}

#[test]
fn compiled_book_takes_title_and_description() {
    let (src, bld, shelf) = roots();
    let job = plan_book((BookType::MDBook, p(&["/", "shelf", "bookshelf", "guide"])), &src, &bld, &shelf)
        .unwrap();
    let meta = complete_compiled(
        job,
        Ok((Some("The Guide".to_string()), Some("How to".to_string()))),
    )
    .unwrap();
    assert_eq!(meta.title, "The Guide");
    assert_eq!(meta.description, "How to");
    assert_eq!(meta.book_type, BookType::MDBook);
    assert_eq!(meta.partial_path, p(&["guide"]));
    assert_eq!(meta.build_path, p(&["/", "shelf", "build", "bookshelf", "guide"]));
}

#[test]
fn compiled_book_without_description_has_empty_one() {
    let (src, bld, shelf) = roots();
    let job = plan_book((BookType::MDBook, p(&["/", "shelf", "bookshelf", "guide"])), &src, &bld, &shelf)
        .unwrap();
    let meta = complete_compiled(job, Ok((Some("Guide".to_string()), None))).unwrap();
    assert_eq!(meta.description, "");
}

#[test]
fn compiled_book_without_title_stops_the_run() {
    let (src, bld, shelf) = roots();
    let job = plan_book((BookType::MDBook, p(&["/", "shelf", "bookshelf", "guide"])), &src, &bld, &shelf)
        .unwrap();
    assert_eq!(complete_compiled(job, Ok((None, Some("x".to_string())))), Err(BuildError::MissingTitle));
}

#[test]
fn compiler_failure_stops_the_run() {
    let (src, bld, shelf) = roots();
    let job = plan_book((BookType::MDBook, p(&["/", "shelf", "bookshelf", "guide"])), &src, &bld, &shelf)
        .unwrap();
    assert_eq!(
        complete_compiled(job, Err("bad SUMMARY.md".to_string())),
        Err(BuildError::CompilerFailure("bad SUMMARY.md".to_string()))
    );
}

#[test]
fn stems_follow_file_stem_rules() {
    assert_eq!(stem_of("report.pdf"), "report");
    assert_eq!(stem_of("a.b.pdf"), "a.b");
    assert_eq!(stem_of(".pdf"), ".pdf");
    assert_eq!(stem_of("noext"), "noext");
    assert_eq!(stem_of(".."), "..");
    assert_eq!(stem_of("trailing."), "trailing");
    assert_eq!(stem_of(""), "");
}
