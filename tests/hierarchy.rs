use mdbookshelf::{
    build_bookshelf, compile_hierarchy, complete_compiled, complete_copied, index_books, plan_book,
    BookMetadata, BookPath, BookType, HierarchySection,
};

fn bp(parts: &[&str]) -> BookPath {
    BookPath::from_components(parts.iter().map(|c| c.to_string()).collect())
}

fn meta(partial: &[&str], title: &str) -> BookMetadata {
    BookMetadata {
        book_type: BookType::PDF,
        title: title.to_string(),
        description: String::new(),
        source_path: bp(partial),
        partial_path: bp(partial),
        build_path: bp(partial),
    }
}

fn child<'a>(s: &'a HierarchySection, name: &str) -> &'a HierarchySection {
    let found: Vec<&HierarchySection> = s.sub_sections.iter().filter(|c| c.name == name).collect();
    assert_eq!(found.len(), 1);
    found[0]
}

fn titles(s: &HierarchySection) -> Vec<String> {
    s.books.iter().map(|b| b.title.clone()).collect()
}

/// Every (key path, title) pair of the tree, sorted.
fn flatten(s: &HierarchySection, prefix: Vec<String>, out: &mut Vec<(Vec<String>, String)>) {
    for b in &s.books {
        out.push((prefix.clone(), b.title.clone()));
    }
    for c in &s.sub_sections {
        let mut p = prefix.clone();
        p.push(c.name.clone());
        out.push((p.clone(), String::from("<section>")));
        flatten(c, p, out);
    }
}

fn sorted_flat(s: &HierarchySection) -> Vec<(Vec<String>, String)> {
    let mut out = Vec::new();
    flatten(s, Vec::new(), &mut out);
    out.sort();
    out
}

#[test]
fn scenario_guide_and_report() {
    let src = bp(&["/", "shelf", "bookshelf"]);
    let bld = bp(&["/", "shelf", "build"]);
    let shelf = bp(&["bookshelf"]);
    let entries = vec![
        bp(&["/", "shelf", "bookshelf", "guide", "book.toml"]),
        bp(&["/", "shelf", "bookshelf", "guide", "src", "chapter_1.md"]),
        bp(&["/", "shelf", "bookshelf", "papers", "report.pdf"]),
    ];
    let found = index_books(&entries);
    let mut books = Vec::new();
    for book in found {
        let job = plan_book(book, &src, &bld, &shelf).unwrap();
        let meta = match job.book_type {
            BookType::MDBook => complete_compiled(job, Ok((Some("Guide".to_string()), None))).unwrap(),
            BookType::PDF => complete_copied(job, true).unwrap(),
        };
        books.push(meta);
    }
    assert_eq!(books.len(), 2);
    assert_eq!(books[0].partial_path, bp(&["guide"]));
    assert_eq!(books[1].partial_path, bp(&["papers", "report.pdf"]));

    let shelf_meta = build_bookshelf(src.clone(), bld.clone(), shelf.clone(), books);
    assert_eq!(shelf_meta.source_directory, src);
    assert_eq!(shelf_meta.build_directory, bld);
    assert_eq!(shelf_meta.bookshelf_directory, shelf);
    let root = &shelf_meta.book_hierarchy;
    assert_eq!(root.name, "");
    assert_eq!(titles(root), vec!["Guide".to_string()]);
    assert_eq!(root.sub_sections.len(), 1);
    let papers = child(root, "papers");
    assert_eq!(titles(papers), vec!["report".to_string()]);
    assert_eq!(papers.books[0].partial_path, bp(&["papers", "report.pdf"]));
    assert!(papers.sub_sections.is_empty());
}

#[test]
fn sections_merge_under_shared_keys() {
    let h = compile_hierarchy(vec![
        meta(&["a", "b", "one.pdf"], "one"),
        meta(&["a", "two.pdf"], "two"),
        meta(&["a", "b", "three.pdf"], "three"),
        meta(&["c", "four.pdf"], "four"),
    ]);
    assert!(h.books.is_empty());
    assert_eq!(h.sub_sections.len(), 2);
    let a = child(&h, "a");
    assert_eq!(titles(a), vec!["two".to_string()]);
    let b = child(a, "b");
    assert_eq!(titles(b), vec!["one".to_string(), "three".to_string()]);
    assert_eq!(titles(child(&h, "c")), vec!["four".to_string()]);
}

#[test]
fn compile_is_independent_of_order() {
    let list = vec![
        meta(&["x", "y", "1.pdf"], "1"),
        meta(&["x", "2.pdf"], "2"),
        meta(&["z", "3.pdf"], "3"),
        meta(&["4.pdf"], "4"),
        meta(&["x", "y", "w", "5.pdf"], "5"),
    ];
    let mut reversed = list.clone();
    reversed.reverse();
    let mut rotated = list.clone();
    rotated.rotate_left(2);
    let base = sorted_flat(&compile_hierarchy(list));
    assert_eq!(sorted_flat(&compile_hierarchy(reversed)), base);
    assert_eq!(sorted_flat(&compile_hierarchy(rotated)), base);
}

/// Checks each book's key path against its partial path.
fn walk(s: &HierarchySection, prefix: Vec<String>, seen: &mut usize) {
    for b in &s.books {
        let mut key_path = prefix.clone();
        key_path.push(b.partial_path.components.last().unwrap().clone());
        assert_eq!(key_path, b.partial_path.components);
        *seen += 1;
    }
    for c in &s.sub_sections {
        let mut p = prefix.clone();
        p.push(c.name.clone());
        walk(c, p, seen);
    }
}
#[test]
fn leaf_key_path_is_partial_path() {
    let list = vec![
        meta(&["x", "y", "1.pdf"], "1"),
        meta(&["x", "2.pdf"], "2"),
        meta(&["3.pdf"], "3"),
    ];
    let h = compile_hierarchy(list);
    let mut seen = 0;
    walk(&h, Vec::new(), &mut seen);
    assert_eq!(seen, 3);
}

#[test]
fn empty_list_gives_bare_root() {
    let h = compile_hierarchy(Vec::new());
    assert_eq!(h.name, "");
    assert!(h.books.is_empty());
    assert!(h.sub_sections.is_empty());
}

#[test]
fn equal_partial_paths_keep_both_books() {
    let h = compile_hierarchy(vec![meta(&["d", "same.pdf"], "first"), meta(&["d", "same.pdf"], "second")]);
    assert_eq!(titles(child(&h, "d")), vec!["first".to_string(), "second".to_string()]);
}
