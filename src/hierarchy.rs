//! Folding a flat list of built books into a tree of sections keyed by the
//! segments of their partial paths.
//!
//! A book is placed in the section whose key path is its partial path
//! without the last segment; that last segment (a directory or file name)
//! identifies the book inside its section. Sections that meet under the
//! same key are merged. Books are kept in a list per section, in the order
//! they were given, so no book ever replaces another.
use vstd::prelude::*;

use crate::book::{BookMetadata, BookshelfMetadata, HierarchySection};
use crate::path::{is_prefix, parent_of, strings_view, BookPath, PathModel};

verus! {

broadcast use vstd::seq_lib::group_filter_ensures;

/// `s` has a child section named `key`.
pub open spec fn has_child(s: HierarchySection, key: Seq<char>) -> bool {
    exists|i: int| 0 <= i < s.sub_sections@.len() && (#[trigger] s.sub_sections@[i]).name@ == key
}

/// The section reached from `s` by following the keys of `p`, if any.
pub open spec fn section_at(s: HierarchySection, p: PathModel) -> Option<HierarchySection>
    decreases p.len(),
{
    if p.len() == 0 {
        Some(s)
    } else if has_child(s, p[0]) {
        let i = choose|i: int|
            0 <= i < s.sub_sections@.len() && (#[trigger] s.sub_sections@[i]).name@ == p[0];
        section_at(s.sub_sections@[i], p.drop_first())
    } else {
        None
    }
}

/// The books placed in the section at `p` (none where there is no section).
pub open spec fn books_at(s: HierarchySection, p: PathModel) -> Seq<BookMetadata> {
    match section_at(s, p) {
        Some(t) => t.books@,
        None => Seq::empty(),
    }
}

/// No two children of `s` share a name.
pub open spec fn unique_names(s: HierarchySection) -> bool {
    forall|i: int, j: int|
        0 <= i < s.sub_sections@.len() && 0 <= j < s.sub_sections@.len() && i != j
            ==> (#[trigger] s.sub_sections@[i]).name@ != (#[trigger] s.sub_sections@[j]).name@
}

/// Every section of the tree keys its children uniquely.
pub open spec fn well_formed(s: HierarchySection) -> bool {
    forall|p: PathModel| #[trigger] section_at(s, p) matches Some(t) ==> unique_names(t)
}

/// The key path of the section a book is placed in.
pub open spec fn placement(b: BookMetadata) -> PathModel {
    parent_of(b.partial_path@)
}

/// Holds of the books placed at `p`.
pub open spec fn placed_at(p: PathModel) -> spec_fn(BookMetadata) -> bool {
    |b: BookMetadata| placement(b) == p
}

/// `h` is the hierarchy of `books`: a well-formed tree with an unnamed root,
/// a section at each prefix of a placement (and at the root), and at each
/// key path exactly the books placed there, in the order given.
pub open spec fn is_compiled(books: Seq<BookMetadata>, h: HierarchySection) -> bool {
    &&& well_formed(h)
    &&& h.name@ == Seq::<char>::empty()
    &&& forall|p: PathModel|
        (#[trigger] section_at(h, p) is Some) <==> (p.len() == 0 || exists|i: int|
            0 <= i < books.len() && is_prefix(p, placement(#[trigger] books[i])))
    &&& forall|p: PathModel| #[trigger] books_at(h, p) == books.filter(placed_at(p))
}

proof fn lemma_section_at_child(s: HierarchySection, i: int, p: PathModel)
    requires
        unique_names(s),
        0 <= i < s.sub_sections@.len(),
        p.len() > 0,
        s.sub_sections@[i].name@ == p[0],
    ensures
        section_at(s, p) == section_at(s.sub_sections@[i], p.drop_first()),
{
    assert(has_child(s, p[0]));
}

proof fn lemma_section_at_absent(s: HierarchySection, p: PathModel)
    requires
        p.len() > 0,
        forall|i: int| 0 <= i < s.sub_sections@.len() ==> (#[trigger] s.sub_sections@[i]).name@ != p[0],
    ensures
        section_at(s, p) is None,
{
}

/// A section with the given name and nothing in it.
fn empty_section(name: String) -> (r: HierarchySection)
    ensures
        r.name@ == name@,
        r.books@.len() == 0,
        r.sub_sections@.len() == 0,
{
    HierarchySection { name, books: Vec::new(), sub_sections: Vec::new() }
}

proof fn lemma_empty_section(s: HierarchySection)
    requires
        s.books@.len() == 0,
        s.sub_sections@.len() == 0,
    ensures
        well_formed(s),
        forall|p: PathModel| (#[trigger] section_at(s, p) is Some) <==> p.len() == 0,
        forall|p: PathModel| #[trigger] books_at(s, p) == Seq::<BookMetadata>::empty(),
{
    assert forall|p: PathModel| (#[trigger] section_at(s, p) is Some) <==> p.len() == 0 by {
        if p.len() > 0 {
            lemma_section_at_absent(s, p);
        }
    }
    assert forall|p: PathModel| #[trigger] books_at(s, p) == Seq::<BookMetadata>::empty() by {
        if p.len() > 0 {
            lemma_section_at_absent(s, p);
        } else {
            assert(s.books@ =~= Seq::<BookMetadata>::empty());
        }
    }
}

/// The index of the child of `s` named `key`, or the number of children.
fn find_child(s: &HierarchySection, key: &String) -> (r: usize)
    ensures
        r <= s.sub_sections@.len(),
        r < s.sub_sections@.len() ==> s.sub_sections@[r as int].name@ == key@,
        r == s.sub_sections@.len() ==> forall|i: int|
            0 <= i < s.sub_sections@.len() ==> (#[trigger] s.sub_sections@[i]).name@ != key@,
{
    let mut i: usize = 0;
    while i < s.sub_sections.len()
        invariant
            i <= s.sub_sections@.len(),
            forall|t: int| 0 <= t < i ==> (#[trigger] s.sub_sections@[t]).name@ != key@,
        decreases s.sub_sections@.len() - i,
    {
        if s.sub_sections[i].name == *key {
            return i;
        }
        i = i + 1;
    }
    i
}

proof fn lemma_same_children(s1: HierarchySection, s2: HierarchySection, p: PathModel)
    requires
        s1.sub_sections@ == s2.sub_sections@,
        p.len() > 0,
    ensures
        section_at(s1, p) == section_at(s2, p),
{
}

/// A child of a well-formed section is well formed.
proof fn lemma_child_well_formed(s: HierarchySection, i: int)
    requires
        well_formed(s),
        0 <= i < s.sub_sections@.len(),
    ensures
        well_formed(s.sub_sections@[i]),
{
    let child = s.sub_sections@[i];
    assert(section_at(s, Seq::<Seq<char>>::empty()) == Some(s));
    assert forall|r: PathModel| #[trigger] section_at(child, r) is Some implies unique_names(
        section_at(child, r)->0,
    ) by {
        let p = seq![child.name@] + r;
        assert(p.drop_first() =~= r);
        lemma_section_at_child(s, i, p);
        assert(section_at(s, p) == section_at(child, r));
    }
}

/// Places `meta` in the section of `s` at the key path `levels[k..]`,
/// creating the sections on the way that are missing.
fn insert_book(s: &mut HierarchySection, levels: &Vec<String>, k: usize, meta: BookMetadata)
    requires
        well_formed(*old(s)),
        k <= levels@.len(),
    ensures
        well_formed(*final(s)),
        final(s).name == old(s).name,
        forall|p: PathModel|
            (#[trigger] section_at(*final(s), p) is Some) <==> (section_at(*old(s), p) is Some
                || is_prefix(p, strings_view(levels@).subrange(k as int, levels@.len() as int))),
        forall|p: PathModel| #[trigger]
            books_at(*final(s), p) == if p == strings_view(levels@).subrange(
                k as int,
                levels@.len() as int,
            ) {
                books_at(*old(s), p).push(meta)
            } else {
                books_at(*old(s), p)
            },
    decreases levels@.len() - k,
{
    let ghost q = strings_view(levels@).subrange(k as int, levels@.len() as int);
    let ghost s0 = *s;
    if k == levels.len() {
        s.books.push(meta);
        proof {
            let s1 = *s;
            assert(q =~= Seq::<Seq<char>>::empty());
            assert forall|p: PathModel|
                #![trigger section_at(s1, p)]
                #![trigger books_at(s1, p)]
                (section_at(s1, p) is Some <==> (section_at(s0, p) is Some || is_prefix(p, q)))
                    && books_at(s1, p) == (if p == q {
                    books_at(s0, p).push(meta)
                } else {
                    books_at(s0, p)
                }) && (section_at(s1, p) matches Some(t) ==> unique_names(t)) by {
                if p.len() > 0 {
                    lemma_same_children(s0, s1, p);
                } else {
                    assert(p =~= q);
                    assert(section_at(s0, p) == Some(s0));
                }
            }
        }
        return;
    }
    let idx = find_child(s, &levels[k]);
    if idx == s.sub_sections.len() {
        let name = levels[k].clone();
        s.sub_sections.push(empty_section(name));
    }
    let ghost mid = *s;
    let mut child = s.sub_sections.remove(idx);
    let ghost child0 = child;
    proof {
        assert(section_at(s0, Seq::<Seq<char>>::empty()) == Some(s0));
        assert(unique_names(s0));
        assert(unique_names(mid));
        if idx < s0.sub_sections@.len() {
            assert(child0 == s0.sub_sections@[idx as int]);
            lemma_child_well_formed(s0, idx as int);
        } else {
            lemma_empty_section(child0);
        }
    }
    insert_book(&mut child, levels, k + 1, meta);
    let ghost child1 = child;
    s.sub_sections.insert(idx, child);
    proof {
        let s1 = *s;
        let key = levels@[k as int]@;
        assert(s1.sub_sections@ =~= mid.sub_sections@.update(idx as int, child1));
        assert(q[0] == key);
        assert(strings_view(levels@).subrange(k + 1, levels@.len() as int) =~= q.drop_first());
        assert(unique_names(s1));
        assert forall|p: PathModel|
            #![trigger section_at(s1, p)]
            #![trigger books_at(s1, p)]
            (section_at(s1, p) is Some <==> (section_at(s0, p) is Some || is_prefix(p, q)))
                && books_at(s1, p) == (if p == q {
                books_at(s0, p).push(meta)
            } else {
                books_at(s0, p)
            }) && (section_at(s1, p) matches Some(t) ==> unique_names(t)) by {
            if p.len() == 0 {
                assert(section_at(s0, p) == Some(s0));
                assert(section_at(s1, p) == Some(s1));
                assert(p != q);
            } else if p[0] == key {
                let r = p.drop_first();
                lemma_section_at_child(s1, idx as int, p);
                assert(section_at(child1, r) == section_at(s1, p));
                assert(is_prefix(p, q) <==> is_prefix(r, q.drop_first())) by {
                    if is_prefix(p, q) {
                        assert(q.drop_first().subrange(0, r.len() as int) =~= r);
                    }
                    if is_prefix(r, q.drop_first()) {
                        assert forall|i: int| 0 <= i < p.len() implies #[trigger] q[i] == p[i] by {
                            if i > 0 {
                                assert(q.drop_first().subrange(0, r.len() as int)[i - 1] == r[i - 1]);
                            }
                        }
                        assert(q.subrange(0, p.len() as int) =~= p);
                    }
                }
                assert(p == q <==> r == q.drop_first()) by {
                    if r == q.drop_first() {
                        assert(p =~= q);
                    }
                }
                assert(section_at(child1, r) matches Some(t) ==> unique_names(t));
                assert(books_at(s1, p) == books_at(child1, r));
                if idx < s0.sub_sections@.len() {
                    lemma_section_at_child(s0, idx as int, p);
                    assert(books_at(s0, p) == books_at(child0, r));
                } else {
                    lemma_section_at_absent(s0, p);
                    assert(books_at(child0, r) == Seq::<BookMetadata>::empty());
                    assert(books_at(s0, p) == books_at(child0, r));
                }
            } else {
                assert(!is_prefix(p, q)) by {
                    if is_prefix(p, q) {
                        assert(q.subrange(0, p.len() as int)[0] == p[0]);
                    }
                }
                if has_child(s0, p[0]) {
                    let i = choose|i: int|
                        0 <= i < s0.sub_sections@.len() && (#[trigger] s0.sub_sections@[i]).name@
                            == p[0];
                    assert(i != idx);
                    assert(s1.sub_sections@[i] == s0.sub_sections@[i]);
                    lemma_section_at_child(s0, i, p);
                    lemma_section_at_child(s1, i, p);
                    assert(section_at(s0, p) matches Some(t) ==> unique_names(t));
                } else {
                    lemma_section_at_absent(s0, p);
                    assert forall|i: int| 0 <= i < s1.sub_sections@.len() implies (
                    #[trigger] s1.sub_sections@[i]).name@ != p[0] by {
                        if i != idx && i < s0.sub_sections@.len() {
                            assert(s1.sub_sections@[i] == s0.sub_sections@[i]);
                        }
                    }
                    lemma_section_at_absent(s1, p);
                }
            }
        }
    }
}

/// Folds the built books into the shelf hierarchy.
///
/// Each book lands in the section at its partial path without the last
/// segment; sections are created as needed and merged where keys meet.
pub fn compile_hierarchy(books_metadata: Vec<BookMetadata>) -> (h: HierarchySection)
    ensures
        is_compiled(books_metadata@, h),
{
    let ghost all = books_metadata@;
    let mut root = empty_section(String::new());
    proof {
        lemma_empty_section(root);
        assert(all.subrange(0, 0).filter(placed_at(Seq::<Seq<char>>::empty())) =~= Seq::<
            BookMetadata,
        >::empty()) by {
            reveal(Seq::filter);
        }
        assert forall|p: PathModel| #[trigger]
            books_at(root, p) == all.subrange(0, 0).filter(placed_at(p)) by {
            reveal(Seq::filter);
            assert(all.subrange(0, 0).filter(placed_at(p)) =~= Seq::<BookMetadata>::empty());
        }
    }
    let mut rest = books_metadata;
    let n = rest.len();
    let mut i: usize = 0;
    while i < n
        invariant
            n == all.len(),
            i <= n,
            rest@ == all.subrange(i as int, n as int),
            is_compiled(all.subrange(0, i as int), root),
        decreases n - i,
    {
        let meta = rest.remove(0);
        let levels = meta.partial_path.parent().components;
        let ghost m = meta;
        let ghost before = root;
        insert_book(&mut root, &levels, 0, meta);
        proof {
            let prev = all.subrange(0, i as int);
            let next = all.subrange(0, i + 1);
            assert(m == all[i as int]);
            assert(next =~= prev.push(m));
            assert(strings_view(levels@).subrange(0, levels@.len() as int) =~= placement(m));
            assert forall|p: PathModel| #[trigger] books_at(root, p) == next.filter(placed_at(p)) by {
                prev.lemma_filter_push(m, placed_at(p));
            }
            assert forall|p: PathModel|
                (#[trigger] section_at(root, p) is Some) <==> (p.len() == 0 || exists|j: int|
                    0 <= j < next.len() && is_prefix(p, placement(#[trigger] next[j]))) by {
                if section_at(before, p) is Some && p.len() > 0 {
                    let j = choose|j: int| 0 <= j < prev.len() && is_prefix(p, placement(#[trigger] prev[j]));
                    assert(next[j] == prev[j]);
                }
                if is_prefix(p, placement(m)) {
                    assert(next[i as int] == m);
                }
                if p.len() > 0 && (exists|j: int|
                    0 <= j < next.len() && is_prefix(p, placement(#[trigger] next[j]))) {
                    let j = choose|j: int| 0 <= j < next.len() && is_prefix(p, placement(#[trigger] next[j]));
                    if j < i {
                        assert(next[j] == prev[j]);
                    }
                }
            }
            assert(rest@ =~= all.subrange(i + 1, n as int));
        }
        i = i + 1;
    }
    proof {
        assert(all.subrange(0, n as int) =~= all);
    }
    root
}

/// Assembles the shelf record from its directories and its built books.
pub fn build_bookshelf(
    src: BookPath,
    bld: BookPath,
    bookshelf_directory: BookPath,
    books_metadata: Vec<BookMetadata>,
) -> (r: BookshelfMetadata)
    ensures
        r.source_directory@ == src@,
        r.build_directory@ == bld@,
        r.bookshelf_directory@ == bookshelf_directory@,
        is_compiled(books_metadata@, r.book_hierarchy),
{
    let book_hierarchy = compile_hierarchy(books_metadata);
    BookshelfMetadata {
        source_directory: src,
        build_directory: bld,
        bookshelf_directory,
        book_hierarchy,
    }
}

/// How many times `x` occurs among the books of `s` that `f` holds of.
proof fn lemma_filter_count(s: Seq<BookMetadata>, f: spec_fn(BookMetadata) -> bool, x: BookMetadata)
    ensures
        s.filter(f).to_multiset().count(x) == if f(x) {
            s.to_multiset().count(x)
        } else {
            0
        },
    decreases s.len(),
{
    broadcast use vstd::seq_lib::group_to_multiset_ensures;
    broadcast use vstd::multiset::group_multiset_axioms;

    if s.len() == 0 {
        reveal(Seq::filter);
        assert(s.filter(f) =~= s);
    } else {
        let init = s.drop_last();
        lemma_filter_count(init, f, x);
        assert(init.push(s.last()) =~= s);
        init.lemma_filter_push(s.last(), f);
    }
}

/// Compiling the same books in any order yields the same tree: the same
/// sections at the same key paths, holding the same books.
pub proof fn lemma_compile_order_free(
    books1: Seq<BookMetadata>,
    books2: Seq<BookMetadata>,
    h1: HierarchySection,
    h2: HierarchySection,
)
    requires
        books1.to_multiset() == books2.to_multiset(),
        is_compiled(books1, h1),
        is_compiled(books2, h2),
    ensures
        forall|p: PathModel|
            (#[trigger] section_at(h1, p) is Some) <==> (section_at(h2, p) is Some),
        forall|p: PathModel|
            (#[trigger] books_at(h1, p)).to_multiset() == books_at(h2, p).to_multiset(),
{
    broadcast use vstd::seq_lib::group_to_multiset_ensures;

    assert forall|p: PathModel| (#[trigger] section_at(h1, p) is Some) <==> (section_at(h2, p) is Some) by {
        if p.len() > 0 && section_at(h1, p) is Some {
            let i = choose|i: int| 0 <= i < books1.len() && is_prefix(p, placement(#[trigger] books1[i]));
            let b = books1[i];
            assert(books1.contains(b));
            assert(books1.to_multiset().count(b) > 0);
            assert(books2.contains(b));
            let j = choose|j: int| 0 <= j < books2.len() && books2[j] == b;
            assert(is_prefix(p, placement(books2[j])));
        }
        if p.len() > 0 && section_at(h2, p) is Some {
            let i = choose|i: int| 0 <= i < books2.len() && is_prefix(p, placement(#[trigger] books2[i]));
            let b = books2[i];
            assert(books2.contains(b));
            assert(books2.to_multiset().count(b) > 0);
            assert(books1.contains(b));
            let j = choose|j: int| 0 <= j < books1.len() && books1[j] == b;
            assert(is_prefix(p, placement(books1[j])));
        }
    }
    assert forall|p: PathModel|
        (#[trigger] books_at(h1, p)).to_multiset() == books_at(h2, p).to_multiset() by {
        assert forall|x: BookMetadata|
            books_at(h1, p).to_multiset().count(x) == books_at(h2, p).to_multiset().count(x) by {
            lemma_filter_count(books1, placed_at(p), x);
            lemma_filter_count(books2, placed_at(p), x);
        }
        assert(books_at(h1, p).to_multiset() =~= books_at(h2, p).to_multiset());
    }
}

/// For books whose partial paths are not empty, the key path of the section
/// holding a book, followed by the book's own key (the last segment of its
/// partial path), is the book's partial path.
pub proof fn lemma_leaf_round_trip(books: Seq<BookMetadata>, h: HierarchySection)
    requires
        is_compiled(books, h),
        forall|i: int| 0 <= i < books.len() ==> (#[trigger] books[i]).partial_path@.len() > 0,
    ensures
        forall|p: PathModel, k: int|
            0 <= k < books_at(h, p).len() ==> p.push((#[trigger] books_at(h, p)[k]).partial_path@.last())
                == books_at(h, p)[k].partial_path@,
{
    assert forall|p: PathModel, k: int| 0 <= k < books_at(h, p).len() implies p.push(
        (#[trigger] books_at(h, p)[k]).partial_path@.last(),
    ) == books_at(h, p)[k].partial_path@ by {
        let b = books_at(h, p)[k];
        assert(books.filter(placed_at(p)).contains(b));
        books.lemma_filter_contains_rev(placed_at(p), b);
        let i = choose|i: int| 0 <= i < books.len() && books[i] == b;
        assert(b.partial_path@.len() > 0);
        assert(placed_at(p)(b));
        assert(p.push(b.partial_path@.last()) =~= b.partial_path@);
    }
}

} // verus!
