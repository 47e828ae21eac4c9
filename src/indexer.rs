//! Discovery of book sources in a listing of the files under a scan root.
//!
//! A file named `book.toml` (in any case) claims its directory as a
//! structured book, together with everything beneath it; a file whose name
//! ends in `.pdf` (in any case) is a single-file document. The listing is
//! taken as given: only files that no other listed path lies beneath count.
use vstd::prelude::*;

use crate::book::BookType;
use crate::path::{is_prefix, is_proper_prefix, parent_of, BookPath, PathModel};

verus! {

/// What `str::to_lowercase` returns for the given characters.
pub uninterp spec fn lower_of(s: Seq<char>) -> Seq<char>;

/// Relies on `str::to_lowercase`: its result depends on the characters alone.
#[verifier::external_body]
fn lowercase(s: &str) -> (r: String)
    ensures
        r@ == lower_of(s@),
{
    s.to_lowercase()
}

/// The name of the file that marks a structured book.
pub open spec fn manifest_name() -> Seq<char> {
    seq!['b', 'o', 'o', 'k', '.', 't', 'o', 'm', 'l']
}

/// The ending of a single-file document's name.
pub open spec fn document_suffix() -> Seq<char> {
    seq!['.', 'p', 'd', 'f']
}

pub open spec fn ends_with(s: Seq<char>, suffix: Seq<char>) -> bool {
    suffix.len() <= s.len() && s.subrange(s.len() - suffix.len(), s.len() as int) =~= suffix
}

/// The kind of book a file marks, given its lower-cased name.
pub open spec fn classify_lowered(name: Seq<char>) -> Option<BookType> {
    if name == manifest_name() {
        Some(BookType::MDBook)
    } else if ends_with(name, document_suffix()) {
        Some(BookType::PDF)
    } else {
        None
    }
}

/// The kind of book a listed path marks, by its last component.
pub open spec fn entry_kind(p: PathModel) -> Option<BookType> {
    if p.len() == 0 {
        None
    } else {
        classify_lowered(lower_of(p.last()))
    }
}

/// No other listed path lies beneath entry `i`: it is a file.
pub open spec fn is_leaf(entries: Seq<PathModel>, i: int) -> bool {
    forall|j: int| 0 <= j < entries.len() ==> !is_proper_prefix(entries[i], #[trigger] entries[j])
}

/// Entry `i` is a `book.toml` file.
pub open spec fn is_manifest(entries: Seq<PathModel>, i: int) -> bool {
    is_leaf(entries, i) && entry_kind(entries[i]) == Some(BookType::MDBook)
}

/// Some `book.toml` file of the listing has its directory at or above `p`.
pub open spec fn claimed(entries: Seq<PathModel>, p: PathModel) -> bool {
    exists|j: int|
        0 <= j < entries.len() && #[trigger] is_manifest(entries, j) && is_prefix(
            parent_of(entries[j]),
            p,
        )
}

/// Entry `i` yields a structured book: it is a `book.toml` file whose
/// directory lies under no other book directory, and no earlier entry names
/// the same directory.
pub open spec fn yields_book(entries: Seq<PathModel>, i: int) -> bool {
    &&& is_manifest(entries, i)
    &&& forall|j: int|
        0 <= j < entries.len() && #[trigger] is_manifest(entries, j) ==> !is_proper_prefix(
            parent_of(entries[j]),
            parent_of(entries[i]),
        )
    &&& forall|j: int|
        0 <= j < i && #[trigger] is_manifest(entries, j) ==> parent_of(entries[j]) != parent_of(
            entries[i],
        )
}

/// Entry `i` yields a single-file document: a `.pdf` file outside every
/// book directory, not listed earlier.
pub open spec fn yields_document(entries: Seq<PathModel>, i: int) -> bool {
    &&& is_leaf(entries, i)
    &&& entry_kind(entries[i]) == Some(BookType::PDF)
    &&& !claimed(entries, entries[i])
    &&& forall|j: int| 0 <= j < i ==> #[trigger] entries[j] != entries[i]
}

/// What entry `i` contributes to the discovery.
pub open spec fn result_at(entries: Seq<PathModel>, i: int) -> Option<(BookType, PathModel)> {
    if yields_book(entries, i) {
        Some((BookType::MDBook, parent_of(entries[i])))
    } else if yields_document(entries, i) {
        Some((BookType::PDF, entries[i]))
    } else {
        None
    }
}

/// The books that the first `n` entries yield, in listing order.
pub open spec fn discovered(entries: Seq<PathModel>, n: nat) -> Seq<(BookType, PathModel)>
    decreases n,
{
    if n == 0 {
        Seq::empty()
    } else {
        let prev = discovered(entries, (n - 1) as nat);
        match result_at(entries, n - 1) {
            Some(b) => prev.push(b),
            None => prev,
        }
    }
}

/// The listing, as path models.
pub open spec fn listing_view(entries: Seq<BookPath>) -> Seq<PathModel> {
    Seq::new(entries.len(), |i: int| entries[i]@)
}

/// The discovered books, as kinds and path models.
pub open spec fn found_view(found: Seq<(BookType, BookPath)>) -> Seq<(BookType, PathModel)> {
    Seq::new(found.len(), |i: int| (found[i].0, found[i].1@))
}

/// Two distinct entries never yield books where one path lies at or under
/// the other.
proof fn lemma_results_apart(ev: Seq<PathModel>, i1: int, i2: int)
    requires
        0 <= i1 < ev.len(),
        0 <= i2 < ev.len(),
        i1 != i2,
        result_at(ev, i1) is Some,
        result_at(ev, i2) is Some,
    ensures
        !is_prefix((result_at(ev, i1)->0).1, (result_at(ev, i2)->0).1),
{
    let p1 = (result_at(ev, i1)->0).1;
    let p2 = (result_at(ev, i2)->0).1;
    if is_prefix(p1, p2) {
        if p1.len() == p2.len() {
            assert(p1 =~= p2);
        }
        if yields_book(ev, i1) && yields_book(ev, i2) {
            assert(is_manifest(ev, i1));
            assert(is_manifest(ev, i2));
        } else if yields_book(ev, i1) {
            assert(is_manifest(ev, i1));
            assert(claimed(ev, ev[i2]));
        } else if yields_book(ev, i2) {
            assert(ev[i1] =~= ev[i2].subrange(0, ev[i1].len() as int));
            assert(is_proper_prefix(ev[i1], ev[i2]));
        } else {
            if p1.len() < p2.len() {
                assert(is_proper_prefix(ev[i1], ev[i2]));
            }
        }
    }
}

/// Every discovered book comes from some entry of the listing.
proof fn lemma_discovered_origin(ev: Seq<PathModel>, n: nat)
    requires
        n <= ev.len(),
    ensures
        forall|k: int|
            0 <= k < discovered(ev, n).len() ==> exists|i: int|
                0 <= i < n && result_at(ev, i) == Some(#[trigger] discovered(ev, n)[k]),
    decreases n,
{
    if n > 0 {
        lemma_discovered_origin(ev, (n - 1) as nat);
        let prev = discovered(ev, (n - 1) as nat);
        assert forall|k: int| 0 <= k < discovered(ev, n).len() implies exists|i: int|
            0 <= i < n && result_at(ev, i) == Some(#[trigger] discovered(ev, n)[k]) by {
            if k < prev.len() {
                assert(discovered(ev, n)[k] == prev[k]);
                let i = choose|i: int| 0 <= i < n - 1 && result_at(ev, i) == Some(prev[k]);
                assert(result_at(ev, i) == Some(discovered(ev, n)[k]));
            } else {
                assert(result_at(ev, n - 1) == Some(discovered(ev, n)[k]));
            }
        }
    }
}

/// Discovery never yields two books where one path lies at or under the
/// other: a structured book's directory is claimed whole.
pub proof fn lemma_discovery_disjoint(ev: Seq<PathModel>, n: nat)
    requires
        n <= ev.len(),
    ensures
        forall|a: int, b: int|
            0 <= a < discovered(ev, n).len() && 0 <= b < discovered(ev, n).len() && a != b
                ==> !is_prefix(#[trigger] discovered(ev, n)[a].1, #[trigger] discovered(ev, n)[b].1),
    decreases n,
{
    if n > 0 {
        lemma_discovery_disjoint(ev, (n - 1) as nat);
        lemma_discovered_origin(ev, (n - 1) as nat);
        let prev = discovered(ev, (n - 1) as nat);
        let d = discovered(ev, n);
        assert forall|a: int, b: int|
            0 <= a < d.len() && 0 <= b < d.len() && a != b implies !is_prefix(
            #[trigger] d[a].1,
            #[trigger] d[b].1,
        ) by {
            if a < prev.len() && b < prev.len() {
                assert(d[a] == prev[a] && d[b] == prev[b]);
            } else if a < prev.len() {
                assert(d[a] == prev[a]);
                let i = choose|i: int| 0 <= i < n - 1 && result_at(ev, i) == Some(prev[a]);
                lemma_results_apart(ev, i, n - 1);
            } else {
                assert(d[b] == prev[b]);
                let i = choose|i: int| 0 <= i < n - 1 && result_at(ev, i) == Some(prev[b]);
                lemma_results_apart(ev, n - 1, i);
            }
        }
    }
}

/// No single-file document is discovered at or under the directory of a
/// `book.toml` file.
pub proof fn lemma_documents_outside_books(ev: Seq<PathModel>, n: nat)
    requires
        n <= ev.len(),
    ensures
        forall|a: int, j: int|
            0 <= a < discovered(ev, n).len() && #[trigger] discovered(ev, n)[a].0 == BookType::PDF
                && 0 <= j < ev.len() && #[trigger] is_manifest(ev, j) ==> !is_prefix(
                parent_of(ev[j]),
                discovered(ev, n)[a].1,
            ),
{
    lemma_discovered_origin(ev, n);
    let d = discovered(ev, n);
    assert forall|a: int, j: int|
        0 <= a < d.len() && #[trigger] d[a].0 == BookType::PDF && 0 <= j < ev.len()
            && #[trigger] is_manifest(ev, j) implies !is_prefix(parent_of(ev[j]), d[a].1) by {
        let i = choose|i: int| 0 <= i < n && result_at(ev, i) == Some(d[a]);
        assert(yields_document(ev, i));
    }
}

/// Whether the characters of `s` end with those of `suffix`.
fn has_suffix(s: &str, suffix: &str) -> (r: bool)
    ensures
        r == ends_with(s@, suffix@),
{
    let n = s.unicode_len();
    let m = suffix.unicode_len();
    if m > n {
        return false;
    }
    let mut k: usize = 0;
    while k < m
        invariant
            n == s@.len(),
            m == suffix@.len(),
            m <= n,
            k <= m,
            forall|t: int| 0 <= t < k ==> s@[n - m + t] == suffix@[t],
        decreases m - k,
    {
        if s.get_char(n - m + k) != suffix.get_char(k) {
            proof {
                assert(s@.subrange(n - m, n as int)[k as int] != suffix@[k as int]);
            }
            return false;
        }
        k = k + 1;
    }
    proof {
        assert(s@.subrange(n - m, n as int) =~= suffix@);
    }
    true
}

/// Whether `a` and `b` hold the same characters.
fn same_text(a: &str, b: &str) -> (r: bool)
    ensures
        r == (a@ == b@),
{
    if a.unicode_len() != b.unicode_len() {
        return false;
    }
    let r = has_suffix(a, b);
    proof {
        if r {
            assert(a@ =~= a@.subrange(0, a@.len() as int));
        }
    }
    r
}

/// The kind of book a file marks, given its name already lower-cased.
pub fn classify_lowered_name(name: &str) -> (r: Option<BookType>)
    ensures
        r == classify_lowered(name@),
{
    let manifest = "book.toml";
    let suffix = ".pdf";
    proof {
        reveal_strlit("book.toml");
        reveal_strlit(".pdf");
        assert(manifest@ =~= manifest_name());
        assert(suffix@ =~= document_suffix());
    }
    if same_text(name, manifest) {
        Some(BookType::MDBook)
    } else if has_suffix(name, suffix) {
        Some(BookType::PDF)
    } else {
        None
    }
}

/// The kind of book a file with this name marks, if any; the name is
/// compared without regard to case.
pub fn is_book(file_name: &str) -> (r: Option<BookType>)
    ensures
        r == classify_lowered(lower_of(file_name@)),
{
    let lowered = lowercase(file_name);
    classify_lowered_name(lowered.as_str())
}

/// The kind of book a listed path marks, by its last component.
fn kind_of_entry(p: &BookPath) -> (r: Option<BookType>)
    ensures
        r == entry_kind(p@),
{
    let n = p.components.len();
    if n == 0 {
        None
    } else {
        is_book(p.components[n - 1].as_str())
    }
}

/// For each entry, whether it is a file of the listing (no entry beneath it).
fn leaf_flags(entries: &Vec<BookPath>) -> (r: Vec<bool>)
    ensures
        r@.len() == entries@.len(),
        forall|i: int| 0 <= i < entries@.len() ==> r@[i] == is_leaf(listing_view(entries@), i),
{
    let ghost ev = listing_view(entries@);
    let n = entries.len();
    let mut r: Vec<bool> = Vec::new();
    let mut i: usize = 0;
    while i < n
        invariant
            n == entries@.len(),
            ev == listing_view(entries@),
            i <= n,
            r@.len() == i,
            forall|t: int| 0 <= t < i ==> r@[t] == is_leaf(ev, t),
        decreases n - i,
    {
        let mut leaf = true;
        let mut j: usize = 0;
        while j < n
            invariant
                n == entries@.len(),
                ev == listing_view(entries@),
                i < n,
                j <= n,
                leaf == (forall|t: int| 0 <= t < j ==> !is_proper_prefix(ev[i as int], #[trigger] ev[t])),
            decreases n - j,
        {
            if entries[j].len() > entries[i].len() && entries[j].starts_with(&entries[i]) {
                leaf = false;
            }
            proof {
                assert(ev[j as int] == entries@[j as int]@);
                assert(ev[i as int] == entries@[i as int]@);
            }
            j = j + 1;
        }
        r.push(leaf);
        i = i + 1;
    }
    r
}

/// Whether entry `i` yields a structured book; `manifest` and `dirs` hold,
/// for each entry, whether it is a `book.toml` file and its directory.
fn book_at(entries: &Vec<BookPath>, manifest: &Vec<bool>, dirs: &Vec<BookPath>, i: usize) -> (r: bool)
    requires
        i < entries@.len(),
        manifest@.len() == entries@.len(),
        dirs@.len() == entries@.len(),
        forall|t: int| 0 <= t < entries@.len() ==> manifest@[t] == is_manifest(listing_view(entries@), t),
        forall|t: int| 0 <= t < entries@.len() ==> #[trigger] dirs@[t]@ == parent_of(entries@[t]@),
    ensures
        r == yields_book(listing_view(entries@), i as int),
{
    let ghost ev = listing_view(entries@);
    if !manifest[i] {
        return false;
    }
    let n = entries.len();
    let mut j: usize = 0;
    while j < n
        invariant
            n == entries@.len(),
            ev == listing_view(entries@),
            i < n,
            manifest@.len() == n,
            dirs@.len() == n,
            forall|t: int| 0 <= t < n ==> manifest@[t] == is_manifest(ev, t),
            forall|t: int| 0 <= t < n ==> #[trigger] dirs@[t]@ == parent_of(entries@[t]@),
            j <= n,
            forall|t: int|
                0 <= t < j && #[trigger] is_manifest(ev, t) ==> !is_proper_prefix(
                    parent_of(ev[t]),
                    parent_of(ev[i as int]),
                ),
            forall|t: int|
                0 <= t < j && t < i && #[trigger] is_manifest(ev, t) ==> parent_of(ev[t])
                    != parent_of(ev[i as int]),
        decreases n - j,
    {
        proof {
            assert(ev[j as int] == entries@[j as int]@);
            assert(ev[i as int] == entries@[i as int]@);
            assert(dirs@[j as int]@ == parent_of(entries@[j as int]@));
            assert(dirs@[i as int]@ == parent_of(entries@[i as int]@));
        }
        if manifest[j] {
            if dirs[j].len() < dirs[i].len() && dirs[i].starts_with(&dirs[j]) {
                proof {
                    assert(is_manifest(ev, j as int));
                }
                return false;
            }
            if j < i && dirs[j].same_as(&dirs[i]) {
                proof {
                    assert(is_manifest(ev, j as int));
                }
                return false;
            }
        }
        j = j + 1;
    }
    true
}

/// Whether entry `i` yields a single-file document; `kinds`, `leaf`,
/// `manifest` and `dirs` hold what each entry is.
fn document_at(
    entries: &Vec<BookPath>,
    kinds: &Vec<Option<BookType>>,
    leaf: &Vec<bool>,
    manifest: &Vec<bool>,
    dirs: &Vec<BookPath>,
    i: usize,
) -> (r: bool)
    requires
        i < entries@.len(),
        kinds@.len() == entries@.len(),
        leaf@.len() == entries@.len(),
        manifest@.len() == entries@.len(),
        dirs@.len() == entries@.len(),
        forall|t: int| 0 <= t < entries@.len() ==> kinds@[t] == entry_kind(entries@[t]@),
        forall|t: int| 0 <= t < entries@.len() ==> leaf@[t] == is_leaf(listing_view(entries@), t),
        forall|t: int| 0 <= t < entries@.len() ==> manifest@[t] == is_manifest(listing_view(entries@), t),
        forall|t: int| 0 <= t < entries@.len() ==> #[trigger] dirs@[t]@ == parent_of(entries@[t]@),
    ensures
        r == yields_document(listing_view(entries@), i as int),
{
    let ghost ev = listing_view(entries@);
    proof {
        assert(ev[i as int] == entries@[i as int]@);
    }
    match kinds[i] {
        Some(BookType::PDF) => {},
        _ => {
            return false;
        },
    }
    if !leaf[i] {
        return false;
    }
    let n = entries.len();
    let mut j: usize = 0;
    while j < n
        invariant
            n == entries@.len(),
            ev == listing_view(entries@),
            i < n,
            manifest@.len() == n,
            dirs@.len() == n,
            forall|t: int| 0 <= t < n ==> manifest@[t] == is_manifest(ev, t),
            forall|t: int| 0 <= t < n ==> #[trigger] dirs@[t]@ == parent_of(entries@[t]@),
            j <= n,
            forall|t: int|
                0 <= t < j && #[trigger] is_manifest(ev, t) ==> !is_prefix(
                    parent_of(ev[t]),
                    ev[i as int],
                ),
            forall|t: int| 0 <= t < j && t < i ==> #[trigger] ev[t] != ev[i as int],
        decreases n - j,
    {
        proof {
            assert(ev[j as int] == entries@[j as int]@);
            assert(ev[i as int] == entries@[i as int]@);
            assert(dirs@[j as int]@ == parent_of(entries@[j as int]@));
        }
        if manifest[j] && entries[i].starts_with(&dirs[j]) {
            proof {
                assert(is_manifest(ev, j as int));
                assert(claimed(ev, ev[i as int]));
            }
            return false;
        }
        if j < i && entries[j].same_as(&entries[i]) {
            return false;
        }
        j = j + 1;
    }
    true
}

/// Finds the books among the files listed under a scan root.
///
/// Each `book.toml` file marks its directory as a structured book, unless
/// that directory lies inside another book; each `.pdf` file outside every
/// book directory is a single-file document. Books come in listing order,
/// each once.
pub fn index_books(entries: &Vec<BookPath>) -> (found: Vec<(BookType, BookPath)>)
    ensures
        found_view(found@) == discovered(listing_view(entries@), entries@.len()),
        forall|a: int, b: int|
            0 <= a < found@.len() && 0 <= b < found@.len() && a != b ==> !is_prefix(
                #[trigger] found@[a].1@,
                #[trigger] found@[b].1@,
            ),
        forall|a: int, j: int|
            0 <= a < found@.len() && #[trigger] found@[a].0 == BookType::PDF && 0 <= j
                < entries@.len() && #[trigger] is_manifest(listing_view(entries@), j) ==> !is_prefix(
                parent_of(entries@[j]@),
                found@[a].1@,
            ),
{
    let ghost ev = listing_view(entries@);
    let n = entries.len();
    let leaf = leaf_flags(entries);
    let mut kinds: Vec<Option<BookType>> = Vec::new();
    let mut manifest: Vec<bool> = Vec::new();
    let mut dirs: Vec<BookPath> = Vec::new();
    let mut i: usize = 0;
    while i < n
        invariant
            n == entries@.len(),
            ev == listing_view(entries@),
            leaf@.len() == n,
            forall|t: int| 0 <= t < n ==> leaf@[t] == is_leaf(ev, t),
            i <= n,
            kinds@.len() == i,
            manifest@.len() == i,
            dirs@.len() == i,
            forall|t: int| 0 <= t < i ==> kinds@[t] == entry_kind(entries@[t]@),
            forall|t: int| 0 <= t < i ==> manifest@[t] == is_manifest(ev, t),
            forall|t: int| 0 <= t < i ==> #[trigger] dirs@[t]@ == parent_of(entries@[t]@),
        decreases n - i,
    {
        let kind = kind_of_entry(&entries[i]);
        proof {
            assert(ev[i as int] == entries@[i as int]@);
        }
        let is_manifest_file = match kind {
            Some(BookType::MDBook) => leaf[i],
            _ => false,
        };
        kinds.push(kind);
        manifest.push(is_manifest_file);
        dirs.push(entries[i].parent());
        i = i + 1;
    }
    let mut found: Vec<(BookType, BookPath)> = Vec::new();
    let mut i: usize = 0;
    while i < n
        invariant
            n == entries@.len(),
            ev == listing_view(entries@),
            leaf@.len() == n,
            kinds@.len() == n,
            manifest@.len() == n,
            dirs@.len() == n,
            forall|t: int| 0 <= t < n ==> kinds@[t] == entry_kind(entries@[t]@),
            forall|t: int| 0 <= t < n ==> leaf@[t] == is_leaf(ev, t),
            forall|t: int| 0 <= t < n ==> manifest@[t] == is_manifest(ev, t),
            forall|t: int| 0 <= t < n ==> #[trigger] dirs@[t]@ == parent_of(entries@[t]@),
            i <= n,
            found_view(found@) == discovered(ev, i as nat),
        decreases n - i,
    {
        let ghost before = found@;
        proof {
            assert(ev[i as int] == entries@[i as int]@);
            assert(dirs@[i as int]@ == parent_of(entries@[i as int]@));
        }
        if book_at(entries, &manifest, &dirs, i) {
            found.push((BookType::MDBook, dirs[i].duplicate()));
        } else if document_at(entries, &kinds, &leaf, &manifest, &dirs, i) {
            found.push((BookType::PDF, entries[i].duplicate()));
        }
        proof {
            assert(found_view(found@) =~= discovered(ev, (i + 1) as nat));
        }
        i = i + 1;
    }
    proof {
        lemma_discovery_disjoint(ev, n as nat);
        lemma_documents_outside_books(ev, n as nat);
        assert forall|a: int| 0 <= a < found@.len() implies (#[trigger] found@[a]).1@ == discovered(
            ev,
            n as nat,
        )[a].1 && found@[a].0 == discovered(ev, n as nat)[a].0 by {
            assert(found_view(found@)[a] == (found@[a].0, found@[a].1@));
        }
        assert forall|j: int| 0 <= j < n implies #[trigger] ev[j] == entries@[j]@ by {}
    }
    found
}

} // verus!
