//! Paths as sequences of components, and the isolation of the part of a path
//! that lies beyond a root.
use vstd::prelude::*;

verus! {

/// The abstract form of a path: its components, in order.
pub type PathModel = Seq<Seq<char>>;

/// `a` is a prefix of `b`, component for component.
pub open spec fn is_prefix(a: PathModel, b: PathModel) -> bool {
    a.len() <= b.len() && b.subrange(0, a.len() as int) =~= a
}

/// `a` is a prefix of `b` and strictly shorter: `a` is an ancestor of `b`.
pub open spec fn is_proper_prefix(a: PathModel, b: PathModel) -> bool {
    a.len() < b.len() && is_prefix(a, b)
}

/// The components of a list of strings, each as its characters.
pub open spec fn strings_view(v: Seq<String>) -> PathModel {
    Seq::new(v.len(), |i: int| v[i]@)
}

/// The path without its last component; the empty path stays empty.
pub open spec fn parent_of(p: PathModel) -> PathModel {
    if p.len() == 0 {
        p
    } else {
        p.drop_last()
    }
}

/// A path held as its components (`/`, `home`, `shelf`, `guide`).
#[derive(Debug, Clone, PartialEq, Eq)]
pub struct BookPath {
    pub components: Vec<String>,
}

impl View for BookPath {
    type V = PathModel;

    open spec fn view(&self) -> PathModel {
        strings_view(self.components@)
    }
}

/// The path could not be isolated: it does not lie under the root.
#[derive(Debug, PartialEq, Eq, Structural)]
pub struct PathMismatch;

/// Appends copies of `src[from..]` to `dst`.
fn append_components(dst: &mut Vec<String>, src: &Vec<String>, from: usize)
    requires
        from <= src.len(),
    ensures
        strings_view(final(dst)@) =~= strings_view(old(dst)@) + strings_view(src@).subrange(
            from as int,
            src.len() as int,
        ),
{
    let ghost start = strings_view(dst@);
    let mut i: usize = from;
    while i < src.len()
        invariant
            from <= i <= src.len(),
            strings_view(dst@) =~= start + strings_view(src@).subrange(from as int, i as int),
        decreases src.len() - i,
    {
        let c = src[i].clone();
        let ghost before = dst@;
        dst.push(c);
        proof {
            assert(strings_view(dst@) =~= strings_view(before).push(c@));
        }
        i = i + 1;
    }
}

/// Copies `src[from..]`.
fn copy_components(src: &Vec<String>, from: usize) -> (r: Vec<String>)
    requires
        from <= src.len(),
    ensures
        strings_view(r@) =~= strings_view(src@).subrange(from as int, src.len() as int),
{
    let mut r: Vec<String> = Vec::new();
    append_components(&mut r, src, from);
    r
}

impl BookPath {
    /// The empty path.
    pub fn new() -> (r: BookPath)
        ensures
            r@ == Seq::<Seq<char>>::empty(),
    {
        BookPath { components: Vec::new() }
    }

    /// A path made of the given components.
    pub fn from_components(components: Vec<String>) -> (r: BookPath)
        ensures
            r@ == strings_view(components@),
    {
        BookPath { components }
    }

    /// A copy of this path.
    pub fn duplicate(&self) -> (r: BookPath)
        ensures
            r@ == self@,
    {
        BookPath { components: copy_components(&self.components, 0) }
    }

    /// Number of components.
    pub fn len(&self) -> (r: usize)
        ensures
            r == self@.len(),
    {
        self.components.len()
    }

    /// Whether `base` is a prefix of this path, component for component.
    pub fn starts_with(&self, base: &BookPath) -> (r: bool)
        ensures
            r == is_prefix(base@, self@),
    {
        let n = base.components.len();
        if self.components.len() < n {
            return false;
        }
        let mut i: usize = 0;
        while i < n
            invariant
                n == base@.len(),
                n <= self@.len(),
                i <= n,
                forall|k: int| 0 <= k < i ==> self@[k] == base@[k],
            decreases n - i,
        {
            if self.components[i] != base.components[i] {
                proof {
                    assert(self@.subrange(0, n as int)[i as int] != base@[i as int]);
                }
                return false;
            }
            i = i + 1;
        }
        proof {
            assert(self@.subrange(0, n as int) =~= base@);
        }
        true
    }

    /// Whether the two paths have the same components.
    pub fn same_as(&self, other: &BookPath) -> (r: bool)
        ensures
            r == (self@ == other@),
    {
        if self.components.len() != other.components.len() {
            return false;
        }
        let r = self.starts_with(other);
        proof {
            if r {
                assert(self@ =~= self@.subrange(0, other@.len() as int));
            }
        }
        r
    }

    /// This path followed by the components of `other` (`self / other`).
    pub fn join(&self, other: &BookPath) -> (r: BookPath)
        ensures
            r@ =~= self@ + other@,
    {
        let mut r = copy_components(&self.components, 0);
        append_components(&mut r, &other.components, 0);
        BookPath { components: r }
    }

    /// The path without its last component (the path itself when empty).
    pub fn parent(&self) -> (r: BookPath)
        ensures
            r@ == parent_of(self@),
    {
        if self.components.len() == 0 {
            BookPath::new()
        } else {
            let mut r = copy_components(&self.components, 0);
            r.pop();
            proof {
                assert(strings_view(r@) =~= self@.drop_last());
            }
            BookPath { components: r }
        }
    }
}

/// Strips the scan root off a discovered path, leaving the part that is
/// unique to the book (its partial path).
///
/// The components of `full_path` beyond the length of `source_path` are kept
/// verbatim and in order; the path fails with `PathMismatch` unless
/// `source_path` is a prefix of it, component for component.
pub fn isolate_partial_path(full_path: &BookPath, source_path: &BookPath) -> (r: Result<
    BookPath,
    PathMismatch,
>)
    ensures
        r is Ok <==> is_prefix(source_path@, full_path@),
        r matches Ok(p) ==> p@ == full_path@.subrange(source_path@.len() as int, full_path@.len() as int),
{
    if !full_path.starts_with(source_path) {
        return Err(PathMismatch);
    }
    let n = source_path.components.len();
    Ok(BookPath { components: copy_components(&full_path.components, n) })
}

} // verus!
