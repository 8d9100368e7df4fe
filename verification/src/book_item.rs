//! The catalog entry type (`Book`) and the in-memory catalog (`BookCache`).
//!
//! Two books are considered the same exactly when their titles match
//! (case-sensitive): the title is the catalog's de-facto unique key. The
//! catalog deliberately does not disambiguate same-titled books by author or
//! checksum.

use vstd::prelude::*;

verus! {

/// The mathematical value of a catalog entry: each field as a sequence of
/// characters.
pub struct BookView {
    pub cover_location: Option<Seq<char>>,
    pub book_location: Seq<char>,
    pub title: Seq<char>,
}

/// A catalog entry.
///
/// * `title` — non-empty; the de-facto unique key of the catalog.
/// * `cover_location` — filename (not a full path) of the extracted cover
///   image, relative to the cover cache directory; `None` means "use the
///   default cover image".
/// * `book_location` — filesystem path of the source EPUB file.
pub struct Book {
    cover_location: Option<String>,
    book_location: String,
    title: String,
}

impl View for Book {
    type V = BookView;

    closed spec fn view(&self) -> BookView {
        BookView {
            cover_location: match self.cover_location {
                Some(s) => Some(s@),
                None => None,
            },
            book_location: self.book_location@,
            title: self.title@,
        }
    }
}

impl DeepView for Book {
    type V = BookView;

    open spec fn deep_view(&self) -> BookView {
        self.view()
    }
}

/// A book is well formed when its title is non-empty.
pub open spec fn book_wf(b: BookView) -> bool {
    b.title.len() > 0
}

/// Whether some book in `books` carries exactly the title `t`.
pub open spec fn has_title(books: Seq<BookView>, t: Seq<char>) -> bool {
    exists|i: int| 0 <= i < books.len() && books[i].title == t
}

/// Pushing a book onto a vector pushes its view onto the vector's deep view.
pub proof fn lemma_books_deep_view_push(v1: Vec<Book>, v2: Vec<Book>, b: Book)
    requires
        v2@ == v1@.push(b),
    ensures
        v2.deep_view() == v1.deep_view().push(b@),
{
    assert forall|j: int| 0 <= j < v2@.len() implies v2.deep_view()[j] == v1.deep_view().push(
        b@,
    )[j] by {
        if j < v1@.len() {
            assert(v2@[j] == v1@[j]);
            assert(v1.deep_view()[j] == v1@[j].deep_view());
        } else {
            assert(v2@[j] == b);
        }
    }
    assert(v2.deep_view() =~= v1.deep_view().push(b@));
}

/// Inserting a book into a vector inserts its view into the vector's deep
/// view, at the same position.
pub proof fn lemma_books_deep_view_insert(v1: Vec<Book>, v2: Vec<Book>, k: int, b: Book)
    requires
        0 <= k <= v1@.len(),
        v2@ == v1@.insert(k, b),
    ensures
        v2.deep_view() == v1.deep_view().insert(k, b@),
{
    assert forall|j: int| 0 <= j < v2@.len() implies v2.deep_view()[j] == v1.deep_view().insert(
        k,
        b@,
    )[j] by {
        if j < k {
            assert(v2@[j] == v1@[j]);
            assert(v1.deep_view()[j] == v1@[j].deep_view());
        } else if j == k {
            assert(v2@[j] == b);
        } else {
            assert(v2@[j] == v1@[j - 1]);
            assert(v1.deep_view()[j - 1] == v1@[j - 1].deep_view());
        }
    }
    assert(v2.deep_view() =~= v1.deep_view().insert(k, b@));
}

/// Position `i` holds the first book of `books` titled `t`.
pub open spec fn first_title_match(books: Seq<BookView>, t: Seq<char>, i: int) -> bool {
    &&& 0 <= i < books.len()
    &&& books[i].title == t
    &&& forall|j: int| 0 <= j < i ==> books[j].title != t
}

impl Book {
    /// Builds a catalog record from its parts. Cover resolution and the cover
    /// file write happen elsewhere; this is the final assembly step.
    pub fn new(cover_location: Option<String>, book_location: String, title: String) -> (r: Book)
        requires
            title@.len() > 0,
        ensures
            r@ == (BookView {
                cover_location: match cover_location {
                    Some(s) => Some(s@),
                    None => None,
                },
                book_location: book_location@,
                title: title@,
            }),
            book_wf(r@),
    {
        Book { cover_location, book_location, title }
    }

    pub fn get_title(&self) -> (r: &String)
        ensures
            r@ == self@.title,
    {
        &self.title
    }

    pub fn get_book_location(&self) -> (r: &String)
        ensures
            r@ == self@.book_location,
    {
        &self.book_location
    }

    /// Whether this book carries an extracted cover image of its own.
    pub fn has_cover(&self) -> (r: bool)
        ensures
            r == (self@.cover_location is Some),
    {
        self.cover_location.is_some()
    }

    /// The filename of the stored cover image, or the default cover's name
    /// when this book has no extracted cover.
    pub fn get_cover_filename<'a>(&'a self, default_cover: &'a str) -> (r: &'a str)
        ensures
            r@ == match self@.cover_location {
                Some(c) => c,
                None => default_cover@,
            },
    {
        match &self.cover_location {
            Some(c) => c.as_str(),
            None => default_cover,
        }
    }

    /// Maps this book's `cover_location` to a full filesystem path inside
    /// `covers_dir`, or to the default cover path when there is none.
    pub fn get_cover_location(&self, covers_dir: &str, default_cover: &str) -> (r: String)
        ensures
            r@ == match self@.cover_location {
                Some(c) => covers_dir@ + "/"@ + c,
                None => default_cover@,
            },
    {
        match &self.cover_location {
            Some(c) => {
                let mut out = String::new();
                out.append(covers_dir);
                out.append("/");
                out.append(c.as_str());
                proof {
                    assert(out@ =~= covers_dir@ + "/"@ + c@);
                }
                out
            },
            None => {
                let mut out = String::new();
                out.append(default_cover);
                proof {
                    assert(out@ =~= default_cover@);
                }
                out
            },
        }
    }
}

impl Clone for Book {
    fn clone(&self) -> (r: Book)
        ensures
            r@ == self@,
    {
        Book {
            cover_location: match &self.cover_location {
                Some(s) => Some(s.clone()),
                None => None,
            },
            book_location: self.book_location.clone(),
            title: self.title.clone(),
        }
    }
}

impl PartialEq for Book {
    /// Two books are equal exactly when their titles are equal.
    fn eq(&self, other: &Book) -> (r: bool) {
        self.title == other.title
    }
}

impl vstd::std_specs::cmp::PartialEqSpecImpl for Book {
    open spec fn obeys_eq_spec() -> bool {
        true
    }

    open spec fn eq_spec(&self, other: &Book) -> bool {
        self@.title == other@.title
    }
}

/// The in-memory catalog: the books of the current session, or `None` when no
/// catalog has been loaded yet.
pub struct BookCache {
    books: Option<Vec<Book>>,
}

impl BookCache {
    /// The mathematical contents of the cache.
    pub closed spec fn spec_books(&self) -> Option<Seq<BookView>> {
        match self.books {
            Some(v) => Some(v.deep_view()),
            None => None,
        }
    }

    pub fn new(books: Option<Vec<Book>>) -> (r: BookCache)
        ensures
            r.spec_books() == match books {
                Some(v) => Some(v.deep_view()),
                None => None::<Seq<BookView>>,
            },
    {
        BookCache { books }
    }

    pub fn update_books(&mut self, new_books: Option<Vec<Book>>)
        ensures
            final(self).spec_books() == match new_books {
                Some(v) => Some(v.deep_view()),
                None => None::<Seq<BookView>>,
            },
    {
        self.books = new_books;
    }

    /// How many books the catalog currently holds; an absent catalog counts
    /// as zero.
    pub fn get_book_amount(&self) -> (r: usize)
        ensures
            r == match self.spec_books() {
                Some(s) => s.len(),
                None => 0,
            },
    {
        match &self.books {
            Some(books) => books.len(),
            None => 0,
        }
    }

    pub fn get_books(&self) -> (r: Option<&Vec<Book>>)
        ensures
            match r {
                Some(v) => self.spec_books() == Some(v.deep_view()),
                None => self.spec_books() is None,
            },
    {
        self.books.as_ref()
    }

    /// Looks the catalog up by exact title match, returning the first book
    /// whose title equals `title`, or `None` when no title matches (or no
    /// catalog is loaded).
    pub fn find_by_title(&self, title: &str) -> (r: Option<&Book>)
        ensures
            match r {
                Some(b) => {
                    &&& self.spec_books() is Some
                    &&& b@.title == title@
                    &&& exists|i: int|
                        first_title_match(self.spec_books()->Some_0, title@, i)
                            && b@ == self.spec_books()->Some_0[i]
                },
                None => match self.spec_books() {
                    Some(s) => !has_title(s, title@),
                    None => true,
                },
            },
    {
        match &self.books {
            Some(books) => {
                let ghost s = books.deep_view();
                let n = books.len();
                let mut i: usize = 0;
                while i < n
                    invariant
                        n == books.len(),
                        s == books.deep_view(),
                        self.spec_books() == Some(s),
                        i <= n,
                        forall|j: int| 0 <= j < i ==> s[j].title != title@,
                    decreases n - i,
                {
                    if crate::util::str_eq(books[i].title.as_str(), title) {
                        let r = &books[i];
                        proof {
                            assert(books[i as int]@ == s[i as int]);
                            assert(first_title_match(self.spec_books()->Some_0, title@, i as int));
                            assert(r@ == self.spec_books()->Some_0[i as int]);
                        }
                        return Some(r);
                    }
                    i = i + 1;
                }
                assert(!has_title(s, title@));
                None
            },
            None => None,
        }
    }
}

} // verus!
