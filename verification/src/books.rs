//! Books and the index that holds them under their identifiers.

use vstd::prelude::*;

verus! {

/// Milliseconds in one second.
pub const MILLIS_PER_SECOND: u64 = 1000;

/// Seconds in one minute.
pub const SECONDS_PER_MINUTE: u64 = 60;

/// The longest reading time, in minutes, that a book can have.
pub const MAX_READ_MINUTES: u64 = 307445734561825;

/// Whole minutes contained in a reading time given in milliseconds.
pub open spec fn minutes_of(read_time_raw: u64) -> nat {
    ((read_time_raw as nat) / 1000) / 60
}

/// A book: its identifier, its reading time in milliseconds and its content,
/// a fragment of a document that is copied into a catalog as it stands.
#[derive(Clone, Debug)]
pub struct Book {
    pub id: String,
    pub read_time_raw: u64,
    pub content: String,
}

/// What a [`Book`] holds, as mathematical values.
pub struct BookView {
    pub id: Seq<char>,
    pub read_time_raw: u64,
    pub content: Seq<char>,
}

impl BookView {
    /// The reading time in whole minutes.
    pub open spec fn read_minutes(self) -> nat {
        minutes_of(self.read_time_raw)
    }
}

impl View for Book {
    type V = BookView;

    open spec fn view(&self) -> BookView {
        BookView { id: self.id@, read_time_raw: self.read_time_raw, content: self.content@ }
    }
}

impl Book {
    pub fn new(id: String, read_time_raw: u64, content: String) -> (book: Book)
        ensures
            book@ == (BookView { id: id@, read_time_raw, content: content@ }),
    {
        Book { id, read_time_raw, content }
    }

    /// The reading time in whole minutes, rounded down.
    pub fn read_time(&self) -> (minutes: u64)
        ensures
            minutes == self@.read_minutes(),
            minutes <= MAX_READ_MINUTES,
    {
        (self.read_time_raw / MILLIS_PER_SECOND) / SECONDS_PER_MINUTE
    }
}

/// The views of a sequence of books, in the same order.
pub open spec fn book_views(books: Seq<Book>) -> Seq<BookView> {
    books.map_values(|b: Book| b@)
}

/// No two books of the sequence share an identifier.
pub open spec fn distinct_ids(books: Seq<BookView>) -> bool {
    forall|i: int, j: int|
        0 <= i < j < books.len() ==> (#[trigger] books[i]).id != (#[trigger] books[j]).id
}

/// Some book of the sequence has the identifier `id`.
pub open spec fn has_id(books: Seq<BookView>, id: Seq<char>) -> bool {
    exists|i: int| 0 <= i < books.len() && (#[trigger] books[i]).id == id
}

/// The book of the sequence that has the identifier `id`, if there is one.
pub open spec fn lookup(books: Seq<BookView>, id: Seq<char>) -> Option<BookView> {
    if has_id(books, id) {
        Some(books[choose|i: int| 0 <= i < books.len() && (#[trigger] books[i]).id == id])
    } else {
        None
    }
}

/// In a sequence of distinct identifiers, the book found at a position is the
/// one that `lookup` gives for its identifier.
pub proof fn lemma_lookup_at(books: Seq<BookView>, i: int)
    requires
        distinct_ids(books),
        0 <= i < books.len(),
    ensures
        lookup(books, books[i].id) == Some(books[i]),
{
    let id = books[i].id;
    assert(has_id(books, id));
    let j = choose|j: int| 0 <= j < books.len() && (#[trigger] books[j]).id == id;
    if j < i {
        assert(books[j].id != books[i].id);
    } else if i < j {
        assert(books[i].id != books[j].id);
    }
}

/// The books known to a run, each under its own identifier, in the order in
/// which they were first inserted.
pub struct BookIndex {
    books: Vec<Book>,
}

impl View for BookIndex {
    type V = Seq<BookView>;

    closed spec fn view(&self) -> Seq<BookView> {
        book_views(self.books@)
    }
}

impl BookIndex {
    /// Identifiers are unique within an index.
    #[verifier::type_invariant]
    pub open spec fn well_formed(&self) -> bool {
        distinct_ids(self@)
    }

    /// An index without books.
    pub fn new() -> (index: BookIndex)
        ensures
            index@ == Seq::<BookView>::empty(),
    {
        let index = BookIndex { books: Vec::new() };
        assert(index@ =~= Seq::<BookView>::empty());
        index
    }

    /// The number of books.
    pub fn len(&self) -> (n: usize)
        ensures
            n == self@.len(),
    {
        self.books.len()
    }

    /// The position of the book with the identifier `id`.
    fn position(&self, id: &String) -> (found: Option<usize>)
        ensures
            found is Some <==> has_id(self@, id@),
            found matches Some(i) ==> i < self@.len() && self@[i as int].id == id@,
    {
        let mut i: usize = 0;
        while i < self.books.len()
            invariant
                i <= self.books.len(),
                self@.len() == self.books.len(),
                forall|k: int| 0 <= k < i ==> (#[trigger] self@[k]).id != id@,
            decreases self.books.len() - i,
        {
            assert(self@[i as int] == self.books[i as int]@);
            if self.books[i].id == *id {
                return Some(i);
            }
            i += 1;
        }
        None
    }

    /// The book with the identifier `id`, if the index holds one.
    pub fn get(&self, id: &String) -> (found: Option<&Book>)
        ensures
            match found {
                Some(book) => lookup(self@, id@) == Some(book@),
                None => lookup(self@, id@) is None,
            },
    {
        match self.position(id) {
            Some(i) => {
                proof {
                    use_type_invariant(self);
                    lemma_lookup_at(self@, i as int);
                }
                Some(&self.books[i])
            },
            None => None,
        }
    }

    /// Whether the index holds a book with the identifier `id`.
    pub fn contains(&self, id: &String) -> (held: bool)
        ensures
            held == has_id(self@, id@),
    {
        self.position(id).is_some()
    }

    /// The book at position `i`, if the index holds that many.
    pub fn book_at(&self, i: usize) -> (found: Option<&Book>)
        ensures
            match found {
                Some(book) => i < self@.len() && book@ == self@[i as int],
                None => i >= self@.len(),
            },
    {
        if i < self.books.len() {
            Some(&self.books[i])
        } else {
            None
        }
    }

    /// Puts `book` into the index. A book already held under the same
    /// identifier is replaced where it stands; a new one goes to the end.
    pub fn insert(&mut self, book: Book)
        ensures
            has_id(old(self)@, book@.id) ==> exists|i: int|
                0 <= i < old(self)@.len() && (#[trigger] old(self)@[i]).id == book@.id && final(self)@
                    == old(self)@.update(i, book@),
            !has_id(old(self)@, book@.id) ==> final(self)@ == old(self)@.push(book@),
    {
        proof {
            use_type_invariant(&*self);
        }
        let found = self.position(&book.id);
        let ghost before = self@;
        let ghost added = book@;
        let mut books: Vec<Book> = Vec::new();
        core::mem::swap(&mut books, &mut self.books);
        assert(book_views(books@) == before);
        match found {
            Some(i) => {
                books[i] = book;
                assert(book_views(books@) =~= before.update(i as int, added));
            },
            None => {
                books.push(book);
                assert(book_views(books@) =~= before.push(added));
            },
        }
        assert(distinct_ids(book_views(books@))) by {
            let after = book_views(books@);
            assert forall|a: int, b: int| 0 <= a < b < after.len() implies (#[trigger] after[a]).id
                != (#[trigger] after[b]).id by {
                if a < before.len() && b < before.len() {
                    assert(before[a].id != before[b].id);
                }
            }
        }
        core::mem::swap(&mut books, &mut self.books);
    }
}

} // verus!
