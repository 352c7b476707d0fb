//! The assembly of a catalog: the model of a tour through the libraries,
//! and the functions that make one, from given draws or at random.

use vstd::prelude::*;
use crate::books::{has_id, lookup, Book, BookIndex, BookView, MAX_READ_MINUTES};
use crate::catalog_proofs::{
    accounted, cadence_kept, capacity, contents_kept, last_wanted, lemma_tour, window_kept,
};
use crate::errors::CatalogError;
use crate::library::{library_views, Library, LibraryView};
use crate::random::random_below;
use crate::selection::{eligible, forbidden, lemma_eligible, pick, pick_any};
use vstd::arithmetic::div_mod::lemma_small_mod;

verus! {

/// What one assembly has gathered so far, as mathematical values: the
/// minutes of reading gathered, the minutes that do not count towards the
/// requested time, the identifiers picked and the contents gathered, both in
/// the order in which they came.
pub struct SessionView {
    pub total: nat,
    pub skip: nat,
    pub history: Seq<Seq<char>>,
    pub items: Seq<Seq<char>>,
}

/// What an assembly works from, besides the libraries: the books, the
/// holiday books, the minutes of reading asked for, after how many other
/// books a holiday book is due, if at all, and whether a book of a library
/// is barred from being picked again too soon.
pub struct Request {
    pub books: Seq<BookView>,
    pub holiday: Seq<BookView>,
    pub requested: nat,
    pub frequency: Option<u32>,
    pub non_repeated: bool,
}

/// The assembly that has gathered nothing yet.
pub open spec fn fresh() -> SessionView {
    SessionView { total: 0, skip: 0, history: Seq::empty(), items: Seq::empty() }
}

/// Reading time is still wanted: the minutes that count are fewer than
/// those asked for.
pub open spec fn budget_open(s: SessionView, requested: nat) -> bool {
    s.total - s.skip < requested
}

/// No further library is visited: with something gathered, the minutes that
/// count have reached those asked for; with nothing gathered, all minutes
/// have.
pub open spec fn budget_met(s: SessionView, requested: nat) -> bool {
    if s.items.len() > 0 {
        s.total - s.skip >= requested
    } else {
        s.total >= requested
    }
}

/// Whether the next pick, after `picks` picks, is a holiday book: a
/// frequency `f` is set and `picks` is a multiple of `f + 1`.
pub open spec fn holiday_due(picks: nat, frequency: Option<u32>) -> bool {
    match frequency {
        Some(f) => picks % (f as nat + 1) == 0,
        None => false,
    }
}

/// The assembly and the minutes used of the visit after the holiday book
/// `book` was drawn: a book without reading time changes nothing; another
/// is picked, and the first of them sets the minutes that do not count.
pub open spec fn with_holiday(s: SessionView, used: nat, book: BookView) -> (SessionView, nat) {
    let minutes = book.read_minutes();
    if minutes > 0 {
        (
            SessionView {
                total: s.total + minutes,
                skip: if s.skip == 0 {
                    minutes
                } else {
                    s.skip
                },
                history: s.history.push(book.id),
                items: s.items.push(book.content),
            },
            used + minutes,
        )
    } else {
        (s, used)
    }
}

/// The assembly and the minutes used of the visit after the book `book` of
/// the library was picked under the identifier `id`.
pub open spec fn with_regular(s: SessionView, used: nat, id: Seq<char>, book: BookView) -> (
    SessionView,
    nat,
) {
    (
        SessionView {
            total: s.total + book.read_minutes(),
            skip: s.skip,
            history: s.history.push(id),
            items: s.items.push(book.content),
        },
        used + book.read_minutes(),
    )
}

/// Every book that the library names is among `books`.
pub open spec fn known(books: Seq<BookView>, library: LibraryView) -> bool {
    forall|k: int|
        0 <= k < library.book_ids.len() ==> has_id(books, #[trigger] library.book_ids[k])
}

/// The book of a library that the draw `draw` picks: among those that may
/// follow the history where books are not to be repeated, among all that
/// the library names otherwise.
pub open spec fn pick_in(library: LibraryView, history: Seq<Seq<char>>, r: Request, draw: nat) -> Option<
    Seq<char>,
> {
    if r.non_repeated {
        pick(library.book_ids, history, draw)
    } else {
        pick_any(library.book_ids, draw)
    }
}

/// One pick in the library `library`, decided by the draw `draw`. Where a
/// holiday book is due, it is the holiday book at position `draw` modulo
/// their number. Otherwise it is the book of the library that `draw`
/// picks.
pub open spec fn step(s: SessionView, used: nat, library: LibraryView, r: Request, draw: nat) -> Result<
    (SessionView, nat),
    CatalogError,
>
    recommends
        known(r.books, library),
{
    if holiday_due(s.history.len(), r.frequency) {
        if r.holiday.len() == 0 {
            Err(CatalogError::NoHolidayBook)
        } else {
            Ok(with_holiday(s, used, r.holiday[(draw % r.holiday.len()) as int]))
        }
    } else {
        match pick_in(library, s.history, r, draw) {
            None => Err(CatalogError::NoEligibleBook),
            Some(id) => Ok(with_regular(s, used, id, lookup(r.books, id).unwrap())),
        }
    }
}

/// One visit to `library`, of which `used` minutes are used: picks are made,
/// one for each draw, while the visit is shorter than the library's opening
/// hours and reading time is still wanted. Gives the assembly on leaving
/// and the draws not used.
pub open spec fn visit(s: SessionView, used: nat, library: LibraryView, r: Request, draws: Seq<nat>) -> Result<
    (SessionView, Seq<nat>),
    CatalogError,
>
    decreases draws.len(),
{
    if !(used < library.span() && budget_open(s, r.requested)) {
        Ok((s, draws))
    } else if draws.len() == 0 {
        Err(CatalogError::DrawsExhausted)
    } else {
        match step(s, used, library, r, draws.first()) {
            Err(e) => Err(e),
            Ok((next, now_used)) => visit(next, now_used, library, r, draws.drop_first()),
        }
    }
}

/// The visits to `libraries`, one after the other in their order, until
/// none is left or no further one is wanted.
pub open spec fn tour(s: SessionView, libraries: Seq<LibraryView>, r: Request, draws: Seq<nat>) -> Result<
    SessionView,
    CatalogError,
>
    decreases libraries.len(),
{
    if libraries.len() == 0 || budget_met(s, r.requested) {
        Ok(s)
    } else {
        match visit(s, 0, libraries.first(), r, draws) {
            Err(e) => Err(e),
            Ok((next, rest)) => tour(next, libraries.drop_first(), r, rest),
        }
    }
}

/// Every book that one of the libraries names is among `books`.
pub open spec fn all_known(books: Seq<BookView>, libraries: Seq<LibraryView>) -> bool {
    forall|i: int| 0 <= i < libraries.len() ==> known(books, #[trigger] libraries[i])
}

/// Whether every book that the library names is among `books`.
pub fn knows_books_of(books: &BookIndex, library: &Library) -> (all: bool)
    ensures
        all == known(books@, library@),
{
    let ids = library.book_ids();
    let mut k: usize = 0;
    while k < ids.len()
        invariant
            k <= ids.len(),
            ids.deep_view() == library@.book_ids,
            forall|j: int| 0 <= j < k ==> has_id(books@, #[trigger] library@.book_ids[j]),
        decreases ids.len() - k,
    {
        assert(ids.deep_view()[k as int] == ids[k as int]@);
        if !books.contains(&ids[k]) {
            return false;
        }
        k += 1;
    }
    true
}

/// Whether every book that one of the libraries names is among `books`.
pub fn knows_all_books(books: &BookIndex, libraries: &Vec<Library>) -> (all: bool)
    ensures
        all == all_known(books@, library_views(libraries@)),
{
    let ghost views = library_views(libraries@);
    let mut i: usize = 0;
    while i < libraries.len()
        invariant
            i <= libraries.len(),
            views == library_views(libraries@),
            forall|j: int| 0 <= j < i ==> known(books@, #[trigger] views[j]),
        decreases libraries.len() - i,
    {
        assert(views[i as int] == libraries[i as int]@);
        if !knows_books_of(books, &libraries[i]) {
            return false;
        }
        i += 1;
    }
    true
}

/// The views of the libraries of a tour, in the same order.
pub open spec fn tour_views(libraries: Seq<&Library>) -> Seq<LibraryView> {
    libraries.map_values(|l: &Library| l@)
}

/// The draws of a script as natural numbers.
pub open spec fn script(draws: Seq<usize>) -> Seq<nat> {
    draws.map_values(|d: usize| d as nat)
}

/// What one assembly has gathered: the contents of the books picked, the
/// identifiers picked, the minutes of reading gathered, and the minutes of
/// the first holiday book, which do not count towards the requested time.
#[derive(Debug)]
pub struct Session {
    pub items: Vec<String>,
    pub history: Vec<String>,
    pub total_minutes: u64,
    pub skip_minutes: u64,
}

impl View for Session {
    type V = SessionView;

    open spec fn view(&self) -> SessionView {
        SessionView {
            total: self.total_minutes as nat,
            skip: self.skip_minutes as nat,
            history: self.history.deep_view(),
            items: self.items.deep_view(),
        }
    }
}

/// The contents among the first `n` gathered that belong to a pick of a
/// book of `books` with a reading time of a minute or more, in their order.
pub open spec fn read_contents(s: SessionView, books: Seq<BookView>, n: nat) -> Seq<Seq<char>>
    decreases n,
{
    if n == 0 {
        Seq::empty()
    } else {
        let earlier = read_contents(s, books, (n - 1) as nat);
        let k = n - 1;
        if k < s.history.len() && k < s.items.len() && (lookup(books, s.history[k]) matches Some(
            book,
        ) && book.read_minutes() > 0) {
            earlier.push(s.items[k])
        } else {
            earlier
        }
    }
}

/// The outcome of an assembly as mathematical values.
pub open spec fn outcome_view(outcome: Result<Session, CatalogError>) -> Result<
    SessionView,
    CatalogError,
> {
    match outcome {
        Ok(session) => Ok(session@),
        Err(e) => Err(e),
    }
}

impl Session {
    /// The minutes that do not count are among those gathered, and are no
    /// more than one book can have.
    pub open spec fn sound(&self) -> bool {
        self.skip_minutes <= self.total_minutes && self.skip_minutes <= MAX_READ_MINUTES
    }

    /// An assembly that has gathered nothing yet.
    pub fn new() -> (session: Session)
        ensures
            session@ == fresh(),
            session.sound(),
    {
        let session = Session {
            items: Vec::new(),
            history: Vec::new(),
            total_minutes: 0,
            skip_minutes: 0,
        };
        assert(session.items.deep_view() =~= Seq::<Seq<char>>::empty());
        assert(session.history.deep_view() =~= Seq::<Seq<char>>::empty());
        session
    }

    /// Whether reading time is still wanted.
    pub fn wants_more(&self, requested_minutes: u32) -> (open: bool)
        ensures
            open == budget_open(self@, requested_minutes as nat),
    {
        self.total_minutes < self.skip_minutes || self.total_minutes - self.skip_minutes
            < requested_minutes as u64
    }

    /// Whether no further library is to be visited.
    pub fn is_filled(&self, requested_minutes: u32) -> (met: bool)
        ensures
            met == budget_met(self@, requested_minutes as nat),
    {
        if self.items.len() > 0 {
            self.total_minutes >= self.skip_minutes && self.total_minutes - self.skip_minutes
                >= requested_minutes as u64
        } else {
            self.total_minutes >= requested_minutes as u64
        }
    }

    /// The contents gathered for the picks of books of `books` with a
    /// reading time of a minute or more, in their order.
    pub fn read_items(&self, books: &BookIndex) -> (kept: Vec<String>)
        ensures
            kept.deep_view() == read_contents(self@, books@, self@.items.len()),
    {
        let mut kept: Vec<String> = Vec::new();
        let mut k: usize = 0;
        assert(kept.deep_view() =~= Seq::<Seq<char>>::empty());
        while k < self.items.len()
            invariant
                k <= self.items.len(),
                kept.deep_view() == read_contents(self@, books@, k as nat),
            decreases self.items.len() - k,
        {
            let ghost earlier = kept.deep_view();
            if k < self.history.len() {
                assert(self@.history[k as int] == self.history[k as int]@);
                assert(self@.items[k as int] == self.items[k as int]@);
                match books.get(&self.history[k]) {
                    Some(book) => {
                        if book.read_time() > 0 {
                            kept.push(self.items[k].clone());
                            assert(kept.deep_view() =~= earlier.push(self@.items[k as int]));
                        }
                    },
                    None => {},
                }
            }
            k += 1;
        }
        kept
    }

    /// Takes in the holiday book `book` during a visit of which `used`
    /// minutes are used, and gives the minutes used after it.
    fn take_holiday(&mut self, used: u64, book: &Book, requested_minutes: u32) -> (now_used: u64)
        requires
            old(self).sound(),
            budget_open(old(self)@, requested_minutes as nat),
            used <= old(self).total_minutes,
        ensures
            (final(self)@, now_used as nat) == with_holiday(old(self)@, used as nat, book@),
            final(self).sound(),
            now_used <= final(self).total_minutes,
    {
        let minutes = book.read_time();
        if minutes > 0 {
            let ghost history = self.history.deep_view();
            let ghost items = self.items.deep_view();
            self.history.push(book.id.clone());
            self.items.push(book.content.clone());
            self.total_minutes = self.total_minutes + minutes;
            if self.skip_minutes == 0 {
                self.skip_minutes = minutes;
            }
            assert(self.history.deep_view() =~= history.push(book@.id));
            assert(self.items.deep_view() =~= items.push(book@.content));
            used + minutes
        } else {
            used
        }
    }

    /// Takes in the book `book` of a library, whose identifier has just been
    /// appended to the history, during a visit of which `used` minutes are
    /// used, and gives the minutes used after it.
    fn take_regular(&mut self, used: u64, book: &Book, requested_minutes: u32) -> (now_used: u64)
        requires
            old(self).sound(),
            budget_open(old(self)@, requested_minutes as nat),
            used <= old(self).total_minutes,
        ensures
            final(self)@ == (SessionView {
                total: old(self)@.total + book@.read_minutes(),
                skip: old(self)@.skip,
                history: old(self)@.history,
                items: old(self)@.items.push(book@.content),
            }),
            now_used == used + book@.read_minutes(),
            final(self).sound(),
            now_used <= final(self).total_minutes,
    {
        let minutes = book.read_time();
        let ghost items = self.items.deep_view();
        self.items.push(book.content.clone());
        self.total_minutes = self.total_minutes + minutes;
        assert(self.items.deep_view() =~= items.push(book@.content));
        used + minutes
    }

    /// Whether the next pick is a holiday book.
    fn holiday_is_due(&self, repeat_frequency: Option<u32>) -> (due: bool)
        ensures
            due == holiday_due(self@.history.len(), repeat_frequency),
    {
        match repeat_frequency {
            Some(f) => (self.history.len() as u64) % (f as u64 + 1) == 0,
            None => false,
        }
    }

    /// Makes the pick that the draw `draw` decides, in the library
    /// `library`, during a visit of which `used` minutes are used, and gives
    /// the minutes used after it.
    fn advance(
        &mut self,
        library: &Library,
        books: &BookIndex,
        holiday_books: &BookIndex,
        requested_minutes: u32,
        repeat_frequency: Option<u32>,
        non_repeated: bool,
        used: u64,
        draw: usize,
    ) -> (now_used: Result<u64, CatalogError>)
        requires
            old(self).sound(),
            budget_open(old(self)@, requested_minutes as nat),
            used <= old(self).total_minutes,
            known(books@, library@),
        ensures
            match now_used {
                Ok(minutes) => step(
                    old(self)@,
                    used as nat,
                    library@,
                    request(
                        books@,
                        holiday_books@,
                        requested_minutes,
                        repeat_frequency,
                        non_repeated,
                    ),
                    draw as nat,
                ) == Ok::<(SessionView, nat), CatalogError>((final(self)@, minutes as nat))
                    && final(self).sound() && minutes <= final(self).total_minutes,
                Err(e) => step(
                    old(self)@,
                    used as nat,
                    library@,
                    request(
                        books@,
                        holiday_books@,
                        requested_minutes,
                        repeat_frequency,
                        non_repeated,
                    ),
                    draw as nat,
                ) == Err::<(SessionView, nat), CatalogError>(e),
            },
    {
        if self.holiday_is_due(repeat_frequency) {
            let count = holiday_books.len();
            if count == 0 {
                return Err(CatalogError::NoHolidayBook);
            }
            match holiday_books.book_at(draw % count) {
                Some(book) => Ok(self.take_holiday(used, book, requested_minutes)),
                None => Ok(used),
            }
        } else {
            let ghost history = self.history.deep_view();
            let picked = if non_repeated {
                library.choose_non_repeated(&mut self.history, draw)
            } else {
                library.choose_any(&mut self.history, draw)
            };
            match picked {
                Err(e) => Err(e),
                Ok(id) => {
                    proof {
                        lemma_picked_is_known(books@, library@, history, draw as nat);
                        lemma_any_is_known(books@, library@, draw as nat);
                    }
                    match books.get(&id) {
                        Some(book) => Ok(self.take_regular(used, book, requested_minutes)),
                        None => Ok(used),
                    }
                },
            }
        }
    }

    /// Makes one pick at random in the library `library`, during a visit of
    /// which `used` minutes are used, and gives the minutes used after it.
    /// Whatever was drawn, the pick is one that some draw decides.
    fn advance_at_random(
        &mut self,
        library: &Library,
        books: &BookIndex,
        holiday_books: &BookIndex,
        requested_minutes: u32,
        repeat_frequency: Option<u32>,
        non_repeated: bool,
        used: u64,
    ) -> (now_used: Result<u64, CatalogError>)
        requires
            old(self).sound(),
            budget_open(old(self)@, requested_minutes as nat),
            used <= old(self).total_minutes,
            known(books@, library@),
        ensures
            exists|draw: nat|
                match now_used {
                    Ok(minutes) => #[trigger] step(
                        old(self)@,
                        used as nat,
                        library@,
                        request(
                            books@,
                            holiday_books@,
                            requested_minutes,
                            repeat_frequency,
                            non_repeated,
                        ),
                        draw,
                    ) == Ok::<(SessionView, nat), CatalogError>((final(self)@, minutes as nat)),
                    Err(e) => step(
                        old(self)@,
                        used as nat,
                        library@,
                        request(
                            books@,
                            holiday_books@,
                            requested_minutes,
                            repeat_frequency,
                            non_repeated,
                        ),
                        draw,
                    ) == Err::<(SessionView, nat), CatalogError>(e),
                },
            now_used matches Ok(minutes) ==> final(self).sound() && minutes <= final(self).total_minutes,
    {
        let ghost r = request(
            books@,
            holiday_books@,
            requested_minutes,
            repeat_frequency,
            non_repeated,
        );
        let ghost before = self@;
        if self.holiday_is_due(repeat_frequency) {
            let count = holiday_books.len();
            if count == 0 {
                assert(step(before, used as nat, library@, r, 0) == Err::<
                    (SessionView, nat),
                    CatalogError,
                >(CatalogError::NoHolidayBook));
                return Err(CatalogError::NoHolidayBook);
            }
            let at = random_below(count);
            match holiday_books.book_at(at) {
                Some(book) => {
                    let minutes = self.take_holiday(used, book, requested_minutes);
                    proof {
                        lemma_small_mod(at as nat, count as nat);
                        assert(step(before, used as nat, library@, r, at as nat) == Ok::<
                            (SessionView, nat),
                            CatalogError,
                        >((self@, minutes as nat)));
                    }
                    Ok(minutes)
                },
                None => Ok(used),
            }
        } else {
            let picked = if non_repeated {
                library.get_non_repeated_book(&mut self.history)
            } else {
                library.get_rand_book(&mut self.history)
            };
            match picked {
                Err(e) => {
                    assert(step(before, used as nat, library@, r, 0) == Err::<
                        (SessionView, nat),
                        CatalogError,
                    >(e));
                    Err(e)
                },
                Ok(id) => {
                    let ghost candidates = if non_repeated {
                        eligible(library@.book_ids, forbidden(before.history))
                    } else {
                        library@.book_ids
                    };
                    let ghost at = choose|k: int|
                        0 <= k < candidates.len() && candidates[k] == id@;
                    proof {
                        lemma_small_mod(at as nat, candidates.len());
                        assert(pick_in(library@, before.history, r, at as nat) == Some(id@));
                        lemma_picked_is_known(books@, library@, before.history, at as nat);
                        lemma_any_is_known(books@, library@, at as nat);
                    }
                    match books.get(&id) {
                        Some(book) => {
                            let minutes = self.take_regular(used, book, requested_minutes);
                            assert(step(before, used as nat, library@, r, at as nat) == Ok::<
                                (SessionView, nat),
                                CatalogError,
                            >((self@, minutes as nat)));
                            Ok(minutes)
                        },
                        None => Ok(used),
                    }
                },
            }
        }
    }
}

/// What an assembly works from, put together.
pub open spec fn request(
    books: Seq<BookView>,
    holiday: Seq<BookView>,
    requested_minutes: u32,
    repeat_frequency: Option<u32>,
    non_repeated: bool,
) -> Request {
    Request {
        books,
        holiday,
        requested: requested_minutes as nat,
        frequency: repeat_frequency,
        non_repeated,
    }
}

/// A book picked in a library is one that the library names and the
/// history does not bar; where the library's books are all known, it is
/// known.
pub proof fn lemma_picked_is_known(
    books: Seq<BookView>,
    library: LibraryView,
    history: Seq<Seq<char>>,
    draw: nat,
)
    ensures
        pick(library.book_ids, history, draw) matches Some(id) ==> {
            &&& library.book_ids.contains(id)
            &&& !forbidden(history).contains(id)
            &&& known(books, library) ==> has_id(books, id)
        },
{
    let candidates = eligible(library.book_ids, forbidden(history));
    lemma_eligible(library.book_ids, forbidden(history));
    if candidates.len() > 0 {
        let at = (draw % candidates.len()) as int;
        let id = candidates[at];
        assert(candidates.contains(id));
        assert(library.book_ids.contains(id));
        if known(books, library) {
            let k = choose|k: int| 0 <= k < library.book_ids.len() && library.book_ids[k] == id;
            assert(has_id(books, library.book_ids[k]));
        }
    }
}

/// A book picked in a library with no regard to the history is one that
/// the library names; where the library's books are all known, it is known.
pub proof fn lemma_any_is_known(books: Seq<BookView>, library: LibraryView, draw: nat)
    ensures
        pick_any(library.book_ids, draw) matches Some(id) ==> {
            &&& library.book_ids.contains(id)
            &&& known(books, library) ==> has_id(books, id)
        },
{
    if library.book_ids.len() > 0 {
        let at = (draw % library.book_ids.len()) as int;
        assert(library.book_ids.contains(library.book_ids[at]));
        if known(books, library) {
            assert(has_id(books, library.book_ids[at]));
        }
    }
}

/// Assembles a catalog from the given draws: visits the libraries in their
/// order and lets each draw, in turn, decide one pick. With `non_repeated`
/// a book of a library is not picked again too soon; without it any book
/// of the library may be picked. Fails where a pick has no book to fall on,
/// or where a draw is needed and none is left.
pub fn assemble_scripted(
    open_libraries: &Vec<&Library>,
    books: &BookIndex,
    holiday_books: &BookIndex,
    requested_minutes: u32,
    repeat_frequency: Option<u32>,
    non_repeated: bool,
    draws: &Vec<usize>,
) -> (outcome: Result<Session, CatalogError>)
    requires
        all_known(books@, tour_views(open_libraries@)),
    ensures
        outcome_view(outcome) == tour(
            fresh(),
            tour_views(open_libraries@),
            request(
                books@,
                holiday_books@,
                requested_minutes,
                repeat_frequency,
                non_repeated,
            ),
            script(draws@),
        ),
        outcome matches Ok(session) ==> {
            &&& session@.total - session@.skip >= requested_minutes || session@.total >= capacity(
                tour_views(open_libraries@),
            )
            &&& cadence_kept(
                session@.history,
                0,
                tour_views(open_libraries@),
                request(
                    books@,
                    holiday_books@,
                    requested_minutes,
                    repeat_frequency,
                    non_repeated,
                ),
            )
            &&& window_kept(
                session@.history,
                0,
                request(
                    books@,
                    holiday_books@,
                    requested_minutes,
                    repeat_frequency,
                    non_repeated,
                ),
            )
            &&& session@.items.len() == session@.history.len()
            &&& contents_kept(
                session@,
                0,
                request(
                    books@,
                    holiday_books@,
                    requested_minutes,
                    repeat_frequency,
                    non_repeated,
                ),
            )
            &&& accounted(
                session@,
                request(
                    books@,
                    holiday_books@,
                    requested_minutes,
                    repeat_frequency,
                    non_repeated,
                ),
            )
            &&& last_wanted(
                session@,
                request(
                    books@,
                    holiday_books@,
                    requested_minutes,
                    repeat_frequency,
                    non_repeated,
                ),
            )
        },
{
    let ghost r = request(
        books@,
        holiday_books@,
        requested_minutes,
        repeat_frequency,
        non_repeated,
    );
    let ghost all = tour_views(open_libraries@);
    let ghost all_draws = script(draws@);
    proof {
        use_type_invariant(holiday_books);
        lemma_tour(fresh(), all, r, all_draws);
    }
    let mut session = Session::new();
    let mut next: usize = 0;
    let mut i: usize = 0;
    assert(all.subrange(0, all.len() as int) =~= all);
    assert(all_draws.subrange(0, all_draws.len() as int) =~= all_draws);
    while i < open_libraries.len() && !session.is_filled(requested_minutes)
        invariant
            i <= open_libraries.len(),
            next <= draws.len(),
            all == tour_views(open_libraries@),
            all_draws == script(draws@),
            r == request(
                books@,
                holiday_books@,
                requested_minutes,
                repeat_frequency,
                non_repeated,
            ),
            all_known(books@, all),
            session.sound(),
            tour(fresh(), all, r, all_draws) == tour(
                session@,
                all.subrange(i as int, all.len() as int),
                r,
                all_draws.subrange(next as int, all_draws.len() as int),
            ),
        decreases open_libraries.len() - i,
    {
        let library = open_libraries[i];
        let span = library.lib_time();
        let mut used: u64 = 0;
        let ghost entry = session@;
        let ghost entry_draws = all_draws.subrange(next as int, all_draws.len() as int);
        let ghost left = all.subrange(i as int, all.len() as int);
        assert(left.first() == library@);
        assert(left.drop_first() =~= all.subrange(i + 1, all.len() as int));
        assert(known(books@, all[i as int]));
        while span > 0 && used < span as u64 && session.wants_more(requested_minutes)
            invariant
                next <= draws.len(),
                all == tour_views(open_libraries@),
                all_draws == script(draws@),
                r == request(
                    books@,
                    holiday_books@,
                    requested_minutes,
                    repeat_frequency,
                    non_repeated,
                ),
                known(books@, library@),
                library@.well_formed(),
                span == library@.span(),
                session.sound(),
                used <= session.total_minutes,
                left.len() > 0,
                left.first() == library@,
                !budget_met(entry, r.requested),
                tour(fresh(), all, r, all_draws) == tour(entry, left, r, entry_draws),
                visit(entry, 0, library@, r, entry_draws) == visit(
                    session@,
                    used as nat,
                    library@,
                    r,
                    all_draws.subrange(next as int, all_draws.len() as int),
                ),
            decreases draws.len() - next,
        {
            let ghost rest = all_draws.subrange(next as int, all_draws.len() as int);
            if next >= draws.len() {
                return Err(CatalogError::DrawsExhausted);
            }
            let draw = draws[next];
            assert(rest.first() == draw as nat);
            assert(rest.drop_first() =~= all_draws.subrange(next + 1, all_draws.len() as int));
            next += 1;
            match session.advance(
                library,
                books,
                holiday_books,
                requested_minutes,
                repeat_frequency,
                non_repeated,
                used,
                draw,
            ) {
                Err(e) => {
                    return Err(e);
                },
                Ok(now_used) => {
                    used = now_used;
                },
            }
        }
        i += 1;
    }
    Ok(session)
}

/// Assembles a catalog at random: visits the libraries in their order and
/// makes one random pick after the other, at most `max_draws` of them. With
/// `non_repeated` a book of a library is not picked again too soon; without
/// it any book of the library may be picked. The
/// outcome is the one that `assemble_scripted` gives for some draws, no more
/// than `max_draws` of them: it fails where a pick has no book to fall on,
/// or where `max_draws` picks did not fill the reading time.
pub fn assemble(
    open_libraries: &Vec<&Library>,
    books: &BookIndex,
    holiday_books: &BookIndex,
    requested_minutes: u32,
    repeat_frequency: Option<u32>,
    non_repeated: bool,
    max_draws: usize,
) -> (outcome: Result<Session, CatalogError>)
    requires
        all_known(books@, tour_views(open_libraries@)),
    ensures
        exists|draws: Seq<nat>|
            {
                &&& draws.len() <= max_draws
                &&& outcome_view(outcome) == #[trigger] tour(
                    fresh(),
                    tour_views(open_libraries@),
                    request(
                        books@,
                        holiday_books@,
                        requested_minutes,
                        repeat_frequency,
                        non_repeated,
                    ),
                    draws,
                )
                &&& outcome matches Err(CatalogError::DrawsExhausted) ==> draws.len() == max_draws
            },
        outcome matches Ok(session) ==> {
            &&& session@.total - session@.skip >= requested_minutes || session@.total >= capacity(
                tour_views(open_libraries@),
            )
            &&& cadence_kept(
                session@.history,
                0,
                tour_views(open_libraries@),
                request(
                    books@,
                    holiday_books@,
                    requested_minutes,
                    repeat_frequency,
                    non_repeated,
                ),
            )
            &&& window_kept(
                session@.history,
                0,
                request(
                    books@,
                    holiday_books@,
                    requested_minutes,
                    repeat_frequency,
                    non_repeated,
                ),
            )
            &&& session@.items.len() == session@.history.len()
            &&& contents_kept(
                session@,
                0,
                request(
                    books@,
                    holiday_books@,
                    requested_minutes,
                    repeat_frequency,
                    non_repeated,
                ),
            )
            &&& accounted(
                session@,
                request(
                    books@,
                    holiday_books@,
                    requested_minutes,
                    repeat_frequency,
                    non_repeated,
                ),
            )
            &&& last_wanted(
                session@,
                request(
                    books@,
                    holiday_books@,
                    requested_minutes,
                    repeat_frequency,
                    non_repeated,
                ),
            )
        },
{
    let ghost r = request(
        books@,
        holiday_books@,
        requested_minutes,
        repeat_frequency,
        non_repeated,
    );
    let ghost all = tour_views(open_libraries@);
    let ghost mut made: Seq<nat> = Seq::empty();
    let mut session = Session::new();
    let mut draws_left: usize = max_draws;
    let mut i: usize = 0;
    proof {
        assert(all.subrange(0, all.len() as int) =~= all);
        assert forall|x: Seq<nat>|
            tour(fresh(), all, r, made + x) == #[trigger] tour(
                session@,
                all.subrange(i as int, all.len() as int),
                r,
                x,
            ) by {
            assert(made + x =~= x);
        }
    }
    while i < open_libraries.len() && !session.is_filled(requested_minutes)
        invariant
            i <= open_libraries.len(),
            made.len() + draws_left == max_draws,
            all == tour_views(open_libraries@),
            r == request(
                books@,
                holiday_books@,
                requested_minutes,
                repeat_frequency,
                non_repeated,
            ),
            all_known(books@, all),
            session.sound(),
            forall|x: Seq<nat>|
                tour(fresh(), all, r, made + x) == #[trigger] tour(
                    session@,
                    all.subrange(i as int, all.len() as int),
                    r,
                    x,
                ),
        decreases open_libraries.len() - i,
    {
        let library = open_libraries[i];
        let span = library.lib_time();
        let mut used: u64 = 0;
        let ghost entry = session@;
        let ghost before = made;
        let ghost mut here: Seq<nat> = Seq::empty();
        let ghost left = all.subrange(i as int, all.len() as int);
        proof {
            assert(left.first() == library@);
            assert(left.drop_first() =~= all.subrange(i + 1, all.len() as int));
            assert(known(books@, all[i as int]));
            assert(made =~= before + here);
            assert forall|x: Seq<nat>|
                visit(entry, 0, library@, r, here + x) == #[trigger] visit(
                    session@,
                    used as nat,
                    library@,
                    r,
                    x,
                ) by {
                assert(here + x =~= x);
            }
        }
        while span > 0 && used < span as u64 && session.wants_more(requested_minutes)
            invariant
                made == before + here,
                made.len() + draws_left == max_draws,
                all == tour_views(open_libraries@),
                r == request(
                    books@,
                    holiday_books@,
                    requested_minutes,
                    repeat_frequency,
                    non_repeated,
                ),
                known(books@, library@),
                library@.well_formed(),
                span == library@.span(),
                session.sound(),
                used <= session.total_minutes,
                left.len() > 0,
                left.first() == library@,
                !budget_met(entry, r.requested),
                forall|x: Seq<nat>|
                    tour(fresh(), all, r, before + x) == #[trigger] tour(entry, left, r, x),
                forall|x: Seq<nat>|
                    visit(entry, 0, library@, r, here + x) == #[trigger] visit(
                        session@,
                        used as nat,
                        library@,
                        r,
                        x,
                    ),
            decreases draws_left,
        {
            let ghost at = session@;
            let ghost at_used = used as nat;
            if draws_left == 0 {
                proof {
                    let none = Seq::<nat>::empty();
                    assert(visit(at, at_used, library@, r, none) == Err::<
                        (SessionView, Seq<nat>),
                        CatalogError,
                    >(CatalogError::DrawsExhausted));
                    assert(here + none =~= here);
                    assert(tour(entry, left, r, here) == Err::<SessionView, CatalogError>(
                        CatalogError::DrawsExhausted,
                    ));
                    assert(tour(fresh(), all, r, made) == Err::<SessionView, CatalogError>(
                        CatalogError::DrawsExhausted,
                    ));
                }
                return Err(CatalogError::DrawsExhausted);
            }
            draws_left -= 1;
            let advanced = session.advance_at_random(
                library,
                books,
                holiday_books,
                requested_minutes,
                repeat_frequency,
                non_repeated,
                used,
            );
            let ghost draw = choose|draw: nat|
                match advanced {
                    Ok(minutes) => #[trigger] step(at, at_used, library@, r, draw) == Ok::<
                        (SessionView, nat),
                        CatalogError,
                    >((session@, minutes as nat)),
                    Err(e) => step(at, at_used, library@, r, draw) == Err::<
                        (SessionView, nat),
                        CatalogError,
                    >(e),
                };
            let ghost one = seq![draw];
            match advanced {
                Err(e) => {
                    proof {
                        assert(one.first() == draw);
                        assert(visit(at, at_used, library@, r, one) == Err::<
                            (SessionView, Seq<nat>),
                            CatalogError,
                        >(e));
                        assert(tour(entry, left, r, here + one) == Err::<SessionView, CatalogError>(
                            e,
                        ));
                        assert(before + (here + one) =~= made.push(draw));
                        assert(tour(fresh(), all, r, made.push(draw)) == Err::<
                            SessionView,
                            CatalogError,
                        >(e));
                    }
                    return Err(e);
                },
                Ok(now_used) => {
                    proof {
                        assert forall|x: Seq<nat>|
                            visit(entry, 0, library@, r, here.push(draw) + x) == #[trigger] visit(
                                session@,
                                now_used as nat,
                                library@,
                                r,
                                x,
                            ) by {
                            let longer = one + x;
                            assert(longer.first() == draw);
                            assert(longer.drop_first() =~= x);
                            assert(here.push(draw) + x =~= here + longer);
                            assert(visit(at, at_used, library@, r, longer) == visit(
                                session@,
                                now_used as nat,
                                library@,
                                r,
                                x,
                            ));
                        }
                        here = here.push(draw);
                        made = made.push(draw);
                        assert(made =~= before + here);
                    }
                    used = now_used;
                },
            }
        }
        proof {
            assert forall|x: Seq<nat>|
                tour(fresh(), all, r, made + x) == #[trigger] tour(
                    session@,
                    all.subrange(i + 1, all.len() as int),
                    r,
                    x,
                ) by {
                assert(made + x =~= before + (here + x));
                assert(visit(session@, used as nat, library@, r, x) == Ok::<
                    (SessionView, Seq<nat>),
                    CatalogError,
                >((session@, x)));
                assert(tour(entry, left, r, here + x) == tour(session@, left.drop_first(), r, x));
            }
        }
        i += 1;
    }
    proof {
        let none = Seq::<nat>::empty();
        assert(made + none =~= made);
        assert(tour(session@, all.subrange(i as int, all.len() as int), r, none) == Ok::<
            SessionView,
            CatalogError,
        >(session@));
        assert(tour(fresh(), all, r, made) == Ok::<SessionView, CatalogError>(session@));
        use_type_invariant(holiday_books);
        lemma_tour(fresh(), all, r, made);
    }
    Ok(session)
}

} // verus!
