//! Libraries, their opening hours, and which of them are open.

use vstd::prelude::*;
use crate::utils::{parse_clock, to_minutes};

verus! {

/// When a library is open: the time of day at which it opens and closes,
/// each written as `HHMM`, and the weekday on which it opens: 1 for Sunday
/// up to 7 for Saturday, or 0 for every day.
#[derive(Clone, Debug)]
pub struct LibraryMetadata {
    pub start_time: String,
    pub end_time: String,
    pub open_days: u32,
}

/// A library: the identifiers of its books, in its own order, and its opening
/// hours. Both times of day of a library are well written.
#[derive(Debug)]
pub struct Library {
    book_ids: Vec<String>,
    metadata: LibraryMetadata,
    start_at: u32,
    end_at: u32,
}

/// What a [`Library`] holds, as mathematical values.
pub struct LibraryView {
    pub book_ids: Seq<Seq<char>>,
    pub start_time: Seq<char>,
    pub end_time: Seq<char>,
    pub open_days: u32,
}

impl LibraryView {
    /// Both times of day are well written.
    pub open spec fn well_formed(self) -> bool {
        parse_clock(self.start_time) is Some && parse_clock(self.end_time) is Some
    }

    /// The opening time in minutes since midnight.
    pub open spec fn start_at(self) -> int
        recommends
            self.well_formed(),
    {
        parse_clock(self.start_time).unwrap() as int
    }

    /// The closing time in minutes since midnight.
    pub open spec fn end_at(self) -> int
        recommends
            self.well_formed(),
    {
        parse_clock(self.end_time).unwrap() as int
    }

    /// The minutes from opening to closing: the length of one visit.
    pub open spec fn span(self) -> int
        recommends
            self.well_formed(),
    {
        self.end_at() - self.start_at()
    }

    /// Whether the library opens on `weekday`.
    pub open spec fn opens_on(self, weekday: u32) -> bool {
        self.open_days == 0 || self.open_days == weekday
    }

    /// Whether the library is open at `now_minutes` past midnight on
    /// `weekday`: it opens on that day, opening and closing time differ, and
    /// the moment lies between them, both ends included.
    pub open spec fn is_open(self, now_minutes: u32, weekday: u32) -> bool
        recommends
            self.well_formed(),
    {
        &&& self.opens_on(weekday)
        &&& self.span() != 0
        &&& self.start_at() <= now_minutes <= self.end_at()
    }
}

impl View for Library {
    type V = LibraryView;

    closed spec fn view(&self) -> LibraryView {
        LibraryView {
            book_ids: self.book_ids.deep_view(),
            start_time: self.metadata.start_time@,
            end_time: self.metadata.end_time@,
            open_days: self.metadata.open_days,
        }
    }
}

impl Library {
    #[verifier::type_invariant]
    pub closed spec fn well_formed(&self) -> bool {
        &&& parse_clock(self.metadata.start_time@) == Some(self.start_at)
        &&& parse_clock(self.metadata.end_time@) == Some(self.end_at)
    }

    /// A library with the given books and opening hours; `None` where one of
    /// the two times of day is not well written.
    pub fn new(book_ids: Vec<String>, metadata: LibraryMetadata) -> (library: Option<Library>)
        ensures
            match library {
                Some(l) => l@ == (LibraryView {
                    book_ids: book_ids.deep_view(),
                    start_time: metadata.start_time@,
                    end_time: metadata.end_time@,
                    open_days: metadata.open_days,
                }) && l@.well_formed(),
                None => parse_clock(metadata.start_time@) is None || parse_clock(
                    metadata.end_time@,
                ) is None,
            },
    {
        let start = to_minutes(metadata.start_time.as_str());
        let end = to_minutes(metadata.end_time.as_str());
        match (start, end) {
            (Some(start_at), Some(end_at)) => Some(Library { book_ids, metadata, start_at, end_at }),
            _ => None,
        }
    }

    /// The identifiers of the library's books, in the library's order.
    pub fn book_ids(&self) -> (ids: &Vec<String>)
        ensures
            ids.deep_view() == self@.book_ids,
    {
        &self.book_ids
    }

    /// The opening hours as they were given.
    pub fn metadata(&self) -> (metadata: &LibraryMetadata)
        ensures
            metadata.start_time@ == self@.start_time,
            metadata.end_time@ == self@.end_time,
            metadata.open_days == self@.open_days,
    {
        &self.metadata
    }

    /// The opening time in minutes since midnight.
    pub fn start_at(&self) -> (minutes: u32)
        ensures
            self@.well_formed(),
            minutes == self@.start_at(),
    {
        proof {
            use_type_invariant(self);
        }
        self.start_at
    }

    /// The closing time in minutes since midnight.
    pub fn end_at(&self) -> (minutes: u32)
        ensures
            self@.well_formed(),
            minutes == self@.end_at(),
    {
        proof {
            use_type_invariant(self);
        }
        self.end_at
    }

    /// The minutes from opening to closing; negative where the library
    /// closes before it opens.
    pub fn lib_time(&self) -> (minutes: i64)
        ensures
            self@.well_formed(),
            minutes == self@.span(),
    {
        proof {
            use_type_invariant(self);
        }
        self.end_at as i64 - self.start_at as i64
    }

    /// Whether the library is open at `now_minutes` past midnight on
    /// `now_weekday` (1 for Sunday up to 7 for Saturday).
    pub fn is_open(&self, now_minutes: u32, now_weekday: u32) -> (open: bool)
        ensures
            open == self@.is_open(now_minutes, now_weekday),
    {
        proof {
            use_type_invariant(self);
        }
        (self.metadata.open_days == 0 || self.metadata.open_days == now_weekday) && self.end_at
            != self.start_at && self.start_at <= now_minutes && now_minutes <= self.end_at
    }
}

/// The views of a sequence of libraries, in the same order.
pub open spec fn library_views(libraries: Seq<Library>) -> Seq<LibraryView> {
    libraries.map_values(|l: Library| l@)
}

/// When a library is closed: at any moment before it opens or after it
/// closes, on any day but its own unless it opens every day, and always
/// where it opens and closes at the same time. At every other moment it is
/// open.
pub proof fn lemma_opening_rules(library: LibraryView, now_minutes: u32, weekday: u32)
    ensures
        now_minutes < library.start_at() || now_minutes > library.end_at() ==> !library.is_open(
            now_minutes,
            weekday,
        ),
        library.open_days != 0 && library.open_days != weekday ==> !library.is_open(
            now_minutes,
            weekday,
        ),
        library.start_at() == library.end_at() ==> !library.is_open(now_minutes, weekday),
        library.start_at() <= now_minutes <= library.end_at() && library.start_at()
            != library.end_at() && (library.open_days == 0 || library.open_days == weekday)
            ==> library.is_open(now_minutes, weekday),
        library.is_open(now_minutes, weekday) ==> library.span() > 0,
{
}

/// The open libraries are those of the given ones that are open at the
/// moment asked for, and no others.
pub proof fn lemma_open_libraries(libraries: Seq<Library>, now_minutes: u32, weekday: u32)
    ensures
        forall|i: int|
            0 <= i < open_libraries(libraries, now_minutes, weekday).len() ==> {
                &&& (#[trigger] open_libraries(libraries, now_minutes, weekday)[i])@.is_open(
                    now_minutes,
                    weekday,
                )
                &&& libraries.contains(open_libraries(libraries, now_minutes, weekday)[i])
            },
        forall|i: int|
            0 <= i < libraries.len() && (#[trigger] libraries[i])@.is_open(now_minutes, weekday)
                ==> open_libraries(libraries, now_minutes, weekday).contains(libraries[i]),
{
    let open_now = |l: Library| l@.is_open(now_minutes, weekday);
    let found = libraries.filter(open_now);
    assert forall|i: int| 0 <= i < found.len() implies (#[trigger] found[i])@.is_open(
        now_minutes,
        weekday,
    ) && libraries.contains(found[i]) by {
        libraries.lemma_filter_pred(open_now, i);
        assert(found.contains(found[i]));
        libraries.lemma_filter_contains_rev(open_now, found[i]);
    }
    assert forall|i: int|
        0 <= i < libraries.len() && (#[trigger] libraries[i])@.is_open(
            now_minutes,
            weekday,
        ) implies found.contains(libraries[i]) by {
        libraries.lemma_filter_contains(open_now, i);
    }
}

/// The libraries of the sequence that are open at `now_minutes` past midnight
/// on `weekday`, in the order of the sequence.
pub open spec fn open_libraries(libraries: Seq<Library>, now_minutes: u32, weekday: u32) -> Seq<
    Library,
> {
    libraries.filter(|l: Library| l@.is_open(now_minutes, weekday))
}

/// The libraries that are open at `now_minutes` past midnight on
/// `now_weekday` (1 for Sunday up to 7 for Saturday), in the order in which
/// they were given; `None` where none is open.
pub fn get_available_libraries(libraries: &Vec<Library>, now_minutes: u32, now_weekday: u32) -> (open:
    Option<Vec<&Library>>)
    ensures
        match open {
            Some(found) => found@.len() > 0 && found@.map_values(|l: &Library| *l)
                == open_libraries(libraries@, now_minutes, now_weekday),
            None => open_libraries(libraries@, now_minutes, now_weekday).len() == 0,
        },
{
    let mut found: Vec<&Library> = Vec::new();
    let mut i: usize = 0;
    while i < libraries.len()
        invariant
            i <= libraries.len(),
            found@.map_values(|l: &Library| *l) == open_libraries(
                libraries@.take(i as int),
                now_minutes,
                now_weekday,
            ),
        decreases libraries.len() - i,
    {
        let library = &libraries[i];
        let ghost before = found@.map_values(|l: &Library| *l);
        if library.is_open(now_minutes, now_weekday) {
            found.push(library);
        }
        proof {
            reveal(Seq::filter);
            let upto = libraries@.take(i + 1);
            assert(upto.drop_last() =~= libraries@.take(i as int));
            assert(upto.last() == *library);
            if library@.is_open(now_minutes, now_weekday) {
                assert(found@.map_values(|l: &Library| *l) =~= before.push(*library));
            }
        }
        i += 1;
    }
    assert(libraries@.take(libraries.len() as int) =~= libraries@);
    if found.len() == 0 {
        None
    } else {
        Some(found)
    }
}

} // verus!
