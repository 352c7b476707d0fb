//! Reading catalogs for a visit to the libraries.
//!
//! Given the minutes of reading asked for and the date of a holiday
//! recommendation, the books of a catalog are picked in the libraries that
//! are open: in each library until its opening hours are filled, without
//! picking a book again too soon, with a holiday book in between at the
//! recommended cadence, until the reading time is filled. The contents of
//! the books picked make up the catalog, a single document.
//!
//! Picks are random. What they gather is stated over a model in which each
//! pick is decided by a draw, a natural number: see [`catalog::tour`].

use vstd::prelude::*;

pub mod books;
pub mod catalog;
pub mod catalog_proofs;
pub mod document;
pub mod errors;
pub mod holiday;
pub mod library;
mod random;
pub mod selection;
pub mod utils;

use crate::books::{BookIndex, BookView};
use crate::catalog::{
    all_known, assemble, assemble_scripted, fresh, known, read_contents, request, script, tour,
    tour_views, Request, SessionView,
};
use crate::catalog_proofs::lemma_gathers_something;
use crate::document::{document, render_catalog};
use crate::errors::CatalogError;
use crate::holiday::{frequency_for, frequency_views, is_recommendable, HolidayLibrary};
use crate::library::{
    get_available_libraries, lemma_open_libraries, library_views, open_libraries, Library,
    LibraryView,
};

verus! {

/// Generates the catalog for one request: `user_readtime` minutes of
/// reading, asked for at `now_minutes` past midnight on `now_weekday` (1 for
/// Sunday up to 7 for Saturday), with holiday books recommended as the
/// table says for the date `user_recommendation`.
///
/// Gives no catalog where no library is open. Otherwise the books are
/// picked at random in the open libraries, with at most `max_draws` picks,
/// and the catalog is the document of what some draws gather; it fails
/// where these draws fail.
pub fn gen_non_repeated_catalog_with_holiday_recommendation(
    mem_books: &BookIndex,
    mem_libraries: &Vec<Library>,
    mem_holiday: &HolidayLibrary,
    mem_holiday_books: &BookIndex,
    user_readtime: u32,
    user_recommendation: &String,
    now_minutes: u32,
    now_weekday: u32,
    max_draws: usize,
) -> (catalog: Result<Option<String>, CatalogError>)
    requires
        user_readtime > 0,
        all_known(mem_books@, library_views(mem_libraries@)),
    ensures
        ({
            let open = library_views(open_libraries(mem_libraries@, now_minutes, now_weekday));
            let frequency = frequency_for(
                user_recommendation@,
                frequency_views(mem_holiday.frequencies@),
            );
            let r = request(mem_books@, mem_holiday_books@, user_readtime, frequency, true);
            if open.len() == 0 {
                catalog == Ok::<Option<String>, CatalogError>(None)
            } else {
                exists|draws: Seq<nat>|
                    {
                        &&& draws.len() <= max_draws
                        &&& match #[trigger] tour(fresh(), open, r, draws) {
                            Ok(s) => catalog matches Ok(Some(text)) && text@ == document(
                                s.items,
                                frequency is Some,
                            ),
                            Err(e) => catalog == Err::<Option<String>, CatalogError>(e),
                        }
                        &&& catalog matches Err(CatalogError::DrawsExhausted) ==> draws.len()
                            == max_draws
                    }
            }
        }),
{
    let frequency = is_recommendable(user_recommendation, &mem_holiday.frequencies);
    let ghost open = library_views(open_libraries(mem_libraries@, now_minutes, now_weekday));
    let ghost r = request(mem_books@, mem_holiday_books@, user_readtime, frequency, true);
    match get_available_libraries(mem_libraries, now_minutes, now_weekday) {
        None => Ok(None),
        Some(libraries) => {
            proof {
                lemma_open_libraries(mem_libraries@, now_minutes, now_weekday);
                lemma_open_subset(mem_books@, mem_libraries@, now_minutes, now_weekday);
                assert(tour_views(libraries@) =~= open);
            }
            match assemble(
                &libraries,
                mem_books,
                mem_holiday_books,
                user_readtime,
                frequency,
                true,
                max_draws,
            ) {
                Err(e) => Err(e),
                Ok(session) => {
                    proof {
                        let draws = choose|draws: Seq<nat>|
                            draws.len() <= max_draws && Ok::<SessionView, CatalogError>(session@)
                                == #[trigger] tour(fresh(), open, r, draws);
                        assert(open.first().span() > 0);
                        use_type_invariant(mem_holiday_books);
                        lemma_gathers_something(open, r, draws);
                    }
                    Ok(Some(render_catalog(&session.items, frequency.is_some())))
                },
            }
        },
    }
}

/// A catalog, or the lack or failure of one, as mathematical values.
pub open spec fn catalog_view(catalog: Result<Option<String>, CatalogError>) -> Result<
    Option<Seq<char>>,
    CatalogError,
> {
    match catalog {
        Ok(Some(text)) => Ok(Some(text@)),
        Ok(None) => Ok(None),
        Err(e) => Err(e),
    }
}

/// The catalog that the draws lead to in the open libraries `open`: none
/// where there is no open library; otherwise the document of what the tour
/// gathers, the first content left out where holiday books are recommended,
/// or the failure of the tour.
pub open spec fn holiday_catalog(open: Seq<LibraryView>, r: Request, draws: Seq<nat>) -> Result<
    Option<Seq<char>>,
    CatalogError,
> {
    if open.len() == 0 {
        Ok(None)
    } else {
        match tour(fresh(), open, r, draws) {
            Ok(s) => Ok(Some(document(s.items, r.frequency is Some))),
            Err(e) => Err(e),
        }
    }
}

/// Generates the catalog for one request as
/// `gen_non_repeated_catalog_with_holiday_recommendation` does, with each
/// pick decided by one of the given draws in turn instead of at random. The
/// catalog depends on nothing but what is given: the same books, libraries,
/// table, request, moment and draws give the same document.
pub fn gen_non_repeated_catalog_with_holiday_recommendation_scripted(
    mem_books: &BookIndex,
    mem_libraries: &Vec<Library>,
    mem_holiday: &HolidayLibrary,
    mem_holiday_books: &BookIndex,
    user_readtime: u32,
    user_recommendation: &String,
    now_minutes: u32,
    now_weekday: u32,
    draws: &Vec<usize>,
) -> (catalog: Result<Option<String>, CatalogError>)
    requires
        user_readtime > 0,
        all_known(mem_books@, library_views(mem_libraries@)),
    ensures
        catalog_view(catalog) == holiday_catalog(
            library_views(open_libraries(mem_libraries@, now_minutes, now_weekday)),
            request(
                mem_books@,
                mem_holiday_books@,
                user_readtime,
                frequency_for(user_recommendation@, frequency_views(mem_holiday.frequencies@)),
                true,
            ),
            script(draws@),
        ),
{
    let frequency = is_recommendable(user_recommendation, &mem_holiday.frequencies);
    let ghost open = library_views(open_libraries(mem_libraries@, now_minutes, now_weekday));
    let ghost r = request(mem_books@, mem_holiday_books@, user_readtime, frequency, true);
    match get_available_libraries(mem_libraries, now_minutes, now_weekday) {
        None => Ok(None),
        Some(libraries) => {
            proof {
                lemma_open_libraries(mem_libraries@, now_minutes, now_weekday);
                lemma_open_subset(mem_books@, mem_libraries@, now_minutes, now_weekday);
                assert(tour_views(libraries@) =~= open);
            }
            match assemble_scripted(
                &libraries,
                mem_books,
                mem_holiday_books,
                user_readtime,
                frequency,
                true,
                draws,
            ) {
                Err(e) => Err(e),
                Ok(session) => {
                    proof {
                        assert(open.first().span() > 0);
                        use_type_invariant(mem_holiday_books);
                        lemma_gathers_something(open, r, script(draws@));
                    }
                    Ok(Some(render_catalog(&session.items, frequency.is_some())))
                },
            }
        },
    }
}

/// What `gen_non_repeated_catalog_with_holiday_recommendation` gives is
/// what its scripted form gives for some draws: the two state their
/// catalogs over the same tours.
pub proof fn lemma_random_catalog_is_a_scripted_one(
    open: Seq<LibraryView>,
    r: Request,
    draws: Seq<nat>,
    catalog: Result<Option<String>, CatalogError>,
)
    requires
        open.len() > 0,
        match tour(fresh(), open, r, draws) {
            Ok(s) => catalog matches Ok(Some(text)) && text@ == document(
                s.items,
                r.frequency is Some,
            ),
            Err(e) => catalog == Err::<Option<String>, CatalogError>(e),
        },
    ensures
        catalog_view(catalog) == holiday_catalog(open, r, draws),
{
}

/// The same open libraries, request and draws give the same catalog,
/// letter for letter: two catalogs that the scripted generation may give
/// for them are one.
pub proof fn lemma_same_draws_same_catalog(
    open: Seq<LibraryView>,
    r: Request,
    draws: Seq<nat>,
    first: Result<Option<String>, CatalogError>,
    second: Result<Option<String>, CatalogError>,
)
    requires
        catalog_view(first) == holiday_catalog(open, r, draws),
        catalog_view(second) == holiday_catalog(open, r, draws),
    ensures
        catalog_view(first) == catalog_view(second),
{
}

/// Generates the catalog for one request without holiday books:
/// `user_readtime` minutes of reading, asked for at `now_minutes` past
/// midnight on `now_weekday` (1 for Sunday up to 7 for Saturday).
///
/// Gives no catalog where no library is open. Otherwise the books are
/// picked at random in the open libraries, with at most `max_draws` picks,
/// and the catalog is the document of what some draws gather, the books
/// without a minute of reading time left out; it fails where these draws
/// fail.
pub fn gen_non_repeated_catalog(
    mem_books: &BookIndex,
    mem_libraries: &Vec<Library>,
    user_readtime: u32,
    now_minutes: u32,
    now_weekday: u32,
    max_draws: usize,
) -> (catalog: Result<Option<String>, CatalogError>)
    requires
        all_known(mem_books@, library_views(mem_libraries@)),
    ensures
        ({
            let open = library_views(open_libraries(mem_libraries@, now_minutes, now_weekday));
            let r = request(mem_books@, Seq::empty(), user_readtime, None, true);
            if open.len() == 0 {
                catalog == Ok::<Option<String>, CatalogError>(None)
            } else {
                exists|draws: Seq<nat>|
                    {
                        &&& draws.len() <= max_draws
                        &&& match #[trigger] tour(fresh(), open, r, draws) {
                            Ok(s) => catalog matches Ok(Some(text)) && text@ == document(
                                read_contents(s, mem_books@, s.items.len()),
                                false,
                            ),
                            Err(e) => catalog == Err::<Option<String>, CatalogError>(e),
                        }
                        &&& catalog matches Err(CatalogError::DrawsExhausted) ==> draws.len()
                            == max_draws
                    }
            }
        }),
{
    let ghost open = library_views(open_libraries(mem_libraries@, now_minutes, now_weekday));
    match get_available_libraries(mem_libraries, now_minutes, now_weekday) {
        None => Ok(None),
        Some(libraries) => {
            proof {
                lemma_open_subset(mem_books@, mem_libraries@, now_minutes, now_weekday);
                assert(tour_views(libraries@) =~= open);
            }
            let no_books = BookIndex::new();
            match assemble(&libraries, mem_books, &no_books, user_readtime, None, true, max_draws) {
                Err(e) => Err(e),
                Ok(session) => {
                    let kept = session.read_items(mem_books);
                    Ok(Some(render_catalog(&kept, false)))
                },
            }
        },
    }
}

/// Generates the catalog for one request with any books of the libraries,
/// repeated or not: `user_readtime` minutes of reading, asked for at
/// `now_minutes` past midnight on `now_weekday` (1 for Sunday up to 7 for
/// Saturday).
///
/// Gives no catalog where no library is open. Otherwise the books are
/// picked at random in the open libraries, each place in a library's list
/// with the same chance, with at most `max_draws` picks, and the catalog is
/// the document of what some draws gather, the books without a minute of
/// reading time left out; it fails where these draws fail.
pub fn gen_catalog(
    mem_books: &BookIndex,
    mem_libraries: &Vec<Library>,
    user_readtime: u32,
    now_minutes: u32,
    now_weekday: u32,
    max_draws: usize,
) -> (catalog: Result<Option<String>, CatalogError>)
    requires
        all_known(mem_books@, library_views(mem_libraries@)),
    ensures
        ({
            let open = library_views(open_libraries(mem_libraries@, now_minutes, now_weekday));
            let r = request(mem_books@, Seq::empty(), user_readtime, None, false);
            if open.len() == 0 {
                catalog == Ok::<Option<String>, CatalogError>(None)
            } else {
                exists|draws: Seq<nat>|
                    {
                        &&& draws.len() <= max_draws
                        &&& match #[trigger] tour(fresh(), open, r, draws) {
                            Ok(s) => catalog matches Ok(Some(text)) && text@ == document(
                                read_contents(s, mem_books@, s.items.len()),
                                false,
                            ),
                            Err(e) => catalog == Err::<Option<String>, CatalogError>(e),
                        }
                        &&& catalog matches Err(CatalogError::DrawsExhausted) ==> draws.len()
                            == max_draws
                    }
            }
        }),
{
    let ghost open = library_views(open_libraries(mem_libraries@, now_minutes, now_weekday));
    match get_available_libraries(mem_libraries, now_minutes, now_weekday) {
        None => Ok(None),
        Some(libraries) => {
            proof {
                lemma_open_subset(mem_books@, mem_libraries@, now_minutes, now_weekday);
                assert(tour_views(libraries@) =~= open);
            }
            let no_books = BookIndex::new();
            match assemble(&libraries, mem_books, &no_books, user_readtime, None, false, max_draws) {
                Err(e) => Err(e),
                Ok(session) => {
                    let kept = session.read_items(mem_books);
                    Ok(Some(render_catalog(&kept, false)))
                },
            }
        },
    }
}

/// Where the books of all libraries are known, so are those of the open
/// ones.
pub proof fn lemma_open_subset(
    books: Seq<BookView>,
    libraries: Seq<Library>,
    now_minutes: u32,
    now_weekday: u32,
)
    requires
        all_known(books, library_views(libraries)),
    ensures
        all_known(books, library_views(open_libraries(libraries, now_minutes, now_weekday))),
{
    let found = open_libraries(libraries, now_minutes, now_weekday);
    let open = library_views(found);
    lemma_open_libraries(libraries, now_minutes, now_weekday);
    assert forall|i: int| 0 <= i < open.len() implies known(books, #[trigger] open[i]) by {
        assert(libraries.contains(found[i]));
        let k = choose|k: int| 0 <= k < libraries.len() && libraries[k] == found[i];
        assert(library_views(libraries)[k] == open[i]);
    }
}

} // verus!
