use reading_catalog::books::{Book, BookIndex};
use reading_catalog::catalog::{
    assemble, assemble_scripted, knows_all_books, knows_books_of, Session,
};
use reading_catalog::document::render_catalog;
use reading_catalog::errors::CatalogError;
use reading_catalog::library::{Library, LibraryMetadata};
use reading_catalog::selection::lookback_start;

fn library(ids: &[&str], start: &str, end: &str) -> Library {
    let metadata = LibraryMetadata {
        start_time: start.to_string(),
        end_time: end.to_string(),
        open_days: 0,
    };
    Library::new(ids.iter().map(|id| id.to_string()).collect(), metadata).unwrap()
}

fn index(books: &[(&str, u64)]) -> BookIndex {
    let mut index = BookIndex::new();
    for (id, minutes) in books {
        index.insert(Book::new(id.to_string(), minutes * 60_000 + 59_999, format!("<{}/>", id)));
    }
    index
}

fn shelf() -> BookIndex {
    index(&[("a", 10), ("b", 20), ("c", 30), ("d", 15), ("e", 25), ("f", 5), ("g", 40)])
}

fn texts(items: &[&str]) -> Vec<String> {
    items.iter().map(|item| item.to_string()).collect()
}

fn minutes_of(session: &Session, books: &BookIndex, holiday: &BookIndex) -> u64 {
    let mut minutes = 0;
    for item in &session.items {
        let id = item[1..item.len() - 2].to_string();
        minutes += match books.get(&id) {
            Some(book) => book.read_time(),
            None => holiday.get(&id).unwrap().read_time(),
        };
    }
    minutes
}

#[test]
fn new_session_has_gathered_nothing() {
    let session = Session::new();
    assert!(session.items.is_empty());
    assert!(session.history.is_empty());
    assert_eq!(session.total_minutes, 0);
    assert_eq!(session.skip_minutes, 0);
    assert!(session.wants_more(1));
    assert!(!session.wants_more(0));
    assert!(!session.is_filled(1));
    assert!(session.is_filled(0));
}

#[test]
fn session_is_filled_by_the_minutes_that_count() {
    let session = Session {
        items: texts(&["<h/>", "<a/>"]),
        history: texts(&["h", "a"]),
        total_minutes: 70,
        skip_minutes: 10,
    };
    assert!(session.is_filled(60));
    assert!(!session.wants_more(60));
    assert!(!session.is_filled(61));
    assert!(session.wants_more(61));
    let nothing_gathered = Session {
        items: Vec::new(),
        history: texts(&["h"]),
        total_minutes: 70,
        skip_minutes: 10,
    };
    assert!(nothing_gathered.is_filled(70));
    assert!(nothing_gathered.is_filled(61));
    assert!(!nothing_gathered.is_filled(71));
}

#[test]
fn scripted_assembly_stops_when_the_time_is_filled() {
    let l = library(&["a", "b", "c", "d", "e", "f", "g"], "0900", "1200");
    let books = shelf();
    let session =
        assemble_scripted(&vec![&l], &books, &BookIndex::new(), 60, None, true, &vec![0, 0, 0, 0, 0])
            .unwrap();
    assert_eq!(session.history, texts(&["a", "b", "c"]));
    assert_eq!(session.items, texts(&["<a/>", "<b/>", "<c/>"]));
    assert_eq!(session.total_minutes, 60);
    assert_eq!(session.skip_minutes, 0);
}

#[test]
fn scripted_assembly_follows_the_draws() {
    let l = library(&["a", "b", "c", "d", "e", "f", "g"], "0900", "1200");
    let books = shelf();
    let session =
        assemble_scripted(&vec![&l], &books, &BookIndex::new(), 60, None, true, &vec![6, 5, 4]).unwrap();
    assert_eq!(session.history, texts(&["g", "f", "e"]));
    assert_eq!(session.items, texts(&["<g/>", "<f/>", "<e/>"]));
    assert_eq!(session.total_minutes, 70);
    let session =
        assemble_scripted(&vec![&l], &books, &BookIndex::new(), 60, None, true, &vec![13, 11, 9])
            .unwrap();
    assert_eq!(session.history, texts(&["g", "f", "e"]));
}

#[test]
fn scripted_assembly_is_repeatable() {
    let l = library(&["a", "b", "c", "d", "e", "f", "g"], "0900", "1200");
    let books = shelf();
    let holiday = index(&[("h1", 10), ("h2", 0)]);
    let draws = vec![1, 0, 5, 2, 0, 3, 1, 4, 0, 0, 2, 6, 1, 1];
    let first = assemble_scripted(&vec![&l], &books, &holiday, 100, Some(2), true, &draws).unwrap();
    let second = assemble_scripted(&vec![&l], &books, &holiday, 100, Some(2), true, &draws).unwrap();
    assert_eq!(first.items, second.items);
    assert_eq!(first.history, second.history);
    assert_eq!(first.total_minutes, second.total_minutes);
    assert_eq!(first.skip_minutes, second.skip_minutes);
    assert_eq!(render_catalog(&first.items, true), render_catalog(&second.items, true));
}

#[test]
fn visit_ends_with_the_opening_hours() {
    let l = library(&["a", "b", "c", "d", "e", "f", "g"], "0900", "0930");
    let books = shelf();
    let session =
        assemble_scripted(&vec![&l], &books, &BookIndex::new(), 600, None, true, &vec![0, 0, 0, 0])
            .unwrap();
    assert_eq!(session.history, texts(&["a", "b"]));
    assert_eq!(session.total_minutes, 30);
}

#[test]
fn last_pick_may_go_beyond_the_opening_hours() {
    let l = library(&["a", "b", "c", "d", "e", "f", "g"], "0900", "0929");
    let books = shelf();
    let session =
        assemble_scripted(&vec![&l], &books, &BookIndex::new(), 600, None, true, &vec![0, 5]).unwrap();
    assert_eq!(session.history, texts(&["a", "g"]));
    assert_eq!(session.total_minutes, 50);
}

#[test]
fn libraries_are_visited_in_order_with_one_history() {
    let first = library(&["a", "b", "c", "d", "e", "f", "g"], "0900", "0930");
    let second = library(&["a", "b", "c", "d", "e", "f", "g"], "0900", "1000");
    let books = shelf();
    let session = assemble_scripted(
        &vec![&first, &second],
        &books,
        &BookIndex::new(),
        100,
        None,
        true,
        &vec![0, 0, 0, 0, 0, 0, 0],
    )
    .unwrap();
    assert_eq!(session.history, texts(&["a", "b", "c", "d", "e"]));
    assert_eq!(session.total_minutes, 100);
}

#[test]
fn no_library_is_visited_once_the_time_is_filled() {
    let first = library(&["a", "b", "c", "d", "e", "f", "g"], "0900", "1200");
    let second = library(&["x"], "0900", "1200");
    let books = shelf();
    let session = assemble_scripted(
        &vec![&first, &second],
        &books,
        &BookIndex::new(),
        30,
        None,
        true,
        &vec![0, 0],
    )
    .unwrap();
    assert_eq!(session.history, texts(&["a", "b"]));
}

#[test]
fn library_without_opening_hours_gives_nothing() {
    let closed = library(&["a", "b", "c", "d", "e", "f", "g"], "0900", "0900");
    let backwards = library(&["a", "b", "c", "d", "e", "f", "g"], "1200", "0900");
    let books = shelf();
    let session =
        assemble_scripted(&vec![&closed, &backwards], &books, &BookIndex::new(), 60, None, true, &vec![])
            .unwrap();
    assert!(session.items.is_empty());
    assert_eq!(session.total_minutes, 0);
}

#[test]
fn no_libraries_give_nothing() {
    let session =
        assemble_scripted(&Vec::new(), &shelf(), &BookIndex::new(), 60, None, true, &vec![1, 2]).unwrap();
    assert!(session.items.is_empty());
    assert!(session.history.is_empty());
    let session = assemble(&Vec::new(), &shelf(), &BookIndex::new(), 60, Some(1), true, 10).unwrap();
    assert!(session.items.is_empty());
}

#[test]
fn holiday_books_come_at_their_cadence() {
    let l = library(&["a", "b", "c", "d", "e", "f", "g"], "0900", "1200");
    let books = shelf();
    let holiday = index(&[("h1", 10), ("h2", 0)]);
    let session =
        assemble_scripted(&vec![&l], &books, &holiday, 60, Some(2), true, &vec![0, 0, 0, 1, 0, 0, 9])
            .unwrap();
    assert_eq!(session.history, texts(&["h1", "a", "b", "h1", "c"]));
    assert_eq!(session.items, texts(&["<h1/>", "<a/>", "<b/>", "<h1/>", "<c/>"]));
    assert_eq!(session.total_minutes, 80);
    assert_eq!(session.skip_minutes, 10);
    assert_eq!(
        render_catalog(&session.items, true),
        "<?xml version=\"1.0\"?>\n<catalog-list>\n<a/><b/><h1/><c/>\n</catalog-list>"
    );
}

#[test]
fn first_holiday_book_does_not_count() {
    let l = library(&["a", "b", "c", "d", "e", "f", "g"], "0900", "1200");
    let books = shelf();
    let holiday = index(&[("h1", 50)]);
    let session =
        assemble_scripted(&vec![&l], &books, &holiday, 30, Some(1), true, &vec![0, 0, 0, 0, 0]).unwrap();
    assert_eq!(session.history, texts(&["h1", "a", "h1"]));
    assert_eq!(session.total_minutes, 110);
    assert_eq!(session.skip_minutes, 50);
}

#[test]
fn holiday_book_without_reading_time_is_passed_over() {
    let l = library(&["a", "b", "c", "d", "e", "f", "g"], "0900", "1200");
    let books = shelf();
    let holiday = index(&[("h0", 0), ("h1", 10)]);
    let session =
        assemble_scripted(&vec![&l], &books, &holiday, 10, Some(0), true, &vec![0, 2, 4, 1, 0, 3])
            .unwrap();
    assert_eq!(session.history, texts(&["h1", "h1"]));
    assert_eq!(session.items, texts(&["<h1/>", "<h1/>"]));
    assert_eq!(session.total_minutes, 20);
    assert_eq!(session.skip_minutes, 10);
}

#[test]
fn frequency_zero_picks_holiday_books_only() {
    let l = library(&["a", "b", "c", "d", "e", "f", "g"], "0900", "1200");
    let books = shelf();
    let holiday = index(&[("h1", 10), ("h2", 20)]);
    let session =
        assemble_scripted(&vec![&l], &books, &holiday, 40, Some(0), true, &vec![1, 1, 0, 1]).unwrap();
    assert_eq!(session.history, texts(&["h2", "h2", "h1", "h2"]));
    assert_eq!(session.total_minutes, 70);
    assert_eq!(session.skip_minutes, 20);
}

#[test]
fn book_without_reading_time_is_picked_all_the_same() {
    let l = library(&["z", "a"], "0900", "1200");
    let books = index(&[("z", 0), ("a", 10)]);
    let session =
        assemble_scripted(&vec![&l], &books, &BookIndex::new(), 10, None, true, &vec![0, 0]).unwrap();
    assert_eq!(session.history, texts(&["z", "a"]));
    assert_eq!(session.items, texts(&["<z/>", "<a/>"]));
    assert_eq!(session.total_minutes, 10);
}

#[test]
fn too_few_books_for_the_window_is_an_error() {
    let l = library(&["a", "b", "c"], "0900", "1200");
    let books = index(&[("a", 1), ("b", 1), ("c", 1)]);
    let outcome =
        assemble_scripted(&vec![&l], &books, &BookIndex::new(), 60, None, true, &vec![0, 0, 0, 0]);
    assert_eq!(outcome.unwrap_err(), CatalogError::NoEligibleBook);
    let outcome = assemble(&vec![&l], &books, &BookIndex::new(), 60, None, true, 1000);
    assert_eq!(outcome.unwrap_err(), CatalogError::NoEligibleBook);
}

#[test]
fn empty_holiday_collection_is_an_error() {
    let l = library(&["a", "b", "c", "d", "e", "f", "g"], "0900", "1200");
    let books = shelf();
    let outcome = assemble_scripted(&vec![&l], &books, &BookIndex::new(), 60, Some(2), true, &vec![0]);
    assert_eq!(outcome.unwrap_err(), CatalogError::NoHolidayBook);
    let outcome = assemble(&vec![&l], &books, &BookIndex::new(), 60, Some(2), true, 1000);
    assert_eq!(outcome.unwrap_err(), CatalogError::NoHolidayBook);
}

#[test]
fn running_out_of_draws_is_an_error() {
    let l = library(&["a", "b", "c", "d", "e", "f", "g"], "0900", "1200");
    let books = shelf();
    let outcome = assemble_scripted(&vec![&l], &books, &BookIndex::new(), 60, None, true, &vec![0, 0]);
    assert_eq!(outcome.unwrap_err(), CatalogError::DrawsExhausted);
    let outcome = assemble_scripted(&vec![&l], &books, &BookIndex::new(), 60, None, true, &Vec::new());
    assert_eq!(outcome.unwrap_err(), CatalogError::DrawsExhausted);
    let outcome = assemble(&vec![&l], &books, &BookIndex::new(), 60, None, true, 0);
    assert_eq!(outcome.unwrap_err(), CatalogError::DrawsExhausted);
    let outcome = assemble(&vec![&l], &books, &BookIndex::new(), 200, None, true, 2);
    assert_eq!(outcome.unwrap_err(), CatalogError::DrawsExhausted);
}

#[test]
fn holiday_books_without_reading_time_use_up_the_draws() {
    let l = library(&["a", "b", "c", "d", "e", "f", "g"], "0900", "1200");
    let books = shelf();
    let holiday = index(&[("h0", 0)]);
    let outcome = assemble(&vec![&l], &books, &holiday, 60, Some(2), true, 50);
    assert_eq!(outcome.unwrap_err(), CatalogError::DrawsExhausted);
}

#[test]
fn unused_draws_change_nothing() {
    let l = library(&["a", "b", "c", "d", "e", "f", "g"], "0900", "1200");
    let books = shelf();
    let short =
        assemble_scripted(&vec![&l], &books, &BookIndex::new(), 60, None, true, &vec![0, 0, 0]).unwrap();
    let long = assemble_scripted(
        &vec![&l],
        &books,
        &BookIndex::new(),
        60,
        None,
        true,
        &vec![0, 0, 0, 5, 5, 5],
    )
    .unwrap();
    assert_eq!(short.history, long.history);
    assert_eq!(short.items, long.items);
}

#[test]
fn random_assembly_fills_the_requested_hour() {
    let l = library(&["a", "b", "c", "d", "e", "f", "g"], "0900", "1200");
    let books = shelf();
    let none = BookIndex::new();
    for _ in 0..200 {
        let session = assemble(&vec![&l], &books, &none, 60, None, true, 1000).unwrap();
        assert!(session.total_minutes >= 60);
        assert_eq!(session.skip_minutes, 0);
        assert_eq!(session.total_minutes, minutes_of(&session, &books, &none));
        assert_eq!(session.items.len(), session.history.len());
        for (k, id) in session.history.iter().enumerate() {
            assert!(l.book_ids().contains(id));
            assert_eq!(session.items[k], format!("<{}/>", id));
            let start = lookback_start(k);
            assert!(!session.history[start..k].contains(id));
        }
        let first_five: Vec<&String> = session.history.iter().take(5).collect();
        for (k, id) in first_five.iter().enumerate() {
            assert!(!first_five[..k].contains(id));
        }
        let without_last: u64 = session.total_minutes
            - books.get(session.history.last().unwrap()).unwrap().read_time();
        assert!(without_last < 60);
    }
}

#[test]
fn random_assembly_fills_the_time_or_the_opening_hours() {
    let first = library(&["a", "b", "c", "d", "e", "f", "g"], "0900", "0920");
    let second = library(&["a", "b", "c", "d", "e", "f", "g"], "1000", "1045");
    let books = shelf();
    let none = BookIndex::new();
    for requested in [1, 30, 65, 66, 500] {
        for _ in 0..50 {
            let session =
                assemble(&vec![&first, &second], &books, &none, requested, None, true, 1000).unwrap();
            assert!(
                session.total_minutes - session.skip_minutes >= requested as u64
                    || session.total_minutes >= 20 + 45
            );
        }
    }
}

#[test]
fn random_assembly_keeps_the_cadence() {
    let l = library(&["a", "b", "c", "d", "e", "f", "g"], "0900", "1200");
    let books = shelf();
    let holiday = index(&[("h1", 10), ("h2", 5), ("h3", 0)]);
    for _ in 0..200 {
        let session = assemble(&vec![&l], &books, &holiday, 120, Some(2), true, 10_000).unwrap();
        assert!(session.total_minutes - session.skip_minutes >= 120);
        assert_eq!(session.items.len(), session.history.len());
        for (k, id) in session.history.iter().enumerate() {
            if k % 3 == 0 {
                assert!(holiday.contains(id));
                assert!(!l.book_ids().contains(id));
                assert!(holiday.get(id).unwrap().read_time() > 0);
            } else {
                assert!(l.book_ids().contains(id));
                assert!(!holiday.contains(id));
            }
        }
        let first = holiday.get(&session.history[0]).unwrap();
        assert_eq!(session.skip_minutes, first.read_time());
        assert_eq!(session.total_minutes, minutes_of(&session, &books, &holiday));
        let document = render_catalog(&session.items, true);
        let kept: String = session.items[1..].concat();
        assert_eq!(
            document,
            format!("<?xml version=\"1.0\"?>\n<catalog-list>\n{}\n</catalog-list>", kept)
        );
    }
}

#[test]
fn libraries_that_name_known_books_only() {
    let books = shelf();
    let known = library(&["a", "g", "a"], "0900", "1200");
    let unknown = library(&["a", "x"], "0900", "1200");
    let empty = library(&[], "0900", "1200");
    assert!(knows_books_of(&books, &known));
    assert!(!knows_books_of(&books, &unknown));
    assert!(knows_books_of(&books, &empty));
    assert!(knows_books_of(&BookIndex::new(), &empty));
    assert!(!knows_books_of(&BookIndex::new(), &known));
    assert!(knows_all_books(&books, &Vec::new()));
    assert!(knows_all_books(
        &books,
        &vec![library(&["a"], "0900", "1200"), library(&["b", "c"], "0900", "1200")]
    ));
    assert!(!knows_all_books(
        &books,
        &vec![library(&["a"], "0900", "1200"), library(&["b", "A"], "0900", "1200")]
    ));
}

#[test]
fn scripted_assembly_never_picks_a_barred_book() {
    let l = library(&["a", "b", "c", "d", "e", "f", "g"], "0000", "2359");
    let books = index(&[("a", 1), ("b", 1), ("c", 1), ("d", 1), ("e", 1), ("f", 1), ("g", 1)]);
    let draws: Vec<usize> = (0..40).map(|k| k * 7 + 3).collect();
    let session =
        assemble_scripted(&vec![&l], &books, &BookIndex::new(), 40, None, true, &draws).unwrap();
    assert_eq!(session.history.len(), 40);
    assert_eq!(session.total_minutes, 40);
    for (k, id) in session.history.iter().enumerate() {
        let start = lookback_start(k);
        assert!(!session.history[start..k].contains(id));
    }
}

#[test]
fn read_items_are_those_of_books_with_reading_time() {
    let books = index(&[("a", 10), ("z", 0), ("b", 20)]);
    let session = Session {
        items: texts(&["<a/>", "<z/>", "<b/>", "<z/>", "<x/>", "<a/>"]),
        history: texts(&["a", "z", "b", "z", "x", "a"]),
        total_minutes: 40,
        skip_minutes: 0,
    };
    assert_eq!(session.read_items(&books), texts(&["<a/>", "<b/>", "<a/>"]));
    assert_eq!(Session::new().read_items(&books), Vec::<String>::new());
    let uneven = Session {
        items: texts(&["<a/>", "<b/>", "<a/>"]),
        history: texts(&["a", "b"]),
        total_minutes: 30,
        skip_minutes: 0,
    };
    assert_eq!(uneven.read_items(&books), texts(&["<a/>", "<b/>"]));
}

#[test]
fn one_book_is_picked_until_the_opening_hours_are_filled() {
    let l = library(&["a"], "0930", "1015");
    let books = index(&[("a", 15)]);
    assert_eq!(l.lib_time(), 45);
    let session =
        assemble_scripted(&vec![&l], &books, &BookIndex::new(), 120, None, false, &vec![7, 8, 9, 10])
            .unwrap();
    assert_eq!(session.history, texts(&["a", "a", "a"]));
    assert_eq!(session.items, texts(&["<a/>", "<a/>", "<a/>"]));
    assert_eq!(session.total_minutes, 45);
    let session = assemble(&vec![&l], &books, &BookIndex::new(), 120, None, false, 100).unwrap();
    assert_eq!(session.history, texts(&["a", "a", "a"]));
    assert_eq!(session.total_minutes, 45);
    let outcome = assemble(&vec![&l], &books, &BookIndex::new(), 120, None, true, 100);
    assert_eq!(outcome.unwrap_err(), CatalogError::NoEligibleBook);
}

#[test]
fn plain_picks_follow_the_draws_and_may_repeat() {
    let l = library(&["a", "b", "c", "d", "e", "f", "g"], "0900", "1200");
    let books = shelf();
    let session = assemble_scripted(
        &vec![&l],
        &books,
        &BookIndex::new(),
        60,
        None,
        false,
        &vec![0, 7, 14, 1, 1, 1],
    )
    .unwrap();
    assert_eq!(session.history, texts(&["a", "a", "a", "b", "b"]));
    assert_eq!(session.total_minutes, 70);
    assert_eq!(session.skip_minutes, 0);
}

#[test]
fn plain_picks_in_a_library_without_books_are_an_error() {
    let l = library(&[], "0900", "1200");
    let outcome = assemble_scripted(&vec![&l], &shelf(), &BookIndex::new(), 60, None, false, &vec![0]);
    assert_eq!(outcome.unwrap_err(), CatalogError::NoEligibleBook);
    let outcome = assemble(&vec![&l], &shelf(), &BookIndex::new(), 60, None, false, 10);
    assert_eq!(outcome.unwrap_err(), CatalogError::NoEligibleBook);
}
