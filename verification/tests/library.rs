use reading_catalog::library::{get_available_libraries, Library, LibraryMetadata};

fn library(ids: &[&str], start: &str, end: &str, open_days: u32) -> Library {
    let metadata = LibraryMetadata {
        start_time: start.to_string(),
        end_time: end.to_string(),
        open_days,
    };
    Library::new(ids.iter().map(|id| id.to_string()).collect(), metadata).unwrap()
}

#[test]
fn library_keeps_what_it_was_given() {
    let l = library(&["b2", "b1", "b2"], "0900", "1200", 3);
    assert_eq!(l.book_ids(), &vec!["b2".to_string(), "b1".to_string(), "b2".to_string()]);
    assert_eq!(l.metadata().start_time, "0900");
    assert_eq!(l.metadata().end_time, "1200");
    assert_eq!(l.metadata().open_days, 3);
    assert_eq!(l.start_at(), 540);
    assert_eq!(l.end_at(), 720);
}

#[test]
fn library_with_a_malformed_time_is_refused() {
    let bad_start = LibraryMetadata {
        start_time: "9am".to_string(),
        end_time: "1200".to_string(),
        open_days: 0,
    };
    assert!(Library::new(vec!["b1".to_string()], bad_start).is_none());
    let bad_end = LibraryMetadata {
        start_time: "0900".to_string(),
        end_time: "".to_string(),
        open_days: 0,
    };
    assert!(Library::new(vec!["b1".to_string()], bad_end).is_none());
}

#[test]
fn lib_time_is_closing_minus_opening() {
    assert_eq!(library(&[], "0900", "1200", 0).lib_time(), 180);
    assert_eq!(library(&[], "0000", "2359", 0).lib_time(), 1439);
    assert_eq!(library(&[], "0900", "0900", 0).lib_time(), 0);
    assert_eq!(library(&[], "1200", "0900", 0).lib_time(), -180);
}

#[test]
fn library_is_open_within_its_hours_both_ends_included() {
    let l = library(&["b1"], "0900", "1200", 0);
    assert!(l.is_open(540, 1));
    assert!(l.is_open(600, 1));
    assert!(l.is_open(720, 1));
    assert!(!l.is_open(539, 1));
    assert!(!l.is_open(721, 1));
    assert!(!l.is_open(0, 1));
    assert!(!l.is_open(1439, 1));
}

#[test]
fn library_is_open_on_its_weekday_only() {
    let tuesdays = library(&["b1"], "0900", "1200", 3);
    assert!(tuesdays.is_open(600, 3));
    for weekday in [1, 2, 4, 5, 6, 7] {
        assert!(!tuesdays.is_open(600, weekday));
    }
    let every_day = library(&["b1"], "0900", "1200", 0);
    for weekday in 1..=7 {
        assert!(every_day.is_open(600, weekday));
    }
}

#[test]
fn library_that_opens_and_closes_at_once_is_never_open() {
    let l = library(&["b1"], "0900", "0900", 0);
    assert!(!l.is_open(540, 1));
    assert!(!l.is_open(539, 1));
    assert!(!l.is_open(541, 1));
}

#[test]
fn library_that_closes_before_it_opens_is_never_open() {
    let l = library(&["b1"], "1200", "0900", 0);
    assert!(!l.is_open(600, 1));
    assert!(!l.is_open(540, 1));
    assert!(!l.is_open(720, 1));
}

#[test]
fn available_libraries_are_the_open_ones_in_order() {
    let libraries = vec![
        library(&["a"], "0900", "1200", 0),
        library(&["b"], "1300", "1800", 0),
        library(&["c"], "0800", "1000", 2),
        library(&["d"], "0930", "1000", 0),
        library(&["e"], "0945", "0945", 0),
    ];
    let open = get_available_libraries(&libraries, 9 * 60 + 45, 2).unwrap();
    let names: Vec<&str> = open.iter().map(|l| l.book_ids()[0].as_str()).collect();
    assert_eq!(names, vec!["a", "c", "d"]);
    let open = get_available_libraries(&libraries, 9 * 60 + 45, 5).unwrap();
    let names: Vec<&str> = open.iter().map(|l| l.book_ids()[0].as_str()).collect();
    assert_eq!(names, vec!["a", "d"]);
}

#[test]
fn no_library_open_gives_none() {
    let libraries = vec![
        library(&["a"], "0900", "1200", 0),
        library(&["b"], "1300", "1800", 4),
    ];
    assert!(get_available_libraries(&libraries, 12 * 60 + 30, 4).is_none());
    assert!(get_available_libraries(&libraries, 14 * 60, 5).is_none());
    assert!(get_available_libraries(&Vec::new(), 600, 1).is_none());
}
