//! What holds of every tour through the libraries.

use vstd::prelude::*;
use crate::books::{distinct_ids, has_id, lemma_lookup_at, lookup, BookView};
use crate::catalog::{
    all_known, budget_met, budget_open, fresh, holiday_due, known, lemma_any_is_known,
    lemma_picked_is_known, pick_in, step, tour, visit, Request, SessionView,
};
use crate::errors::CatalogError;
use crate::library::LibraryView;
use crate::selection::{forbidden, LOOKBACK_THRESHOLD};

verus! {

/// What holds of every assembly that picks have built up from nothing: the
/// minutes that do not count are among those gathered, every pick has left
/// its content, and minutes were gathered only with a pick.
pub open spec fn consistent(s: SessionView) -> bool {
    &&& s.skip <= s.total
    &&& s.history.len() == s.items.len()
    &&& s.total > 0 ==> s.items.len() > 0
}

/// In a consistent assembly the two tests of the reading time agree:
/// reading time is still wanted exactly while a further library would be
/// visited.
pub proof fn lemma_budget_tests_agree(s: SessionView, requested: nat)
    requires
        consistent(s),
    ensures
        budget_open(s, requested) <==> !budget_met(s, requested),
{
}

/// `later` continues `earlier`: it begins with the same picks.
pub open spec fn continues(earlier: Seq<Seq<char>>, later: Seq<Seq<char>>) -> bool {
    earlier.len() <= later.len() && later.subrange(0, earlier.len() as int) == earlier
}

/// Some library of `libraries` names the book `id`.
pub open spec fn named_by(libraries: Seq<LibraryView>, id: Seq<char>) -> bool {
    exists|i: int| 0 <= i < libraries.len() && (#[trigger] libraries[i]).book_ids.contains(id)
}

/// From position `from` on, the picks of `history` keep the cadence: each
/// pick whose position is a multiple of the frequency plus one is a holiday
/// book, and every other pick is a book of one of `libraries`. Without a
/// frequency every pick is a book of one of `libraries`.
pub open spec fn cadence_kept(
    history: Seq<Seq<char>>,
    from: int,
    libraries: Seq<LibraryView>,
    r: Request,
) -> bool {
    forall|k: int|
        from <= k < history.len() ==> if holiday_due(k as nat, r.frequency) {
            has_id(r.holiday, #[trigger] history[k])
        } else {
            named_by(libraries, history[k])
        }
}

/// Where books are not to be repeated: from position `from` on, no pick of
/// `history` that is a book of a library repeats one of the picks that were
/// barred when it was made.
pub open spec fn window_kept(history: Seq<Seq<char>>, from: int, r: Request) -> bool {
    r.non_repeated ==> forall|k: int|
        from <= k < history.len() && !holiday_due(k as nat, r.frequency) ==> !forbidden(
            history.take(k),
        ).contains(#[trigger] history[k])
}

/// The book that stands behind the pick `id` at position `k`: a holiday
/// book where one was due, a book of the libraries otherwise.
pub open spec fn book_behind(id: Seq<char>, k: int, r: Request) -> Option<BookView> {
    if holiday_due(k as nat, r.frequency) {
        lookup(r.holiday, id)
    } else {
        lookup(r.books, id)
    }
}

/// From position `from` on, each content gathered is that of the book
/// behind the pick at the same position.
pub open spec fn contents_kept(s: SessionView, from: int, r: Request) -> bool {
    forall|k: int|
        from <= k < s.history.len() && k < s.items.len() ==> (book_behind(
            #[trigger] s.history[k],
            k,
            r,
        ) matches Some(book) && s.items[k] == book.content)
}

/// The minutes of reading of the book behind the pick `id` at position `k`.
pub open spec fn minutes_behind(id: Seq<char>, k: int, r: Request) -> nat {
    match book_behind(id, k, r) {
        Some(book) => book.read_minutes(),
        None => 0,
    }
}

/// The minutes of reading of the books behind the first `n` picks of
/// `history`, all together.
pub open spec fn minutes_of_picks(history: Seq<Seq<char>>, r: Request, n: nat) -> nat
    decreases n,
{
    if n == 0 {
        0
    } else {
        minutes_of_picks(history, r, (n - 1) as nat) + minutes_behind(history[n - 1], n - 1, r)
    }
}

/// The minutes gathered are those of the books picked, all together. The
/// minutes that do not count are those of the first pick where holiday
/// books are recommended, and then more than none; otherwise there are
/// none.
pub open spec fn accounted(s: SessionView, r: Request) -> bool {
    &&& s.total == minutes_of_picks(s.history, r, s.history.len())
    &&& if r.frequency is Some && s.history.len() > 0 {
        s.skip > 0 && s.skip == minutes_behind(s.history[0], 0, r)
    } else {
        s.skip == 0
    }
}

/// The last pick was made while reading time was still wanted: without its
/// minutes, the minutes that count are fewer than those asked for.
pub open spec fn last_wanted(s: SessionView, r: Request) -> bool {
    s.history.len() > 0 ==> s.total - s.skip < r.requested + minutes_behind(
        s.history.last(),
        s.history.len() - 1,
        r,
    )
}

/// Histories that begin with the same `n` picks have the same minutes of
/// reading behind these.
pub proof fn lemma_minutes_of_prefix(
    first: Seq<Seq<char>>,
    second: Seq<Seq<char>>,
    r: Request,
    n: nat,
)
    requires
        n <= first.len(),
        n <= second.len(),
        first.take(n as int) == second.take(n as int),
    ensures
        minutes_of_picks(first, r, n) == minutes_of_picks(second, r, n),
    decreases n,
{
    if n > 0 {
        assert(first.take(n as int)[n - 1] == first[n - 1]);
        assert(second.take(n as int)[n - 1] == second[n - 1]);
        assert(first.take(n - 1) =~= first.take(n as int).take(n - 1));
        assert(second.take(n - 1) =~= second.take(n as int).take(n - 1));
        lemma_minutes_of_prefix(first, second, r, (n - 1) as nat);
    }
}

/// The minutes for which the libraries are open, all together; a library
/// that closes before it opens counts for none.
pub open spec fn capacity(libraries: Seq<LibraryView>) -> int
    decreases libraries.len(),
{
    if libraries.len() == 0 {
        0
    } else {
        let span = libraries.first().span();
        (if span > 0 {
            span
        } else {
            0
        }) + capacity(libraries.drop_first())
    }
}

/// What one pick does to a consistent assembly.
pub proof fn lemma_step(s: SessionView, used: nat, library: LibraryView, r: Request, draw: nat)
    requires
        consistent(s),
        accounted(s, r),
        known(r.books, library),
        distinct_ids(r.holiday),
    ensures
        step(s, used, library, r, draw) matches Ok((e, now)) ==> {
            &&& consistent(e)
            &&& accounted(e, r)
            &&& e.total >= s.total
            &&& now - used == e.total - s.total
            &&& e.total - e.skip >= s.total - s.skip
            &&& continues(s.history, e.history)
            &&& continues(s.items, e.items)
            &&& e.history.len() <= s.history.len() + 1
            &&& budget_open(s, r.requested) && last_wanted(s, r) ==> last_wanted(e, r)
            &&& e.history.len() == s.history.len() + 1 ==> {
                &&& (book_behind(e.history.last(), s.history.len() as int, r) matches Some(book)
                    && e.items.last() == book.content)
                &&& if holiday_due(s.history.len(), r.frequency) {
                    has_id(r.holiday, e.history.last())
                } else {
                    library.book_ids.contains(e.history.last()) && (r.non_repeated ==> !forbidden(
                        s.history,
                    ).contains(e.history.last()))
                }
            }
        },
{
    match step(s, used, library, r, draw) {
        Ok((e, now)) => {
            let k = s.history.len();
            assert(e.history.subrange(0, k as int) =~= s.history);
            assert(e.items.subrange(0, s.items.len() as int) =~= s.items);
            if e.history.len() > k {
                assert(e.history.take(k as int) =~= s.history.take(k as int));
                lemma_minutes_of_prefix(e.history, s.history, r, k);
                if k > 0 {
                    assert(e.history[0] == s.history[0]);
                }
            }
            if holiday_due(k, r.frequency) {
                let at = (draw % r.holiday.len()) as int;
                let book = r.holiday[at];
                if book.read_minutes() > 0 {
                    assert(e.history.last() == book.id);
                    assert(has_id(r.holiday, book.id));
                    lemma_lookup_at(r.holiday, at);
                }
            } else {
                lemma_picked_is_known(r.books, library, s.history, draw);
                lemma_any_is_known(r.books, library, draw);
                let id = pick_in(library, s.history, r, draw).unwrap();
                assert(e.history.last() == id);
                if r.frequency is Some {
                    assert(k > 0) by {
                        if k == 0 {
                            assert(0nat % (r.frequency.unwrap() as nat + 1) == 0);
                        }
                    }
                }
            }
        },
        Err(_) => {},
    }
}

/// What continues a continuation continues the first.
pub proof fn lemma_continues(
    first: Seq<Seq<char>>,
    second: Seq<Seq<char>>,
    third: Seq<Seq<char>>,
)
    requires
        continues(first, second),
        continues(second, third),
    ensures
        continues(first, third),
        forall|k: int| 0 <= k < second.len() ==> third[k] == second[k],
        forall|k: int| 0 <= k <= second.len() ==> third.take(k) == second.take(k),
{
    assert forall|k: int| 0 <= k < second.len() implies third[k] == second[k] by {
        assert(third.subrange(0, second.len() as int)[k] == third[k]);
    }
    assert forall|k: int| 0 <= k < first.len() implies third[k] == first[k] by {
        assert(second.subrange(0, first.len() as int)[k] == second[k]);
    }
    assert(third.subrange(0, first.len() as int) =~= first);
    assert forall|k: int| 0 <= k <= second.len() implies third.take(k) == second.take(k) by {
        assert(third.take(k) =~= second.take(k));
    }
}

/// What one visit does to a consistent assembly: on leaving, reading time
/// is no longer wanted or the visit has filled the library's opening hours;
/// the picks made keep the cadence and the window, the books of a library
/// among them being books of this one, and have left their contents.
pub proof fn lemma_visit(
    s: SessionView,
    used: nat,
    library: LibraryView,
    r: Request,
    draws: Seq<nat>,
)
    requires
        consistent(s),
        accounted(s, r),
        known(r.books, library),
        distinct_ids(r.holiday),
    ensures
        visit(s, used, library, r, draws) matches Ok((e, rest)) ==> {
            &&& consistent(e)
            &&& accounted(e, r)
            &&& last_wanted(s, r) ==> last_wanted(e, r)
            &&& e.total >= s.total
            &&& e.total - e.skip >= s.total - s.skip
            &&& !budget_open(e, r.requested) || used + (e.total - s.total) >= library.span()
            &&& continues(s.history, e.history)
            &&& continues(s.items, e.items)
            &&& cadence_kept(e.history, s.history.len() as int, seq![library], r)
            &&& window_kept(e.history, s.history.len() as int, r)
            &&& contents_kept(e, s.history.len() as int, r)
        },
    decreases draws.len(),
{
    let only = seq![library];
    if !(used < library.span() && budget_open(s, r.requested)) {
        assert(s.history.subrange(0, s.history.len() as int) =~= s.history);
        assert(s.items.subrange(0, s.items.len() as int) =~= s.items);
    } else if draws.len() == 0 {
    } else {
        lemma_step(s, used, library, r, draws.first());
        match step(s, used, library, r, draws.first()) {
            Err(_) => {},
            Ok((next, now_used)) => {
                lemma_visit(next, now_used, library, r, draws.drop_first());
                match visit(next, now_used, library, r, draws.drop_first()) {
                    Err(_) => {},
                    Ok((e, rest)) => {
                        lemma_continues(s.history, next.history, e.history);
                        lemma_continues(s.items, next.items, e.items);
                        let from = s.history.len() as int;
                        assert(only[0] == library);
                        assert forall|k: int| from <= k < e.history.len() implies if holiday_due(
                            k as nat,
                            r.frequency,
                        ) {
                            has_id(r.holiday, #[trigger] e.history[k])
                        } else {
                            named_by(only, e.history[k])
                        } by {
                            if k < next.history.len() {
                                assert(e.history[k] == next.history.last());
                                if !holiday_due(k as nat, r.frequency) {
                                    assert(only[0].book_ids.contains(e.history[k]));
                                }
                            }
                        }
                        assert forall|k: int|
                            r.non_repeated && from <= k < e.history.len() && !holiday_due(
                                k as nat,
                                r.frequency,
                            ) implies !forbidden(e.history.take(k)).contains(
                            #[trigger] e.history[k],
                        ) by {
                            if k < next.history.len() {
                                assert(e.history[k] == next.history.last());
                                assert(e.history.take(k) == next.history.take(k));
                                assert(next.history.take(k) =~= s.history);
                            }
                        }
                        assert forall|k: int|
                            from <= k < e.history.len() && k < e.items.len() implies (book_behind(
                            #[trigger] e.history[k],
                            k,
                            r,
                        ) matches Some(book) && e.items[k] == book.content) by {
                            if k < next.history.len() {
                                assert(e.history[k] == next.history.last());
                                assert(e.items[k] == next.items.last());
                            }
                        }
                    },
                }
            },
        }
    }
}

/// What a tour does to a consistent assembly: at its end the reading time
/// is filled, or the visits have filled the opening hours of every library;
/// the picks made keep the cadence and the window, and have left their
/// contents.
pub proof fn lemma_tour(s: SessionView, libraries: Seq<LibraryView>, r: Request, draws: Seq<nat>)
    requires
        consistent(s),
        accounted(s, r),
        all_known(r.books, libraries),
        distinct_ids(r.holiday),
    ensures
        tour(s, libraries, r, draws) matches Ok(e) ==> {
            &&& consistent(e)
            &&& accounted(e, r)
            &&& last_wanted(s, r) ==> last_wanted(e, r)
            &&& e.total >= s.total
            &&& e.total - e.skip >= s.total - s.skip
            &&& e.total - e.skip >= r.requested || e.total - s.total >= capacity(libraries)
            &&& continues(s.history, e.history)
            &&& continues(s.items, e.items)
            &&& cadence_kept(e.history, s.history.len() as int, libraries, r)
            &&& window_kept(e.history, s.history.len() as int, r)
            &&& contents_kept(e, s.history.len() as int, r)
        },
    decreases libraries.len(),
{
    if libraries.len() == 0 || budget_met(s, r.requested) {
        assert(s.history.subrange(0, s.history.len() as int) =~= s.history);
        assert(s.items.subrange(0, s.items.len() as int) =~= s.items);
    } else {
        let library = libraries.first();
        let others = libraries.drop_first();
        assert(known(r.books, libraries[0]));
        assert forall|i: int| 0 <= i < others.len() implies known(r.books, #[trigger] others[i]) by {
            assert(others[i] == libraries[i + 1]);
        }
        lemma_visit(s, 0, library, r, draws);
        match visit(s, 0, library, r, draws) {
            Err(_) => {},
            Ok((next, rest)) => {
                lemma_tour(next, others, r, rest);
                match tour(next, others, r, rest) {
                    Err(_) => {},
                    Ok(e) => {
                        lemma_continues(s.history, next.history, e.history);
                        lemma_continues(s.items, next.items, e.items);
                        let from = s.history.len() as int;
                        assert forall|k: int| from <= k < e.history.len() implies if holiday_due(
                            k as nat,
                            r.frequency,
                        ) {
                            has_id(r.holiday, #[trigger] e.history[k])
                        } else {
                            named_by(libraries, e.history[k])
                        } by {
                            if k < next.history.len() {
                                if !holiday_due(k as nat, r.frequency) {
                                    assert(named_by(seq![library], next.history[k]));
                                    assert(libraries[0].book_ids.contains(e.history[k]));
                                }
                            } else {
                                if !holiday_due(k as nat, r.frequency) {
                                    assert(named_by(others, e.history[k]));
                                    let i = choose|i: int|
                                        0 <= i < others.len() && (#[trigger] others[i]).book_ids.contains(
                                            e.history[k],
                                        );
                                    assert(libraries[i + 1].book_ids.contains(e.history[k]));
                                }
                            }
                        }
                        assert forall|k: int|
                            r.non_repeated && from <= k < e.history.len() && !holiday_due(
                                k as nat,
                                r.frequency,
                            ) implies !forbidden(e.history.take(k)).contains(
                            #[trigger] e.history[k],
                        ) by {
                            if k < next.history.len() {
                                assert(e.history.take(k) == next.history.take(k));
                                assert(!forbidden(next.history.take(k)).contains(next.history[k]));
                            }
                        }
                        assert forall|k: int|
                            from <= k < e.history.len() && k < e.items.len() implies (book_behind(
                            #[trigger] e.history[k],
                            k,
                            r,
                        ) matches Some(book) && e.items[k] == book.content) by {
                            if k < next.history.len() {
                                assert(next.items[k] == e.items[k]);
                                assert(book_behind(next.history[k], k, r) is Some);
                            }
                        }
                    },
                }
            },
        }
    }
}

/// An assembly that ends well has filled the reading time, the minutes of
/// the first holiday book not counted, or has gathered at least as many
/// minutes as all the libraries are open: every visit went on to the end
/// of the library's opening hours.
pub proof fn lemma_filled_or_exhausted(libraries: Seq<LibraryView>, r: Request, draws: Seq<nat>)
    requires
        all_known(r.books, libraries),
        distinct_ids(r.holiday),
    ensures
        tour(fresh(), libraries, r, draws) matches Ok(e) ==> e.total - e.skip >= r.requested
            || e.total >= capacity(libraries),
{
    lemma_tour(fresh(), libraries, r, draws);
}

/// In an assembly that ends well, the picks keep the cadence from the first
/// on: with a frequency `f`, the picks at the positions 0, `f + 1`,
/// `2 (f + 1)` and so on are holiday books and all others are books of the
/// libraries; without a frequency all picks are books of the libraries.
pub proof fn lemma_cadence(libraries: Seq<LibraryView>, r: Request, draws: Seq<nat>)
    requires
        all_known(r.books, libraries),
        distinct_ids(r.holiday),
    ensures
        tour(fresh(), libraries, r, draws) matches Ok(e) ==> cadence_kept(
            e.history,
            0,
            libraries,
            r,
        ),
{
    lemma_tour(fresh(), libraries, r, draws);
}

/// In an assembly that ends well, no book of a library was picked while the
/// picks before it barred it: none of the picks since the start of the
/// window, as it stood then, is the same book.
pub proof fn lemma_window(libraries: Seq<LibraryView>, r: Request, draws: Seq<nat>)
    requires
        all_known(r.books, libraries),
        distinct_ids(r.holiday),
    ensures
        tour(fresh(), libraries, r, draws) matches Ok(e) ==> window_kept(e.history, 0, r),
{
    lemma_tour(fresh(), libraries, r, draws);
}

/// In an assembly that ends well, every pick has left one content, that of
/// the book picked, at its own position.
pub proof fn lemma_contents(libraries: Seq<LibraryView>, r: Request, draws: Seq<nat>)
    requires
        all_known(r.books, libraries),
        distinct_ids(r.holiday),
    ensures
        tour(fresh(), libraries, r, draws) matches Ok(e) ==> e.items.len() == e.history.len()
            && contents_kept(e, 0, r),
{
    lemma_tour(fresh(), libraries, r, draws);
}

/// In an assembly that ends well, the minutes gathered are those of the
/// books picked, all together, and the minutes that do not count are those
/// of the first pick where holiday books are recommended, and none
/// otherwise.
pub proof fn lemma_minutes(libraries: Seq<LibraryView>, r: Request, draws: Seq<nat>)
    requires
        all_known(r.books, libraries),
        distinct_ids(r.holiday),
    ensures
        tour(fresh(), libraries, r, draws) matches Ok(e) ==> accounted(e, r),
{
    lemma_tour(fresh(), libraries, r, draws);
}

/// In an assembly that ends well, no book was picked once the reading time
/// was filled: without the minutes of the last pick, the minutes that count
/// are fewer than those asked for.
pub proof fn lemma_no_pick_once_filled(libraries: Seq<LibraryView>, r: Request, draws: Seq<nat>)
    requires
        all_known(r.books, libraries),
        distinct_ids(r.holiday),
    ensures
        tour(fresh(), libraries, r, draws) matches Ok(e) ==> last_wanted(e, r),
{
    lemma_tour(fresh(), libraries, r, draws);
}

/// Where books are not to be repeated and no holiday book is recommended,
/// the picks made before the window begins to move are all different.
pub proof fn lemma_first_picks_distinct(history: Seq<Seq<char>>, r: Request)
    requires
        r.non_repeated,
        r.frequency is None,
        window_kept(history, 0, r),
    ensures
        forall|i: int, j: int|
            0 <= i < j < history.len() && j < LOOKBACK_THRESHOLD ==> history[i] != history[j],
{
    assert forall|i: int, j: int|
        0 <= i < j < history.len() && j < LOOKBACK_THRESHOLD implies history[i] != history[j] by {
        let before = history.take(j);
        assert(!forbidden(before).contains(history[j]));
        assert(forbidden(before) =~= before);
        assert(before[i] == history[i]);
    }
}

/// An assembly for a positive reading time that starts in a library with
/// positive opening hours, and ends well, has gathered something.
pub proof fn lemma_gathers_something(libraries: Seq<LibraryView>, r: Request, draws: Seq<nat>)
    requires
        all_known(r.books, libraries),
        distinct_ids(r.holiday),
        r.requested > 0,
        libraries.len() > 0,
        libraries.first().span() > 0,
    ensures
        tour(fresh(), libraries, r, draws) matches Ok(e) ==> e.items.len() > 0,
{
    let s = fresh();
    let others = libraries.drop_first();
    assert(known(r.books, libraries[0]));
    assert forall|i: int| 0 <= i < others.len() implies known(r.books, #[trigger] others[i]) by {
        assert(others[i] == libraries[i + 1]);
    }
    lemma_visit(s, 0, libraries.first(), r, draws);
    match visit(s, 0, libraries.first(), r, draws) {
        Err(_) => {},
        Ok((next, rest)) => {
            lemma_tour(next, others, r, rest);
        },
    }
}

/// The same libraries, books, request and draws give the same outcome:
/// nothing else enters an assembly.
pub proof fn lemma_same_inputs_same_outcome(
    libraries: Seq<LibraryView>,
    r: Request,
    draws: Seq<nat>,
    first: Result<SessionView, CatalogError>,
    second: Result<SessionView, CatalogError>,
)
    requires
        first == tour(fresh(), libraries, r, draws),
        second == tour(fresh(), libraries, r, draws),
    ensures
        first == second,
{
}

} // verus!
