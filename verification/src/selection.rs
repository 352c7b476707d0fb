//! Picking a book of a library without repeating one too soon.

use vstd::prelude::*;
use crate::errors::CatalogError;
use crate::library::Library;
use crate::random::random_below;

verus! {

/// The size of the window within which a book is not picked twice. It must be
/// smaller than the number of books of every library.
pub const REPEAT_AFTER: usize = 4;

/// While fewer picks than this were made, none of them may be repeated.
pub const LOOKBACK_THRESHOLD: usize = REPEAT_AFTER + 2;

/// The position in a history of `picks` picks from which on they are barred
/// from being repeated: the start of the history while it is short, the
/// start of its last block of `REPEAT_AFTER` picks afterwards.
pub open spec fn window_start(picks: nat) -> nat {
    if picks < LOOKBACK_THRESHOLD {
        0
    } else {
        (picks / (REPEAT_AFTER as nat)) * (REPEAT_AFTER as nat)
    }
}

/// The picks of `history` that may not be repeated by the next one.
pub open spec fn forbidden(history: Seq<Seq<char>>) -> Seq<Seq<char>> {
    history.subrange(window_start(history.len()) as int, history.len() as int)
}

/// The identifiers among `ids` that are not in `barred`, each once, in the
/// order in which `ids` first names them.
pub open spec fn eligible(ids: Seq<Seq<char>>, barred: Seq<Seq<char>>) -> Seq<Seq<char>>
    decreases ids.len(),
{
    if ids.len() == 0 {
        Seq::empty()
    } else {
        let earlier = eligible(ids.drop_last(), barred);
        let id = ids.last();
        if barred.contains(id) || earlier.contains(id) {
            earlier
        } else {
            earlier.push(id)
        }
    }
}

/// The identifier that draw number `draw` picks from `ids` after `history`:
/// the eligible one at position `draw` modulo their number; `None` where no
/// identifier is eligible.
pub open spec fn pick(ids: Seq<Seq<char>>, history: Seq<Seq<char>>, draw: nat) -> Option<
    Seq<char>,
> {
    let candidates = eligible(ids, forbidden(history));
    if candidates.len() == 0 {
        None
    } else {
        Some(candidates[(draw % candidates.len()) as int])
    }
}

/// The identifier that draw number `draw` picks from `ids` with no regard
/// to what was picked before: the one at position `draw` modulo their
/// number; `None` where there is no identifier.
pub open spec fn pick_any(ids: Seq<Seq<char>>, draw: nat) -> Option<Seq<char>> {
    if ids.len() == 0 {
        None
    } else {
        Some(ids[(draw % ids.len()) as int])
    }
}

/// An identifier is eligible exactly if `ids` names it and `barred` does not,
/// and no identifier is eligible twice.
pub proof fn lemma_eligible(ids: Seq<Seq<char>>, barred: Seq<Seq<char>>)
    ensures
        forall|id: Seq<char>| #[trigger]
            eligible(ids, barred).contains(id) <==> ids.contains(id) && !barred.contains(id),
        eligible(ids, barred).no_duplicates(),
    decreases ids.len(),
{
    let all = eligible(ids, barred);
    if ids.len() == 0 {
    } else {
        let rest = ids.drop_last();
        let earlier = eligible(rest, barred);
        let last = ids.last();
        lemma_eligible(rest, barred);
        assert forall|id: Seq<char>| #[trigger]
            all.contains(id) <==> ids.contains(id) && !barred.contains(id) by {
            if ids.contains(id) {
                let k = choose|k: int| 0 <= k < ids.len() && ids[k] == id;
                if k < rest.len() {
                    assert(rest[k] == id);
                    assert(rest.contains(id));
                }
            }
            if rest.contains(id) {
                let k = choose|k: int| 0 <= k < rest.len() && rest[k] == id;
                assert(ids[k] == id);
            }
            assert(ids[ids.len() - 1] == last);
            if earlier.contains(id) {
                let k = choose|k: int| 0 <= k < earlier.len() && earlier[k] == id;
                if all.len() > earlier.len() {
                    assert(all[k] == id);
                }
            }
            if all.contains(id) && !earlier.contains(id) {
                let k = choose|k: int| 0 <= k < all.len() && all[k] == id;
                if k < earlier.len() {
                    assert(earlier[k] == id);
                }
            }
            if all.len() > earlier.len() {
                assert(all[earlier.len() as int] == last);
            }
        }
        assert forall|i: int, j: int| 0 <= i < all.len() && 0 <= j < all.len() && i != j implies all[i]
            != all[j] by {
            if i < earlier.len() && j < earlier.len() {
            } else if i < earlier.len() {
                assert(earlier[i] == all[i]);
                assert(earlier.contains(all[i]));
            } else if j < earlier.len() {
                assert(earlier[j] == all[j]);
                assert(earlier.contains(all[j]));
            }
        }
    }
}

/// The barred picks of a history of `n` picks are all of them while `n` is
/// below the threshold, and afterwards those from position
/// `(n / REPEAT_AFTER) * REPEAT_AFTER` on.
pub proof fn lemma_forbidden_window(history: Seq<Seq<char>>)
    ensures
        history.len() < LOOKBACK_THRESHOLD ==> forbidden(history) == history,
        history.len() >= LOOKBACK_THRESHOLD ==> forbidden(history) == history.subrange(
            (history.len() / (REPEAT_AFTER as nat)) * REPEAT_AFTER,
            history.len() as int,
        ),
        forall|id: Seq<char>| #[trigger]
            forbidden(history).contains(id) <==> exists|k: int|
                window_start(history.len()) <= k < history.len() && history[k] == id,
{
    let start = window_start(history.len()) as int;
    if history.len() < LOOKBACK_THRESHOLD {
        assert(forbidden(history) =~= history);
    }
    assert forall|id: Seq<char>| #[trigger]
        forbidden(history).contains(id) <==> exists|k: int|
            window_start(history.len()) <= k < history.len() && history[k] == id by {
        if forbidden(history).contains(id) {
            let j = choose|j: int| 0 <= j < forbidden(history).len() && forbidden(history)[j] == id;
            assert(history[start + j] == id);
        }
        if exists|k: int| start <= k < history.len() && history[k] == id {
            let k = choose|k: int| start <= k < history.len() && history[k] == id;
            assert(forbidden(history)[k - start] == id);
        }
    }
}

/// The position from which on a history of `picks` picks bars repetition.
pub fn lookback_start(picks: usize) -> (start: usize)
    ensures
        start == window_start(picks as nat),
        start <= picks,
{
    if picks < LOOKBACK_THRESHOLD {
        0
    } else {
        (picks / REPEAT_AFTER) * REPEAT_AFTER
    }
}

/// Whether `id` stands in `texts` at position `from` or later.
pub fn holds_from(texts: &Vec<String>, from: usize, id: &String) -> (held: bool)
    ensures
        held == exists|k: int| from <= k < texts.len() && #[trigger] texts.deep_view()[k] == id@,
{
    let mut i: usize = from;
    while i < texts.len()
        invariant
            from <= i,
            forall|k: int| from <= k < i && k < texts.len() ==> #[trigger] texts.deep_view()[k] != id@,
        decreases texts.len() - i,
    {
        assert(texts.deep_view()[i as int] == texts[i as int]@);
        if texts[i] == *id {
            return true;
        }
        i += 1;
    }
    false
}

/// A text stands in the part of `texts` from `from` on exactly if it stands
/// in `texts` at one of these positions.
proof fn lemma_tail_contains(texts: Seq<Seq<char>>, from: int, id: Seq<char>)
    requires
        0 <= from <= texts.len(),
    ensures
        texts.subrange(from, texts.len() as int).contains(id) <==> exists|k: int|
            from <= k < texts.len() && #[trigger] texts[k] == id,
{
    let tail = texts.subrange(from, texts.len() as int);
    if tail.contains(id) {
        let j = choose|j: int| 0 <= j < tail.len() && tail[j] == id;
        assert(texts[from + j] == id);
    }
    if exists|k: int| from <= k < texts.len() && #[trigger] texts[k] == id {
        let k = choose|k: int| from <= k < texts.len() && #[trigger] texts[k] == id;
        assert(tail[k - from] == id);
    }
}

impl Library {
    /// The books of the library that the next pick after `history` may fall
    /// on, each once, in the library's order.
    pub fn eligible_books(&self, history: &Vec<String>) -> (candidates: Vec<String>)
        ensures
            candidates.deep_view() == eligible(self@.book_ids, forbidden(history.deep_view())),
    {
        let ids = self.book_ids();
        let start = lookback_start(history.len());
        let ghost barred = forbidden(history.deep_view());
        let mut candidates: Vec<String> = Vec::new();
        let mut i: usize = 0;
        assert(candidates.deep_view() =~= Seq::<Seq<char>>::empty());
        assert(ids.deep_view().take(0).len() == 0);
        while i < ids.len()
            invariant
                i <= ids.len(),
                start == window_start(history.len() as nat),
                barred == forbidden(history.deep_view()),
                candidates.deep_view() == eligible(ids.deep_view().take(i as int), barred),
            decreases ids.len() - i,
        {
            let id = &ids[i];
            let ghost earlier = candidates.deep_view();
            proof {
                let upto = ids.deep_view().take(i + 1);
                assert(upto.drop_last() =~= ids.deep_view().take(i as int));
                assert(upto.last() == id@);
                lemma_tail_contains(history.deep_view(), start as int, id@);
                lemma_tail_contains(earlier, 0, id@);
            }
            if !holds_from(history, start, id) && !holds_from(&candidates, 0, id) {
                candidates.push(id.clone());
                assert(candidates.deep_view() =~= earlier.push(id@));
            }
            i += 1;
        }
        assert(ids.deep_view().take(ids.len() as int) =~= ids.deep_view());
        candidates
    }

    /// Picks the book that draw number `draw` falls on among those that may
    /// follow `history`, and appends it to `history`. Fails, and leaves
    /// `history` as it is, where no book of the library may follow.
    pub fn choose_non_repeated(&self, history: &mut Vec<String>, draw: usize) -> (picked: Result<
        String,
        CatalogError,
    >)
        ensures
            match picked {
                Ok(id) => pick(self@.book_ids, old(history).deep_view(), draw as nat) == Some(id@)
                    && final(history).deep_view() == old(history).deep_view().push(id@),
                Err(e) => e == CatalogError::NoEligibleBook && pick(
                    self@.book_ids,
                    old(history).deep_view(),
                    draw as nat,
                ) is None && final(history).deep_view() == old(history).deep_view(),
            },
    {
        let candidates = self.eligible_books(history);
        if candidates.len() == 0 {
            return Err(CatalogError::NoEligibleBook);
        }
        let id = candidates[draw % candidates.len()].clone();
        let ghost before = history.deep_view();
        history.push(id.clone());
        assert(history.deep_view() =~= before.push(id@));
        Ok(id)
    }

    /// Picks at random, each with the same chance, one of the books that may
    /// follow `history`, and appends it to `history`. Fails, and leaves
    /// `history` as it is, where no book of the library may follow.
    pub fn get_non_repeated_book(&self, history: &mut Vec<String>) -> (picked: Result<
        String,
        CatalogError,
    >)
        ensures
            match picked {
                Ok(id) => {
                    &&& eligible(self@.book_ids, forbidden(old(history).deep_view())).contains(id@)
                    &&& self@.book_ids.contains(id@)
                    &&& !forbidden(old(history).deep_view()).contains(id@)
                    &&& final(history).deep_view() == old(history).deep_view().push(id@)
                },
                Err(e) => {
                    &&& e == CatalogError::NoEligibleBook
                    &&& eligible(self@.book_ids, forbidden(old(history).deep_view())).len() == 0
                    &&& final(history).deep_view() == old(history).deep_view()
                },
            },
    {
        let candidates = self.eligible_books(history);
        if candidates.len() == 0 {
            return Err(CatalogError::NoEligibleBook);
        }
        let at = random_below(candidates.len());
        let id = candidates[at].clone();
        let ghost before = history.deep_view();
        proof {
            let eligible_ids = eligible(self@.book_ids, forbidden(before));
            assert(candidates.deep_view() == eligible_ids);
            assert(eligible_ids[at as int] == id@);
            assert(eligible_ids.contains(id@));
            lemma_eligible(self@.book_ids, forbidden(before));
            assert(self@.book_ids.contains(id@) && !forbidden(before).contains(id@));
        }
        history.push(id.clone());
        assert(history.deep_view() =~= before.push(id@));
        Ok(id)
    }

    /// Picks the book that draw number `draw` falls on among all that the
    /// library names, whatever was picked before, and appends it to
    /// `history`. Fails, and leaves `history` as it is, where the library
    /// names no book.
    pub fn choose_any(&self, history: &mut Vec<String>, draw: usize) -> (picked: Result<
        String,
        CatalogError,
    >)
        ensures
            match picked {
                Ok(id) => pick_any(self@.book_ids, draw as nat) == Some(id@) && final(history).deep_view() == old(history).deep_view().push(id@),
                Err(e) => e == CatalogError::NoEligibleBook && pick_any(
                    self@.book_ids,
                    draw as nat,
                ) is None && final(history).deep_view() == old(history).deep_view(),
            },
    {
        let ids = self.book_ids();
        if ids.len() == 0 {
            return Err(CatalogError::NoEligibleBook);
        }
        let id = ids[draw % ids.len()].clone();
        let ghost before = history.deep_view();
        history.push(id.clone());
        assert(history.deep_view() =~= before.push(id@));
        Ok(id)
    }

    /// Picks at random, each place in the library's list with the same
    /// chance, one of the books that the library names, whatever was picked
    /// before, and appends it to `history`. Fails, and leaves `history` as
    /// it is, where the library names no book.
    pub fn get_rand_book(&self, history: &mut Vec<String>) -> (picked: Result<String, CatalogError>)
        ensures
            match picked {
                Ok(id) => self@.book_ids.contains(id@) && final(history).deep_view() == old(history).deep_view().push(id@),
                Err(e) => e == CatalogError::NoEligibleBook && self@.book_ids.len() == 0 && final(history).deep_view() == old(history).deep_view(),
            },
    {
        let ids = self.book_ids();
        if ids.len() == 0 {
            return Err(CatalogError::NoEligibleBook);
        }
        let at = random_below(ids.len());
        let id = ids[at].clone();
        let ghost before = history.deep_view();
        assert(self@.book_ids[at as int] == id@);
        history.push(id.clone());
        assert(history.deep_view() =~= before.push(id@));
        Ok(id)
    }
}

} // verus!
