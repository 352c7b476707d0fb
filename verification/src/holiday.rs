//! The holiday collection and its table of recommendations.

use vstd::prelude::*;

verus! {

/// One line of the holiday table: on `date`, a holiday book is recommended
/// after every `recommended_frequency` other books.
#[derive(Clone, Debug)]
pub struct Frequency {
    pub recommended_frequency: u32,
    pub date: String,
}

/// What a [`Frequency`] holds, as mathematical values.
pub struct FrequencyView {
    pub recommended_frequency: u32,
    pub date: Seq<char>,
}

impl View for Frequency {
    type V = FrequencyView;

    open spec fn view(&self) -> FrequencyView {
        FrequencyView { recommended_frequency: self.recommended_frequency, date: self.date@ }
    }
}

/// The holiday collection: the name under which its books are kept, and the
/// table that says on which dates they are recommended, and how often.
#[derive(Clone, Debug)]
pub struct HolidayLibrary {
    pub uid: String,
    pub frequencies: Vec<Frequency>,
}

/// The views of the lines of a holiday table, in the same order.
pub open spec fn frequency_views(table: Seq<Frequency>) -> Seq<FrequencyView> {
    table.map_values(|f: Frequency| f@)
}

/// The frequency that the table recommends for `date`: that of its first
/// line whose date is `date`, letter for letter; `None` where no line has
/// that date.
pub open spec fn frequency_for(date: Seq<char>, table: Seq<FrequencyView>) -> Option<u32>
    decreases table.len(),
{
    if table.len() == 0 {
        None
    } else if table.first().date == date {
        Some(table.first().recommended_frequency)
    } else {
        frequency_for(date, table.drop_first())
    }
}

/// A date that no line of the table has gets no recommendation; the empty
/// date is no exception.
pub proof fn lemma_no_match_no_frequency(date: Seq<char>, table: Seq<FrequencyView>)
    requires
        forall|i: int| 0 <= i < table.len() ==> (#[trigger] table[i]).date != date,
    ensures
        frequency_for(date, table) is None,
    decreases table.len(),
{
    if table.len() > 0 {
        assert(table.first().date != date);
        assert forall|i: int| 0 <= i < table.drop_first().len() implies (#[trigger] table.drop_first()[i]).date
            != date by {
            assert(table[i + 1].date != date);
        }
        lemma_no_match_no_frequency(date, table.drop_first());
    }
}

/// A date that the line at position `at` has, and no line before it, gets
/// exactly the frequency of that line.
pub proof fn lemma_exact_match_frequency(date: Seq<char>, table: Seq<FrequencyView>, at: int)
    requires
        0 <= at < table.len(),
        table[at].date == date,
        forall|i: int| 0 <= i < at ==> (#[trigger] table[i]).date != date,
    ensures
        frequency_for(date, table) == Some(table[at].recommended_frequency),
    decreases table.len(),
{
    if at > 0 {
        assert(table[0].date != date);
        assert forall|i: int| 0 <= i < at - 1 implies (#[trigger] table.drop_first()[i]).date
            != date by {
            assert(table[i + 1].date != date);
        }
        lemma_exact_match_frequency(date, table.drop_first(), at - 1);
    }
}

/// A recommended frequency always comes from a line with the asked date.
pub proof fn lemma_frequency_has_source(date: Seq<char>, table: Seq<FrequencyView>)
    ensures
        frequency_for(date, table) matches Some(frequency) ==> exists|i: int|
            0 <= i < table.len() && (#[trigger] table[i]).date == date
                && table[i].recommended_frequency == frequency,
    decreases table.len(),
{
    if table.len() > 0 && table.first().date != date {
        lemma_frequency_has_source(date, table.drop_first());
        if frequency_for(date, table) is Some {
            let i = choose|i: int|
                0 <= i < table.drop_first().len() && (#[trigger] table.drop_first()[i]).date == date
                    && table.drop_first()[i].recommended_frequency == frequency_for(
                    date,
                    table,
                ).unwrap();
            assert(table[i + 1].date == date);
        }
    } else if table.len() > 0 {
        assert(table[0].date == date);
    }
}

/// Whether a holiday book is recommended on `date`, and after how many
/// other books each: the frequency of the first line of the table with that
/// very date.
pub fn is_recommendable(date: &String, frequencies: &Vec<Frequency>) -> (frequency: Option<u32>)
    ensures
        frequency == frequency_for(date@, frequency_views(frequencies@)),
{
    let ghost table = frequency_views(frequencies@);
    let mut i: usize = 0;
    assert(table.subrange(0, table.len() as int) =~= table);
    while i < frequencies.len()
        invariant
            i <= frequencies.len(),
            table == frequency_views(frequencies@),
            frequency_for(date@, table) == frequency_for(
                date@,
                table.subrange(i as int, table.len() as int),
            ),
        decreases frequencies.len() - i,
    {
        let ghost rest = table.subrange(i as int, table.len() as int);
        assert(rest.first() == frequencies[i as int]@);
        assert(rest.drop_first() =~= table.subrange(i + 1, table.len() as int));
        if frequencies[i].date == *date {
            return Some(frequencies[i].recommended_frequency);
        }
        i += 1;
    }
    None
}

} // verus!
