//! Pairs people into roommates from their ranked preferences.
//!
//! Each input line names a person followed by the people they would like to
//! live with, most wanted first. The lines are parsed into person records,
//! checked as a whole batch, and gathered into the set of unmatched people;
//! the matcher then pairs everyone whose first choice is mutual and reports
//! the rest as unmatched.
use vstd::prelude::*;

pub mod input;
pub mod logic;
pub mod model;

pub use crate::input::{InputError, InputErrorView};
pub use crate::logic::{Assignment, MatchError, MatchOutcome};
pub use crate::model::{PersonData, PersonView, UnmatchedPeople, UnmatchedPeopleIterator};

use crate::input::parser::parse_outcome;
use crate::logic::{mutual_pass, pairs, partitions};
use crate::model::{names_of, people_map, texts};

verus! {

/// Why the whole run failed: bad input, or a matching rule that failed.
#[derive(Debug, PartialEq, Eq)]
pub enum RoommateError {
    Input(InputError),
    Match(MatchError),
}

/// Parses the lines, checks the batch, and pairs mutual first choices.
///
/// On success the pairs are those of one pass of the mutual-first-choice rule
/// over the records in input order, and the pairs and the unmatched names
/// split the input names exactly. On failure the error is the first one that
/// the input shows (see `parse_outcome`).
pub fn match_roommates_from_csv_lines(lines: Vec<String>) -> (r: Result<MatchOutcome, RoommateError>)
    ensures
        match r {
            Ok(outcome) => parse_outcome(texts(lines@)) matches Ok(ps) && {
                let st = mutual_pass(people_map(ps), names_of(ps));
                &&& pairs(outcome.matches@) == st.matches
                &&& texts(outcome.unmatched@).no_duplicates()
                &&& texts(outcome.unmatched@).to_set() == st.left
                &&& partitions(
                    names_of(ps).to_set(),
                    pairs(outcome.matches@),
                    texts(outcome.unmatched@).to_set(),
                )
            },
            Err(RoommateError::Input(e)) => parse_outcome(texts(lines@)) == Err::<
                Seq<PersonView>,
                InputErrorView,
            >(e@),
            Err(RoommateError::Match(_)) => false,
        },
{
    let people = match input::parser::parse(lines) {
        Ok(people) => people,
        Err(e) => {
            return Err(RoommateError::Input(e));
        },
    };
    proof {
        people.lemma_view_is_people_map();
        people.lemma_len();
    }
    match logic::match_roommates(people) {
        Ok(outcome) => Ok(outcome),
        Err(e) => Err(RoommateError::Match(e)),
    }
}

} // verus!
