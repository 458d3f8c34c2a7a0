//! Reading person records from text lines, and checking a batch of them.
use vstd::prelude::*;

pub mod parser;
pub mod validator;

verus! {

/// Why a batch of input lines was refused.
#[derive(Debug, PartialEq, Eq)]
pub enum InputError {
    /// There were no lines at all.
    NoData,
    /// A line without a name.
    BadLine { details: String, line: String },
    /// Two records carry this name.
    DuplicatePerson(String),
    /// `person_name` ranks `invalid_choice`, who has no record.
    ChoseMissingPerson { person_name: String, invalid_choice: String },
    /// This person ranks themself.
    SelfChoice(String),
}

/// An `InputError` with its texts as character sequences.
pub enum InputErrorView {
    NoData,
    BadLine { details: Seq<char>, line: Seq<char> },
    DuplicatePerson(Seq<char>),
    ChoseMissingPerson { person_name: Seq<char>, invalid_choice: Seq<char> },
    SelfChoice(Seq<char>),
}

impl View for InputError {
    type V = InputErrorView;

    open spec fn view(&self) -> InputErrorView {
        match self {
            InputError::NoData => InputErrorView::NoData,
            InputError::BadLine { details, line } => InputErrorView::BadLine {
                details: details@,
                line: line@,
            },
            InputError::DuplicatePerson(n) => InputErrorView::DuplicatePerson(n@),
            InputError::ChoseMissingPerson { person_name, invalid_choice } =>
                InputErrorView::ChoseMissingPerson {
                    person_name: person_name@,
                    invalid_choice: invalid_choice@,
                },
            InputError::SelfChoice(n) => InputErrorView::SelfChoice(n@),
        }
    }
}

} // verus!
