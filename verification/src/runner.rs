//! Rating an answer against the answer that was expected, and the time that
//! it took.

use vstd::prelude::*;
use vstd::std_specs::cmp::PartialEqSpec;
use vstd::string::to_string_from_display_ensures;

verus! {

/// How a solution fared.
#[derive(Debug, Clone, PartialEq)]
pub enum Rating {
    /// The solution gave no answer: it panicked.
    Panicked,
    /// The solution gave this answer, and none was expected.
    Answered(String),
    /// The solution gave the answer that was expected.
    CorrectAnswer,
    /// The solution gave another answer than was expected.
    WrongAnswer { actual: String, expected: String },
}

/// Rates the answer `actual` of a solution, `None` standing for a panic,
/// against the answer that was expected, if any was. Answers are shown as
/// their `Display` form.
pub fn check_answer<T: std::fmt::Display + PartialEq>(actual: Option<T>, expected: &Option<T>) -> (rating:
    Rating)
    ensures
        actual is None ==> rating is Panicked,
        actual is Some && expected is None ==> (rating matches Rating::Answered(shown)
            && to_string_from_display_ensures(&actual->0, shown)),
        actual is Some && expected is Some ==> rating is CorrectAnswer || (rating matches Rating::WrongAnswer {
            actual: shown,
            expected: wanted,
        } && to_string_from_display_ensures(&actual->0, shown) && to_string_from_display_ensures(
            &expected->0,
            wanted,
        )),
        actual is Some && expected is Some && T::obeys_eq_spec() ==> (rating is CorrectAnswer
            <==> (actual->0).eq_spec(&expected->0)),
{
    match (&actual, expected) {
        (None, _) => Rating::Panicked,
        (Some(a), None) => Rating::Answered(a.to_string()),
        (Some(a), Some(e)) => {
            if a == e {
                Rating::CorrectAnswer
            } else {
                Rating::WrongAnswer { actual: a.to_string(), expected: e.to_string() }
            }
        },
    }
}

impl Rating {
    /// Whether the solution gave the answer that was expected.
    pub fn is_correct(&self) -> (yes: bool)
        ensures
            yes == (self is CorrectAnswer),
    {
        match self {
            Rating::CorrectAnswer => true,
            _ => false,
        }
    }
}

/// Whether every one of the solutions gave the answer that was expected.
pub fn all_correct(ratings: &[Rating]) -> (all: bool)
    ensures
        all == forall|i: int| 0 <= i < ratings@.len() ==> #[trigger] ratings@[i] is CorrectAnswer,
{
    for i in 0..ratings.len()
        invariant
            forall|k: int| 0 <= k < i ==> #[trigger] ratings@[k] is CorrectAnswer,
    {
        if !ratings[i].is_correct() {
            return false;
        }
    }
    true
}

/// How long a solution took, as it is shown.
#[derive(Debug, PartialEq, Eq)]
pub enum Pace {
    /// Under a millisecond: no time is shown.
    Instant,
    /// Under a second.
    Quick,
    /// A second or more.
    Slow,
}

/// The pace of a solution that took the given number of milliseconds.
pub fn pace_of(millis: u128) -> (pace: Pace)
    ensures
        pace == if millis == 0 {
            Pace::Instant
        } else if millis < 1000 {
            Pace::Quick
        } else {
            Pace::Slow
        },
{
    if millis == 0 {
        Pace::Instant
    } else if millis < 1000 {
        Pace::Quick
    } else {
        Pace::Slow
    }
}

} // verus!
