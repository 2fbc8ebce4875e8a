//! How a span of time is broken up for display.

use vstd::prelude::*;

verus! {

/// A span of whole seconds, broken up by its size: above an hour into
/// hours, minutes and seconds; above a minute into minutes and seconds;
/// else into seconds; and a span under a second, of which only the
/// fraction is shown.
#[derive(Clone, Copy, Debug, PartialEq, Eq, Structural)]
pub enum Span {
    Hours { hrs: u64, mins: u64, secs: u64 },
    Minutes { mins: u64, secs: u64 },
    Seconds { secs: u64 },
    Fraction,
}

/// The parts of a span of `secs` whole seconds. A span of exactly an hour
/// is still shown in minutes, and one of exactly a minute in seconds.
pub open spec fn span_of(secs: u64) -> Span {
    if secs > 3600 {
        Span::Hours { hrs: secs / 3600, mins: ((secs / 60) % 60) as u64, secs: secs % 60 }
    } else if secs > 60 {
        Span::Minutes { mins: secs / 60, secs: secs % 60 }
    } else if secs > 0 {
        Span::Seconds { secs }
    } else {
        Span::Fraction
    }
}

/// Break up a span of `secs` whole seconds for display.
pub fn span(secs: u64) -> (parts: Span)
    ensures
        parts == span_of(secs),
{
    if secs > 3600 {
        let mins = secs / 60;
        let secs = secs % 60;
        let hrs = mins / 60;
        let mins = mins % 60;
        Span::Hours { hrs, mins, secs }
    } else if secs > 60 {
        let mins = secs / 60;
        let secs = secs % 60;
        Span::Minutes { mins, secs }
    } else if secs > 0 {
        Span::Seconds { secs }
    } else {
        Span::Fraction
    }
}

} // verus!
