use peaks::progress::{span, Span};

#[test]
fn span_under_a_second_shows_its_fraction_only() {
    assert_eq!(span(0), Span::Fraction);
}

#[test]
fn span_up_to_a_minute_is_in_seconds() {
    assert_eq!(span(1), Span::Seconds { secs: 1 });
    assert_eq!(span(59), Span::Seconds { secs: 59 });
    assert_eq!(span(60), Span::Seconds { secs: 60 });
}

#[test]
fn span_up_to_an_hour_is_in_minutes() {
    assert_eq!(span(61), Span::Minutes { mins: 1, secs: 1 });
    assert_eq!(span(3599), Span::Minutes { mins: 59, secs: 59 });
    assert_eq!(span(3600), Span::Minutes { mins: 60, secs: 0 });
}

#[test]
fn span_above_an_hour_is_in_hours() {
    assert_eq!(span(3601), Span::Hours { hrs: 1, mins: 0, secs: 1 });
    assert_eq!(span(7384), Span::Hours { hrs: 2, mins: 3, secs: 4 });
    assert_eq!(
        span(u64::MAX),
        Span::Hours { hrs: u64::MAX / 3600, mins: (u64::MAX / 60) % 60, secs: u64::MAX % 60 }
    );
}
