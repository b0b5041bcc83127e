//! How an elapsed time is worded in a report.

use crate::text::decimal;
use crate::text::decimal_text;
use crate::text::push_decimal;
use crate::time::whole_days;
use crate::time::whole_hours;
use crate::time::whole_minutes;
use crate::time::Elapsed;
use vstd::prelude::*;

verus! {

/// A span of `span` nanoseconds as its count of whole days.
pub open spec fn days_wording(span: int) -> Seq<char> {
    decimal(whole_days(span))
}

/// A span of `span` nanoseconds as days, the hours beyond them and the
/// minutes beyond those: `1d 2h 3m`. All three carry the sign of the span.
pub open spec fn days_hours_minutes_wording(span: int) -> Seq<char> {
    let days = whole_days(span);
    let hours = whole_hours(span) - days * 24;
    let minutes = whole_minutes(span) - whole_hours(span) * 60;
    decimal(days) + seq!['d', ' '] + decimal(hours) + seq!['h', ' '] + decimal(minutes) + seq!['m']
}

/// `days_wording` as a value.
pub open spec fn in_days() -> spec_fn(int) -> Seq<char> {
    |span: int| days_wording(span)
}

/// `days_hours_minutes_wording` as a value.
pub open spec fn in_days_hours_minutes() -> spec_fn(int) -> Seq<char> {
    |span: int| days_hours_minutes_wording(span)
}

/// The whole days of a span, in decimal.
pub fn format_days(span: Elapsed) -> (text: String)
    ensures
        text@ == days_wording(span@),
{
    decimal_text(span.num_days())
}

/// A span as days, hours and minutes: `1d 2h 3m`.
pub fn format_days_hours_minutes(span: Elapsed) -> (text: String)
    ensures
        text@ == days_hours_minutes_wording(span@),
{
    proof {
        use_type_invariant(&span);
        span.lemma_bounded();
        reveal_strlit("d ");
        reveal_strlit("h ");
        reveal_strlit("m");
    }
    let days = span.num_days();
    let total_hours = span.num_hours();
    let total_minutes = span.num_minutes();
    let hours = total_hours - days * 24;
    let minutes = total_minutes - total_hours * 60;
    let mut text = String::new();
    push_decimal(&mut text, days);
    text.append("d ");
    push_decimal(&mut text, hours);
    text.append("h ");
    push_decimal(&mut text, minutes);
    text.append("m");
    assert(text@ =~= days_hours_minutes_wording(span@));
    text
}

} // verus!
