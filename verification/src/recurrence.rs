//! The recurrence evaluator: whether a DTSTART/RRULE/EXDATE description has
//! any occurrence after a cutoff instant.
//!
//! rrule reads a date-time value that carries neither a `TZID=` parameter nor
//! a trailing `Z` in the machine's current timezone, so the verdict on such a
//! description can differ from one machine to the next. A description is
//! *anchored* when every date-time value in it is pinned to a named timezone
//! or to UTC; only there is the verdict a function of the bytes, and only
//! there does the evaluator's contract name its result.
use vstd::prelude::*;
use crate::datetime::DateTime;
use crate::event::lit_dtstart;
use crate::event::lit_exdate;
use crate::event::lit_rrule;
use crate::event::nl;
use crate::event::split_once_sp;
use crate::text::contains_sub;
use crate::text::split_on;
use crate::text::starts_with_spec;
use chrono::TimeZone;

verus! {

/// Uppercases one ASCII letter byte; on the ASCII-only keys that
/// `until_piece_zulu` admits, this agrees with rrule's Unicode uppercasing.
pub open spec fn upper(b: u8) -> u8 {
    if 97 <= b <= 122 {
        (b - 32) as u8
    } else {
        b
    }
}

/// ";TZID="
pub open spec fn lit_tzid_param() -> Seq<u8> {
    seq![59u8, 84u8, 90u8, 73u8, 68u8, 61u8]
}

/// "UNTIL"
pub open spec fn lit_until() -> Seq<u8> {
    seq![85u8, 78u8, 84u8, 73u8, 76u8]
}

/// A date-time value pinned to UTC by its trailing `Z` (byte 90). rrule's
/// date syntax accepts the zulu marker in upper case only; a value that ends
/// otherwise may be read in the machine's timezone.
pub open spec fn zulu_value(v: Seq<u8>) -> bool {
    v.len() > 0 && v.last() == 90u8
}

/// Every comma-separated piece of a value list is pinned to UTC; rrule skips
/// empty pieces.
pub open spec fn zulu_values(v: Seq<u8>) -> bool {
    forall|i: int|
        0 <= i < split_on(v, seq![44u8]).len() ==> {
            let p = #[trigger] split_on(v, seq![44u8])[i];
            p.len() == 0 || p.last() == 90u8
        }
}

/// The line declares a `TZID=` parameter before its first colon, so rrule
/// resolves every value of the line against its compiled-in timezone table.
pub open spec fn has_tzid_param(l: Seq<u8>) -> bool {
    match split_once_sp(l, 58u8) {
        Some((pre, _)) => contains_sub(pre, lit_tzid_param()),
        None => false,
    }
}

/// One `;`-separated property of an RRULE value: its key must be plain ASCII
/// (rrule uppercases keys by Unicode rules, so a non-ASCII key can still name
/// `UNTIL`), and if the key, uppercased, is `UNTIL`, its value must be pinned
/// to UTC; rrule parses `UNTIL` with no timezone parameter, so any other form
/// may be read in the machine's timezone. A piece without `=` fails rrule's
/// parse on every machine alike.
pub open spec fn until_piece_zulu(p: Seq<u8>) -> bool {
    match split_once_sp(p, 61u8) {
        Some((k, v)) => {
            &&& (forall|i: int| 0 <= i < k.len() ==> #[trigger] k[i] < 128)
            &&& (k.map_values(|b: u8| upper(b)) == lit_until() ==> zulu_value(v))
        },
        None => true,
    }
}

/// A description line whose parse cannot consult the machine's timezone: a
/// DTSTART or EXDATE line carries `TZID=` or only `Z`-suffixed values, and an
/// RRULE line's `UNTIL`, if any, is `Z`-suffixed. Any other line is not
/// anchored: rrule understands more than these three properties (an RDATE or
/// EXRULE line carries date-times of its own, and a line without a colon is
/// read as a bare rule value), so a line this spec does not recognize is
/// refused rather than passed over.
pub open spec fn anchored_line(l: Seq<u8>) -> bool {
    if starts_with_spec(l, lit_dtstart()) || starts_with_spec(l, lit_exdate()) {
        has_tzid_param(l) || (match split_once_sp(l, 58u8) {
            Some((_pre, v)) => zulu_values(v),
            None => false,
        })
    } else if starts_with_spec(l, lit_rrule()) {
        match split_once_sp(l, 58u8) {
            Some((_pre, v)) => forall|i: int|
                0 <= i < split_on(v, seq![59u8]).len() ==> until_piece_zulu(
                    #[trigger] split_on(v, seq![59u8])[i],
                ),
            None => false,
        }
    } else {
        false
    }
}

/// Every line of the description is anchored, so the evaluator's verdict is a
/// function of the description bytes and the cutoff alone.
pub open spec fn anchored_desc(desc: Seq<u8>) -> bool {
    forall|i: int|
        0 <= i < split_on(desc, nl()).len() ==> anchored_line(#[trigger] split_on(desc, nl())[i])
}

/// The verdict rrule reaches on an anchored description: whether it parses as
/// a recurrence set whose bounded search (rrule gives up after a built-in
/// iteration cap) finds an occurrence after the cutoff. An unparsable
/// description has the verdict `false`.
pub uninterp spec fn recurrence_live(desc: Seq<u8>, cutoff: DateTime) -> bool;

/// Relies on rrule's `RRuleSet`: parsing a DTSTART/RRULE/EXDATE description
/// and enumerating the occurrences that come after an instant. For an
/// anchored description the verdict depends on the description bytes and the
/// cutoff alone (timezones resolve against rrule's compiled-in table); for
/// any other description rrule may consult the machine's timezone, so nothing
/// is promised of the verdict beyond its arrival.
#[verifier::external_body]
pub fn rrule_has_occurrence(desc: &[u8], cutoff: &DateTime) -> (r: bool)
    requires
        cutoff.valid(),
    ensures
        anchored_desc(desc@) ==> r == recurrence_live(desc@, *cutoff),
{
    let text = String::from_utf8_lossy(desc).into_owned();
    let c = *cutoff;
    let instant = rrule::Tz::UTC.with_ymd_and_hms(c.year as i32, c.month as u32, c.day as u32, c.hour as u32, c.minute as u32, c.second as u32).unwrap();
    match text.parse::<rrule::RRuleSet>() {
        Ok(set) => !set.after(instant).all(1).dates.is_empty(),
        Err(_) => false,
    }
}

} // verus!
