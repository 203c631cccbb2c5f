//! The closed table of named timezones the deployment supports, and local
//! wall-clock to UTC conversion through the timezone database.
use vstd::prelude::*;
use crate::datetime::DateTime;
use chrono::Datelike;
use chrono::TimeZone;
use chrono::Timelike;

verus! {

/// One of the supported named timezones. All of them are ahead of UTC, by at
/// most three hours, throughout the timezone database.
#[derive(Clone, Copy, Debug, PartialEq, Eq, Structural)]
pub enum TzId {
    Berlin,
    Prague,
    Paris,
    Amsterdam,
    Brussels,
}

/// "Europe/Berlin"
pub open spec fn name_berlin() -> Seq<u8> {
    seq![69u8, 117u8, 114u8, 111u8, 112u8, 101u8, 47u8, 66u8, 101u8, 114u8, 108u8, 105u8, 110u8]
}

/// "Europe/Prague"
pub open spec fn name_prague() -> Seq<u8> {
    seq![69u8, 117u8, 114u8, 111u8, 112u8, 101u8, 47u8, 80u8, 114u8, 97u8, 103u8, 117u8, 101u8]
}

/// "Europe/Paris"
pub open spec fn name_paris() -> Seq<u8> {
    seq![69u8, 117u8, 114u8, 111u8, 112u8, 101u8, 47u8, 80u8, 97u8, 114u8, 105u8, 115u8]
}

/// "Europe/Amsterdam"
pub open spec fn name_amsterdam() -> Seq<u8> {
    seq![
        69u8,
        117u8,
        114u8,
        111u8,
        112u8,
        101u8,
        47u8,
        65u8,
        109u8,
        115u8,
        116u8,
        101u8,
        114u8,
        100u8,
        97u8,
        109u8,
    ]
}

/// "Europe/Brussels"
pub open spec fn name_brussels() -> Seq<u8> {
    seq![
        69u8,
        117u8,
        114u8,
        111u8,
        112u8,
        101u8,
        47u8,
        66u8,
        114u8,
        117u8,
        115u8,
        115u8,
        101u8,
        108u8,
        115u8,
    ]
}

/// The timezone a name denotes; any name outside the table is unsupported.
pub open spec fn tz_of_name(name: Seq<u8>) -> Option<TzId> {
    if name == name_berlin() {
        Some(TzId::Berlin)
    } else if name == name_prague() {
        Some(TzId::Prague)
    } else if name == name_paris() {
        Some(TzId::Paris)
    } else if name == name_amsterdam() {
        Some(TzId::Amsterdam)
    } else if name == name_brussels() {
        Some(TzId::Brussels)
    } else {
        None
    }
}

fn lit_berlin() -> (r: Vec<u8>)
    ensures
        r@ == name_berlin(),
{
    let r = vec![69u8, 117u8, 114u8, 111u8, 112u8, 101u8, 47u8, 66u8, 101u8, 114u8, 108u8, 105u8, 110u8];
    proof {
        assert(r@ =~= name_berlin());
    }
    r
}

fn lit_prague() -> (r: Vec<u8>)
    ensures
        r@ == name_prague(),
{
    let r = vec![69u8, 117u8, 114u8, 111u8, 112u8, 101u8, 47u8, 80u8, 114u8, 97u8, 103u8, 117u8, 101u8];
    proof {
        assert(r@ =~= name_prague());
    }
    r
}

fn lit_paris() -> (r: Vec<u8>)
    ensures
        r@ == name_paris(),
{
    let r = vec![69u8, 117u8, 114u8, 111u8, 112u8, 101u8, 47u8, 80u8, 97u8, 114u8, 105u8, 115u8];
    proof {
        assert(r@ =~= name_paris());
    }
    r
}

fn lit_amsterdam() -> (r: Vec<u8>)
    ensures
        r@ == name_amsterdam(),
{
    let r = vec![69u8, 117u8, 114u8, 111u8, 112u8, 101u8, 47u8, 65u8, 109u8, 115u8, 116u8, 101u8, 114u8, 100u8, 97u8, 109u8];
    proof {
        assert(r@ =~= name_amsterdam());
    }
    r
}

fn lit_brussels() -> (r: Vec<u8>)
    ensures
        r@ == name_brussels(),
{
    let r = vec![69u8, 117u8, 114u8, 111u8, 112u8, 101u8, 47u8, 66u8, 114u8, 117u8, 115u8, 115u8, 101u8, 108u8, 115u8];
    proof {
        assert(r@ =~= name_brussels());
    }
    r
}

/// Resolves a timezone name against the table.
pub fn string_into_tz(name: &[u8]) -> (r: Option<TzId>)
    ensures
        r == tz_of_name(name@),
{
    if crate::text::bytes_eq(name, lit_berlin().as_slice()) {
        Some(TzId::Berlin)
    } else if crate::text::bytes_eq(name, lit_prague().as_slice()) {
        Some(TzId::Prague)
    } else if crate::text::bytes_eq(name, lit_paris().as_slice()) {
        Some(TzId::Paris)
    } else if crate::text::bytes_eq(name, lit_amsterdam().as_slice()) {
        Some(TzId::Amsterdam)
    } else if crate::text::bytes_eq(name, lit_brussels().as_slice()) {
        Some(TzId::Brussels)
    } else {
        None
    }
}

/// The UTC instant, if any single one exists, at which the wall clock of the
/// named timezone reads the given local date-time.
pub uninterp spec fn utc_of(id: TzId, local: DateTime) -> Option<DateTime>;

/// Relies on chrono's `NaiveDateTime::and_local_timezone` and
/// `DateTime::to_utc` with the timezone database entries behind `rrule::Tz`:
/// the conversion depends on the timezone and the local date-time alone; it
/// yields `None` when the wall clock skips or repeats the local time; and the
/// supported zones stay within zero to three hours ahead of UTC, so a valid
/// local date-time of year at least 1 converts to a valid UTC date-time.
#[verifier::external_body]
pub fn to_utc(id: TzId, local: &DateTime) -> (r: Option<DateTime>)
    requires
        local.valid(),
        local.year >= 1,
    ensures
        r == utc_of(id, *local),
        r matches Some(u) ==> u.valid(),
{
    let tz = match id {
        TzId::Berlin => rrule::Tz::Europe__Berlin,
        TzId::Prague => rrule::Tz::Europe__Prague,
        TzId::Paris => rrule::Tz::Europe__Paris,
        TzId::Amsterdam => rrule::Tz::Europe__Amsterdam,
        TzId::Brussels => rrule::Tz::Europe__Brussels,
    };
    let naive = chrono::NaiveDate::from_ymd_opt(local.year as i32, local.month as u32, local.day as u32)?.and_hms_opt(local.hour as u32, local.minute as u32, local.second as u32)?;
    let u = naive.and_local_timezone(tz).single()?.to_utc();
    Some(DateTime { year: u.year() as u16, month: u.month() as u8, day: u.day() as u8, hour: u.hour() as u8, minute: u.minute() as u8, second: u.second() as u8 })
}

} // verus!
