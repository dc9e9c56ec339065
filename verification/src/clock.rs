use vstd::prelude::*;

verus! {

/// Calendar reading of a Unix time in UTC: year, month, day, hour and minute, as the `time` crate
/// computes it, or nothing when the crate's calendar does not reach it.
pub uninterp spec fn utc_reading(ts: i64) -> Option<(i32, u8, u8, u8, u8)>;

/// Unix times of the calendar that the `time` crate always covers: from the first second of the
/// year -9999 to the last second of the year 9999.
pub open spec fn within_calendar(ts: int) -> bool {
    -377_705_116_800 <= ts <= 253_402_300_799
}

/// Unix times of the widest calendar the `time` crate can be built with: from the first second
/// of the year -999999 to the last second of the year 999999.
pub open spec fn within_widest_calendar(ts: int) -> bool {
    -31_619_087_596_800 <= ts <= 31_494_784_780_799
}

/// Year, month and day of the proleptic Gregorian calendar (with a year zero) of the day that
/// lies `days` days after 1970-01-01.
pub open spec fn civil_from_days(days: int) -> (int, int, int) {
    let z = days + 719_468;
    let era = z / 146_097;
    let doe = z - era * 146_097;
    let yoe = (doe - doe / 1460 + doe / 36_524 - doe / 146_096) / 365;
    let doy = doe - (365 * yoe + yoe / 4 - yoe / 100);
    let mp = (5 * doy + 2) / 153;
    let d = doy - (153 * mp + 2) / 5 + 1;
    let m = if mp < 10 { mp + 3 } else { mp - 9 };
    (if m <= 2 { yoe + era * 400 + 1 } else { yoe + era * 400 }, m, d)
}

/// Reads a Unix time as a UTC calendar date and clock time.
///
/// Calls `time::OffsetDateTime::from_unix_timestamp`. Claimed of it: the result is a function
/// of the timestamp; it is present for every timestamp within the calendar above and absent
/// beyond the widest calendar (in between it depends on how the crate was built); when present,
/// the date is the proleptic Gregorian date of the timestamp's day (days of 86400 seconds counted
/// from 1970-01-01, rounded down), and the hour and minute are those of the timestamp's second
/// within that day.
#[verifier::external_body]
pub(crate) fn read_utc(ts: i64) -> (r: Option<(i32, u8, u8, u8, u8)>)
    ensures
        r == utc_reading(ts),
        within_calendar(ts as int) ==> r is Some,
        !within_widest_calendar(ts as int) ==> r is None,
        r matches Some(u) ==> {
            &&& (u.0 as int, u.1 as int, u.2 as int) == civil_from_days(ts as int / 86400)
            &&& u.3 as int == (ts as int % 86400) / 3600
            &&& u.4 as int == ((ts as int % 86400) % 3600) / 60
        },
{
    match time::OffsetDateTime::from_unix_timestamp(ts) {
        Ok(dt) => Some((dt.year(), u8::from(dt.month()), dt.day(), dt.hour(), dt.minute())),
        Err(_) => None,
    }
}

/// Unix seconds of an RFC 3339 timestamp, as the `time` crate parses it, or nothing when the
/// text is not one.
pub uninterp spec fn rfc3339_seconds(text: Seq<char>) -> Option<i64>;

/// Parses RFC 3339 text into Unix seconds.
///
/// Calls `time::OffsetDateTime::parse` with the `Rfc3339` description and reads
/// `unix_timestamp` of the result. Claimed of it: success and the seconds are a function of the
/// text. On failure the crate's own error message is handed back; nothing is claimed of its
/// wording.
#[verifier::external_body]
fn parse_rfc3339_seconds(text: &str) -> (r: Result<i64, String>)
    ensures
        r matches Ok(s) ==> rfc3339_seconds(text@) == Some(s),
        r is Err ==> rfc3339_seconds(text@) is None,
{
    match time::OffsetDateTime::parse(text, &time::format_description::well_known::Rfc3339) {
        Ok(dt) => Ok(dt.unix_timestamp()),
        Err(err) => Err(err.to_string()),
    }
}

/// What a parse of `text` answers: the seconds as parsed, or an error that names the text and
/// the parser's complaint.
pub fn rfc3339_answer(text: &str, parsed: Result<i64, String>) -> (r: Result<i64, String>)
    ensures
        parsed matches Ok(s) ==> r == Ok::<i64, String>(s),
        parsed matches Err(why) ==> r matches Err(m) && m@ == "invalid RFC3339 timestamp `"@ + text@ + "`: "@ + why@,
{
    match parsed {
        Ok(s) => Ok(s),
        Err(why) => {
            let mut m = String::new();
            m.append("invalid RFC3339 timestamp `");
            m.append(text);
            m.append("`: ");
            m.append(why.as_str());
            Err(m)
        },
    }
}

/// Parses an RFC 3339 timestamp into Unix seconds; the error names the text and the parser's
/// complaint.
pub fn parse_rfc3339(text: &str) -> (r: Result<i64, String>)
    ensures
        r matches Ok(s) ==> rfc3339_seconds(text@) == Some(s),
        r is Err ==> rfc3339_seconds(text@) is None,
        r matches Err(m) ==> exists|why: Seq<char>| #[trigger] m@ == "invalid RFC3339 timestamp `"@ + text@ + "`: "@ + why,
{
    let parsed = parse_rfc3339_seconds(text);
    let ghost why = match parsed {
        Ok(_) => Seq::<char>::empty(),
        Err(ref w) => w@,
    };
    let r = rfc3339_answer(text, parsed);
    assert(r matches Err(m) ==> m@ == "invalid RFC3339 timestamp `"@ + text@ + "`: "@ + why);
    r
}

} // verus!
