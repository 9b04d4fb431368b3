//! Formatting of file times: the machine's local offset at an instant, and chrono's
//! strftime formatting of an instant at a fixed offset.
use vstd::prelude::*;

verus! {

/// Whether chrono's strftime reader finds an item it cannot read in `pattern`
/// (an `Item::Error` among `StrftimeItems::new(pattern)`).
pub uninterp spec fn strftime_rejects(pattern: Seq<char>) -> bool;

/// The text chrono writes for `pattern` (`DelayedFormat::write_to`) for the instant `nanos`
/// (nanoseconds since the Unix epoch) seen at a UTC offset of `offset` seconds.
pub uninterp spec fn strftime_at(nanos: int, offset: int, pattern: Seq<char>) -> Seq<char>;

/// An offset chrono's `FixedOffset::east_opt` accepts: less than a day either way.
pub open spec fn offset_ok(offset: int) -> bool {
    -86_400 < offset < 86_400
}

/// The machine's local UTC offset, in seconds, at the instant `nanos` (chrono's
/// `Local.offset_from_utc_datetime`, then `FixedOffset::local_minus_utc`). It depends on the
/// time zone of the machine, so the contract says only what every `FixedOffset` keeps: it
/// lies within a day. chrono panics where the local time zone data cannot be read.
#[verifier::external_body]
pub(crate) fn local_offset(nanos: i64) -> (res: i32)
    ensures
        offset_ok(res as int),
{
    let utc = chrono::DateTime::from_timestamp_nanos(nanos).naive_utc();
    chrono::TimeZone::offset_from_utc_datetime(&chrono::Local, &utc).local_minus_utc()
}

/// Formats the instant `nanos` at the UTC offset `offset` with `pattern` (chrono's
/// `DateTime::from_timestamp_nanos`, `with_timezone` to a `FixedOffset`, then
/// `format(pattern).write_to` into a `String`). `write_to` fails exactly on an item it
/// cannot read, since date, time and offset are all known and the year of an `i64` count of
/// nanoseconds is always within chrono's range; otherwise the text is `strftime_at`.
#[verifier::external_body]
pub(crate) fn format_at(nanos: i64, offset: i32, pattern: &str) -> (res: Option<String>)
    requires
        offset_ok(offset as int),
    ensures
        res is None <==> strftime_rejects(pattern@),
        res matches Some(s) ==> s@ == strftime_at(nanos as int, offset as int, pattern@),
{
    let zone = match chrono::FixedOffset::east_opt(offset) {
        Some(z) => z,
        None => return None,
    };
    let time = chrono::DateTime::from_timestamp_nanos(nanos).with_timezone(&zone);
    let mut out = String::new();
    match time.format(pattern).write_to(&mut out) {
        Ok(()) => Some(out),
        Err(_) => None,
    }
}

} // verus!
