//! Date/offset range resolution: turns "days back from today" pairs
//! and `YYYY-MM-DD` date strings into concrete UTC query bounds
//! anchored to local midnight, and the store queries built on them.
use crate::errors::Error;
use crate::store::{finished_between, from_finished_row, sorted_by_start, ClockingStore};
use crate::time::{
    days_from_civil, lemma_max_day, local_day_of, local_offset_secs, now_utc_secs,
    spec_days_from_civil, spec_local_day, spec_parse_date, parse_date_str, valid_offset, valid_ts,
    MAX_TS, SECS_PER_DAY,
};
use crate::types::FinishedEntry;
use vstd::prelude::*;

verus! {

/// The UTC instant of local midnight `days_offset` days before the
/// local day of `now`, under the local offset `off`.
pub open spec fn spec_query_start(days_offset: int, now: int, off: int) -> int {
    (spec_local_day(now, off) - days_offset) * 86400 - off
}

/// Resolves a "days back from today, span in days" pair against the
/// instant `now` and local offset `off`: the range starts at local
/// midnight `days_offset` days back; it ends `days` days after that
/// start, or is left open (meaning "now") where `days` is `None`.
pub fn query_start_end(days_offset: u64, days: Option<u64>, now: i64, off: i64) -> (r: (
    i64,
    Option<i64>,
))
    requires
        valid_ts(now as int),
        valid_offset(off as int),
        days_offset <= 2932897,
        days matches Some(d) ==> d <= 2932897,
    ensures
        r.0 == spec_query_start(days_offset as int, now as int, off as int),
        days matches Some(d) ==> r.1 == Some((r.0 + d * 86400) as i64) && r.0 + d * 86400
            <= i64::MAX,
        days is None ==> r.1 is None,
{
    let day = local_day_of(now, off);
    proof {
        lemma_max_day();
        assert(-1 <= day <= 2932897) by {
            vstd::arithmetic::div_mod::lemma_fundamental_div_mod(now as int + off as int, 86400);
        }
    }
    let start = (day - days_offset as i64) * SECS_PER_DAY - off;
    let end = match days {
        Some(d) => Some(start + (d as i64) * SECS_PER_DAY),
        None => None,
    };
    (start, end)
}

/// Law: with `days_offset` zero and no span, the resolved range starts
/// exactly at today's local midnight -- the instant of the local day
/// of `now` with zero seconds of day -- and does not lie after `now`.
pub proof fn lemma_offset_today(now: int, off: int)
    requires
        valid_ts(now),
        valid_offset(off),
    ensures
        spec_query_start(0, now, off) <= now,
        spec_local_day(spec_query_start(0, now, off), off) == spec_local_day(now, off),
        crate::time::spec_local_secs(spec_query_start(0, now, off), off) == 0,
{
    let day = spec_local_day(now, off);
    let start = spec_query_start(0, now, off);
    vstd::arithmetic::div_mod::lemma_fundamental_div_mod(now + off, 86400);
    assert(start + off == day * 86400);
    assert((day * 86400) / 86400 == day && (day * 86400) % 86400 == 0) by {
        vstd::arithmetic::div_mod::lemma_fundamental_div_mod_converse(day * 86400, 86400, day, 0);
    }
}

impl ClockingStore {
    /// The finished entries of the date range resolved from "days back
    /// from today": from local midnight `days_offset` days back, over
    /// `days` days, or up to now where `days` is `None`.
    pub fn finished_by_offset(&self, days_offset: u64, days: Option<u64>) -> (r: Result<
        Vec<FinishedEntry>,
        Error,
    >)
        requires
            self.wf(),
            days_offset <= 2932897,
            days matches Some(d) ==> d <= 2932897,
        ensures
            r matches Err(e) ==> e matches Error::UnderlyingError(_),
            r matches Ok(v) ==> {
                let out = v@.map_values(|e: FinishedEntry| e@);
                exists|now: int, off: int|
                    {
                        &&& valid_ts(now)
                        &&& valid_offset(off)
                        &&& #[trigger] spec_query_start(days_offset as int, now, off) == spec_query_start(
                            days_offset as int,
                            now,
                            off,
                        )
                        &&& (days matches Some(d) ==> out == finished_between(
                            self@,
                            spec_query_start(days_offset as int, now, off),
                            spec_query_start(days_offset as int, now, off) + d * 86400,
                        ))
                        &&& (days is None ==> exists|qe: int|
                            out == finished_between(
                                self@,
                                spec_query_start(days_offset as int, now, off),
                                qe,
                            ))
                        &&& forall|k: int|
                            0 <= k < out.len() ==> from_finished_row(
                                self@,
                                #[trigger] out[k],
                                spec_query_start(days_offset as int, now, off),
                            )
                    }
            },
            r matches Ok(v) ==> sorted_by_start(v@.map_values(|e: FinishedEntry| e@)),
    {
        let now = now_utc_secs();
        if !(0 <= now && now < MAX_TS) {
            return Err(Error::UnderlyingError("clock out of supported range".to_owned()));
        }
        let off = local_offset_secs(now);
        let (qs, qe) = query_start_end(days_offset, days, now, off);
        let r = self.finished(qs, qe);
        r
    }

    /// The finished entries between two `YYYY-MM-DD` local dates,
    /// inclusive: from the first date's local midnight to the last
    /// second of the second date. Rejects malformed dates and a range
    /// whose end precedes its start with `InvalidInput`.
    pub fn finished_by_date_str(&self, day_start: &str, day_end: &str) -> (r: Result<
        Vec<FinishedEntry>,
        Error,
    >)
        requires
            self.wf(),
        ensures
            spec_parse_date(day_start@) is None ==> (r matches Err(Error::InvalidInput(m))
                && m@ == "Invalid format of day_start"@),
            spec_parse_date(day_start@) is Some && spec_parse_date(day_end@) is None ==> (r
                matches Err(Error::InvalidInput(m)) && m@ == "Invalid format of day_end"@),
            spec_parse_date(day_start@) matches Some(a) ==> (spec_parse_date(
                day_end@,
            ) matches Some(b) ==> (spec_days_from_civil(b.0 as int, b.1 as int, b.2 as int)
                < spec_days_from_civil(a.0 as int, a.1 as int, a.2 as int) ==> (r matches Err(
                Error::InvalidInput(m),
            ) && m@ == "Invalid date range: day_end must not before day_start"@))),
            r matches Err(e) ==> e matches Error::InvalidInput(_) || e matches Error::UnderlyingError(
                _,
            ),
            spec_parse_date(day_start@) matches Some(a) ==> (spec_parse_date(
                day_end@,
            ) matches Some(b) ==> (spec_days_from_civil(a.0 as int, a.1 as int, a.2 as int)
                <= spec_days_from_civil(b.0 as int, b.1 as int, b.2 as int) ==> (r matches Err(e)
                ==> e matches Error::UnderlyingError(_)))),
            spec_parse_date(day_start@) matches Some(a) ==> (spec_parse_date(
                day_end@,
            ) matches Some(b) ==> (r matches Ok(v) ==> {
                let d1 = spec_days_from_civil(a.0 as int, a.1 as int, a.2 as int);
                let d2 = spec_days_from_civil(b.0 as int, b.1 as int, b.2 as int);
                let out = v@.map_values(|e: FinishedEntry| e@);
                &&& d1 <= d2
                &&& exists|off: int|
                    valid_offset(off) && out == finished_between(
                        self@,
                        d1 * 86400 - off,
                        d2 * 86400 + 86399 - off,
                    )
            })),
    {
        let start_date = match parse_date_str(day_start) {
            Some(d) => d,
            None => {
                return Err(Error::InvalidInput("Invalid format of day_start".to_owned()));
            },
        };
        let end_date = match parse_date_str(day_end) {
            Some(d) => d,
            None => {
                return Err(Error::InvalidInput("Invalid format of day_end".to_owned()));
            },
        };
        let d1 = days_from_civil(start_date.0, start_date.1, start_date.2);
        let d2 = days_from_civil(end_date.0, end_date.1, end_date.2);
        if d2 < d1 {
            return Err(
                Error::InvalidInput(
                    "Invalid date range: day_end must not before day_start".to_owned(),
                ),
            );
        }
        let now = now_utc_secs();
        if !(0 <= now && now < MAX_TS) {
            return Err(Error::UnderlyingError("clock out of supported range".to_owned()));
        }
        let off = local_offset_secs(now);
        proof {
            lemma_max_day();
        }
        let qs = d1 * SECS_PER_DAY - off;
        let qe = d2 * SECS_PER_DAY + (SECS_PER_DAY - 1) - off;
        self.finished(qs, Some(qe))
    }
}

} // verus!
