//! The report views: pure aggregations of finished entries into
//! per-title and per-day groupings, and the gap-filled daily
//! distribution.
//!
//! Every view takes the local UTC offset as an argument and groups by
//! the local calendar day of each entry's start. Groups appear in the
//! order their key is first met; entries handed out by the store's
//! range queries arrive sorted by start, so day groups then stand in
//! ascending date order.
use crate::time::{date_chars, date_string, duration_str, spec_local_day, strify_duration,
    valid_date, valid_offset, civil_from_days, local_day_of, spec_days_from_civil, lemma_max_day,
    MAX_TS, SECS_PER_DAY, SECS_PER_MIN};
use crate::types::{span_chars, FinishedEntry, FinishedModel, SpanModel, TimeSpan};
use vstd::prelude::*;

verus! {

/// An entry of the given offset lies in the supported local range.
pub open spec fn entry_in_local_range(e: FinishedModel, off: int) -> bool {
    &&& e.wf()
    &&& 0 <= e.id.start + off
    &&& e.end + off < MAX_TS
}

/// The local time span of a finished entry under offset `off`.
pub open spec fn span_of(e: FinishedModel, off: int) -> SpanModel {
    SpanModel { start: e.id.start + off, end: e.end + off }
}

/// The mathematical value of a `TitleSpans` group.
pub ghost struct TitleSpansModel {
    pub title: Seq<char>,
    pub spans: Seq<SpanModel>,
}

/// The spans of one title, in the order the entries were met.
#[derive(Debug)]
pub struct TitleSpans {
    pub title: String,
    pub spans: Vec<TimeSpan>,
}

impl View for TitleSpans {
    type V = TitleSpansModel;

    open spec fn view(&self) -> TitleSpansModel {
        TitleSpansModel {
            title: self.title@,
            spans: self.spans@.map_values(|s: TimeSpan| s@),
        }
    }
}

/// Adds one span under its title: appended to the first group carrying
/// the title, or opening a new group at the end.
pub open spec fn add_span(
    gs: Seq<TitleSpansModel>,
    title: Seq<char>,
    sp: SpanModel,
) -> Seq<TitleSpansModel>
    decreases gs.len(),
{
    if gs.len() == 0 {
        seq![TitleSpansModel { title: title, spans: seq![sp] }]
    } else if gs[0].title == title {
        seq![TitleSpansModel { title: gs[0].title, spans: gs[0].spans.push(sp) }]
            + gs.drop_first()
    } else {
        seq![gs[0]] + add_span(gs.drop_first(), title, sp)
    }
}

/// Groups the local spans of the entries by title, in first-met order.
pub open spec fn detail_groups(entries: Seq<FinishedModel>, off: int) -> Seq<TitleSpansModel>
    decreases entries.len(),
{
    if entries.len() == 0 {
        Seq::empty()
    } else {
        add_span(
            detail_groups(entries.drop_last(), off),
            entries.last().id.title,
            span_of(entries.last(), off),
        )
    }
}

/// Where the title already has a group and no earlier group carries
/// it, `add_span` updates exactly that group.
proof fn lemma_add_span_found(gs: Seq<TitleSpansModel>, title: Seq<char>, sp: SpanModel, f: int)
    requires
        0 <= f < gs.len(),
        gs[f].title == title,
        forall|k: int| 0 <= k < f ==> gs[k].title != title,
    ensures
        add_span(gs, title, sp) =~= gs.update(
            f,
            TitleSpansModel { title: gs[f].title, spans: gs[f].spans.push(sp) },
        ),
    decreases gs.len(),
{
    if f == 0 {
    } else {
        assert(gs[0].title != title);
        lemma_add_span_found(gs.drop_first(), title, sp, f - 1);
    }
}

/// Where no group carries the title, `add_span` opens a new group at
/// the end.
proof fn lemma_add_span_new(gs: Seq<TitleSpansModel>, title: Seq<char>, sp: SpanModel)
    requires
        forall|k: int| 0 <= k < gs.len() ==> gs[k].title != title,
    ensures
        add_span(gs, title, sp) =~= gs.push(TitleSpansModel { title: title, spans: seq![sp] }),
    decreases gs.len(),
{
    if gs.len() > 0 {
        assert(gs[0].title != title);
        lemma_add_span_new(gs.drop_first(), title, sp);
    }
}

/// Groups detailed local time spans by entry title.
#[derive(Debug)]
pub struct EntryDetailView {
    pub groups: Vec<TitleSpans>,
}

impl View for EntryDetailView {
    type V = Seq<TitleSpansModel>;

    open spec fn view(&self) -> Seq<TitleSpansModel> {
        self.groups@.map_values(|g: TitleSpans| g@)
    }
}

impl EntryDetailView {
    /// Builds the per-title grouping of the entries' local spans.
    #[verifier::loop_isolation(false)]
    pub fn new(entries: &Vec<FinishedEntry>, off: i64) -> (r: Self)
        requires
            valid_offset(off as int),
            forall|i: int|
                0 <= i < entries@.len() ==> entry_in_local_range((#[trigger] entries@[i])@, off as int),
        ensures
            r@ == detail_groups(entries@.map_values(|e: FinishedEntry| e@), off as int),
            forall|k: int, t: int|
                0 <= k < r@.len() && 0 <= t < (#[trigger] r@[k]).spans.len() ==> 0 <= (
                #[trigger] r@[k].spans[t]).start < r@[k].spans[t].end < MAX_TS,
    {
        let ghost ms = entries@.map_values(|e: FinishedEntry| e@);
        let mut groups: Vec<TitleSpans> = Vec::new();
        let n = entries.len();
        let mut i: usize = 0;
        while i < n
            invariant
                0 <= i <= n,
                n == entries@.len(),
                groups@.map_values(|g: TitleSpans| g@) =~= detail_groups(
                    ms.take(i as int),
                    off as int,
                ),
                forall|k: int, t: int|
                    0 <= k < groups@.len() && 0 <= t < (#[trigger] groups@[k])@.spans.len() ==> 0
                        <= (#[trigger] groups@[k]@.spans[t]).start < groups@[k]@.spans[t].end
                        < MAX_TS,
            decreases n - i,
        {
            proof {
                assert(ms.take(i as int + 1).drop_last() =~= ms.take(i as int));
                assert(ms.take(i as int + 1).last() == ms[i as int]);
                assert(entry_in_local_range(ms[i as int], off as int));
            }
            let e = &entries[i];
            let span = match TimeSpan::build(e.id.start + off, e.end + off) {
                Ok(s) => s,
                Err(_) => {
                    proof {
                        assert(false);
                    }
                    return EntryDetailView { groups: Vec::new() };
                },
            };
            let m = groups.len();
            let mut f: usize = 0;
            let mut matched = false;
            while f < m && !matched
                invariant
                    0 <= f <= m,
                    m == groups@.len(),
                    matched ==> f < m && groups@[f as int]@.title == e.id.title@,
                    forall|k: int|
                        0 <= k < f ==> (#[trigger] groups@[k])@.title != e.id.title@,
                decreases m - f + (if matched { 0int } else { 1int }),
            {
                if groups[f].title == e.id.title {
                    matched = true;
                } else {
                    f = f + 1;
                }
            }
            if matched {
                let ghost gseq = groups@;
                let ghost gsv = groups@.map_values(|g: TitleSpans| g@);
                proof {
                    assert forall|k: int| 0 <= k < f implies gsv[k].title != e.id.title@ by {
                        assert(gsv[k] == gseq[k]@);
                    }
                    assert(gsv[f as int].title == e.id.title@);
                    lemma_add_span_found(gsv, e.id.title@, span@, f as int);
                }
                let mut grp = groups.remove(f);
                grp.spans.push(span);
                proof {
                    assert(grp@ == TitleSpansModel {
                        title: gsv[f as int].title,
                        spans: gsv[f as int].spans.push(span@),
                    }) by {
                        assert(grp.spans@ =~= gseq[f as int].spans@.push(span));
                        assert(grp.spans@.map_values(|s: TimeSpan| s@) =~= gseq[
                            f as int
                        ].spans@.map_values(|s: TimeSpan| s@).push(span@));
                    }
                }
                groups.insert(f, grp);
                proof {
                    assert(groups@ =~= gseq.update(f as int, grp));
                    assert(groups@.map_values(|g: TitleSpans| g@) =~= add_span(
                        gsv,
                        e.id.title@,
                        span@,
                    ));
                }
            } else {
                let ghost gseq = groups@;
                let ghost gsv = groups@.map_values(|g: TitleSpans| g@);
                proof {
                    assert forall|k: int| 0 <= k < gsv.len() implies gsv[k].title
                        != e.id.title@ by {
                        assert(gsv[k] == gseq[k]@);
                    }
                }
                let mut spans: Vec<TimeSpan> = Vec::new();
                spans.push(span);
                let grp = TitleSpans { title: e.id.title.clone(), spans };
                proof {
                    lemma_add_span_new(gsv, e.id.title@, span@);
                    assert(grp@.spans =~= seq![span@]);
                    assert(grp@ == TitleSpansModel { title: e.id.title@, spans: seq![span@] });
                }
                groups.push(grp);
                proof {
                    assert(groups@.map_values(|g: TitleSpans| g@) =~= add_span(
                        gsv,
                        e.id.title@,
                        span@,
                    ));
                }
            }
            i = i + 1;
        }
        proof {
            assert(ms.take(n as int) =~= ms);
        }
        EntryDetailView { groups }
    }
}


/// The mathematical value of a `DayTotal`.
pub ghost struct DayTotalModel {
    pub day: int,
    pub year: int,
    pub month: int,
    pub dom: int,
    pub total: int,
}

/// One local calendar day with the summed duration, in seconds, of the
/// entries that start on it.
#[derive(Debug)]
pub struct DayTotal {
    /// Days since the epoch, local.
    pub day: i64,
    /// The day's civil date `(year, month, day)`.
    pub date: (u32, u32, u32),
    /// Summed duration in seconds.
    pub total: i128,
}

impl View for DayTotal {
    type V = DayTotalModel;

    open spec fn view(&self) -> DayTotalModel {
        DayTotalModel {
            day: self.day as int,
            year: self.date.0 as int,
            month: self.date.1 as int,
            dom: self.date.2 as int,
            total: self.total as int,
        }
    }
}

/// Adds a duration under its day: merged into the first pair carrying
/// the day, or opening a new pair at the end.
pub open spec fn upsert_day(acc: Seq<(int, int)>, day: int, dur: int) -> Seq<(int, int)>
    decreases acc.len(),
{
    if acc.len() == 0 {
        seq![(day, dur)]
    } else if acc[0].0 == day {
        seq![(acc[0].0, acc[0].1 + dur)] + acc.drop_first()
    } else {
        seq![acc[0]] + upsert_day(acc.drop_first(), day, dur)
    }
}

/// The per-day `(day, total seconds)` pairs of the entries, keyed by
/// the local day of each start, in first-met order.
pub open spec fn summary_pairs(entries: Seq<FinishedModel>, off: int) -> Seq<(int, int)>
    decreases entries.len(),
{
    if entries.len() == 0 {
        Seq::empty()
    } else {
        upsert_day(
            summary_pairs(entries.drop_last(), off),
            spec_local_day(entries.last().id.start, off),
            entries.last().end - entries.last().id.start,
        )
    }
}

/// The sum of the totals of the pairs.
pub open spec fn sum_totals(s: Seq<(int, int)>) -> int
    decreases s.len(),
{
    if s.len() == 0 {
        0
    } else {
        sum_totals(s.drop_last()) + s.last().1
    }
}

/// The sum of the durations of the entries, in seconds.
pub open spec fn sum_durations(entries: Seq<FinishedModel>) -> int
    decreases entries.len(),
{
    if entries.len() == 0 {
        0
    } else {
        sum_durations(entries.drop_last()) + (entries.last().end - entries.last().id.start)
    }
}

proof fn lemma_upsert_day_found(acc: Seq<(int, int)>, day: int, dur: int, f: int)
    requires
        0 <= f < acc.len(),
        acc[f].0 == day,
        forall|k: int| 0 <= k < f ==> acc[k].0 != day,
    ensures
        upsert_day(acc, day, dur) =~= acc.update(f, (acc[f].0, acc[f].1 + dur)),
    decreases acc.len(),
{
    if f == 0 {
    } else {
        assert(acc[0].0 != day);
        lemma_upsert_day_found(acc.drop_first(), day, dur, f - 1);
    }
}

proof fn lemma_upsert_day_new(acc: Seq<(int, int)>, day: int, dur: int)
    requires
        forall|k: int| 0 <= k < acc.len() ==> acc[k].0 != day,
    ensures
        upsert_day(acc, day, dur) =~= acc.push((day, dur)),
    decreases acc.len(),
{
    if acc.len() > 0 {
        assert(acc[0].0 != day);
        lemma_upsert_day_new(acc.drop_first(), day, dur);
    }
}

/// A single pair's total never exceeds the sum where all totals are
/// nonnegative.
proof fn lemma_sum_totals_ge(s: Seq<(int, int)>, f: int)
    requires
        0 <= f < s.len(),
        forall|k: int| 0 <= k < s.len() ==> (#[trigger] s[k]).1 >= 0,
    ensures
        s[f].1 <= sum_totals(s),
        sum_totals(s) >= 0,
    decreases s.len(),
{
    if s.len() > 0 {
        if f < s.len() - 1 {
            lemma_sum_totals_ge(s.drop_last(), f);
        } else if s.len() > 1 {
            lemma_sum_totals_ge(s.drop_last(), 0);
        }
    }
}

proof fn lemma_sum_totals_nonneg(s: Seq<(int, int)>)
    requires
        forall|k: int| 0 <= k < s.len() ==> (#[trigger] s[k]).1 >= 0,
    ensures
        sum_totals(s) >= 0,
    decreases s.len(),
{
    if s.len() > 0 {
        lemma_sum_totals_nonneg(s.drop_last());
    }
}

/// Merging one more duration raises the sum by exactly that duration.
proof fn lemma_upsert_day_sum(acc: Seq<(int, int)>, day: int, dur: int)
    ensures
        sum_totals(upsert_day(acc, day, dur)) == sum_totals(acc) + dur,
    decreases acc.len(),
{
    let r = upsert_day(acc, day, dur);
    if acc.len() == 0 {
        assert(sum_totals(r) == sum_totals(r.drop_last()) + r.last().1);
        assert(r.drop_last().len() == 0);
    } else if acc[0].0 == day {
        lemma_sum_first_rest(acc);
        lemma_sum_first_rest(r);
        assert(r[0] == (acc[0].0, acc[0].1 + dur));
        assert(r.drop_first() =~= acc.drop_first());
    } else {
        lemma_upsert_day_sum(acc.drop_first(), day, dur);
        lemma_sum_first_rest(acc);
        lemma_sum_first_rest(r);
        assert(r[0] == acc[0]);
        assert(r.drop_first() =~= upsert_day(acc.drop_first(), day, dur));
    }
}

/// The sum equals the first total plus the sum of the rest.
proof fn lemma_sum_first_rest(s: Seq<(int, int)>)
    requires
        s.len() > 0,
    ensures
        sum_totals(s) == s[0].1 + sum_totals(s.drop_first()),
    decreases s.len(),
{
    if s.len() == 1 {
        assert(sum_totals(s) == sum_totals(s.drop_last()) + s.last().1);
        assert(s.drop_last().len() == 0 && s.drop_first().len() == 0);
        assert(s.last() == s[0]);
    } else {
        lemma_sum_first_rest(s.drop_last());
        assert(sum_totals(s) == sum_totals(s.drop_last()) + s.last().1);
        assert(s.drop_last()[0] == s[0]);
        assert(s.drop_last().drop_first() =~= s.drop_first().drop_last());
        assert(s.drop_first().last() == s.last());
        assert(s.drop_first().len() > 0);
        assert(sum_totals(s.drop_first()) == sum_totals(s.drop_first().drop_last())
            + s.drop_first().last().1);
    }
}

/// Law: the summary conserves time. The sum of the per-day subtotals
/// equals the sum of all entry durations, so the grand total printed
/// under the daily summary equals the sum of its per-date lines.
pub proof fn lemma_summary_conserves_total(entries: Seq<FinishedModel>, off: int)
    ensures
        sum_totals(summary_pairs(entries, off)) == sum_durations(entries),
    decreases entries.len(),
{
    if entries.len() > 0 {
        lemma_summary_conserves_total(entries.drop_last(), off);
        lemma_upsert_day_sum(
            summary_pairs(entries.drop_last(), off),
            spec_local_day(entries.last().id.start, off),
            entries.last().end - entries.last().id.start,
        );
    }
}

/// Sums the durations of the entries as they stand.
proof fn lemma_sum_durations_bound(entries: Seq<FinishedModel>)
    requires
        forall|i: int| 0 <= i < entries.len() ==> 0 < (#[trigger] entries[i]).end - entries[i].id.start < MAX_TS,
    ensures
        0 <= sum_durations(entries) <= entries.len() * (MAX_TS as int),
    decreases entries.len(),
{
    if entries.len() > 0 {
        lemma_sum_durations_bound(entries.drop_last());
    }
}

/// The day totals and their `(day, total)` pairs sum to the same
/// value.
proof fn lemma_sum_day_totals_bridge(days: Seq<DayTotalModel>)
    ensures
        sum_day_totals(days) == sum_totals(
            days.map_values(|d: DayTotalModel| (d.day, d.total)),
        ),
    decreases days.len(),
{
    if days.len() > 0 {
        lemma_sum_day_totals_bridge(days.drop_last());
        let m = days.map_values(|d: DayTotalModel| (d.day, d.total));
        assert(m.drop_last() =~= days.drop_last().map_values(|d: DayTotalModel| (d.day, d.total)));
        assert(m.last() == (days.last().day, days.last().total));
    }
}

/// Groups summed durations by the local calendar date of each entry's
/// start.
#[derive(Debug)]
pub struct DailySummaryView {
    pub days: Vec<DayTotal>,
}

impl View for DailySummaryView {
    type V = Seq<DayTotalModel>;

    open spec fn view(&self) -> Seq<DayTotalModel> {
        self.days@.map_values(|d: DayTotal| d@)
    }
}

impl DailySummaryView {
    /// Builds the per-day totals of the entries.
    #[verifier::loop_isolation(false)]
    pub fn new(entries: &Vec<FinishedEntry>, off: i64) -> (r: Self)
        requires
            valid_offset(off as int),
            forall|i: int|
                0 <= i < entries@.len() ==> entry_in_local_range((#[trigger] entries@[i])@, off as int),
        ensures
            r@.map_values(|d: DayTotalModel| (d.day, d.total)) == summary_pairs(
                entries@.map_values(|e: FinishedEntry| e@),
                off as int,
            ),
            forall|k: int|
                0 <= k < r@.len() ==> {
                    let d = #[trigger] r@[k];
                    valid_date(d.year, d.month, d.dom) && spec_days_from_civil(
                        d.year,
                        d.month,
                        d.dom,
                    ) == d.day && d.total > 0
                },
            sum_day_totals(r@) == sum_durations(entries@.map_values(|e: FinishedEntry| e@)),
            sum_day_totals(r@) <= i128::MAX,
    {
        let ghost ms = entries@.map_values(|e: FinishedEntry| e@);
        let mut days: Vec<DayTotal> = Vec::new();
        let n = entries.len();
        let mut i: usize = 0;
        while i < n
            invariant
                0 <= i <= n,
                n == entries@.len(),
                days@.map_values(|d: DayTotal| d@).map_values(|d: DayTotalModel| (d.day, d.total))
                    =~= summary_pairs(ms.take(i as int), off as int),
                sum_totals(summary_pairs(ms.take(i as int), off as int)) == sum_durations(
                    ms.take(i as int),
                ),
                forall|k: int|
                    0 <= k < days@.len() ==> {
                        let d = (#[trigger] days@[k])@;
                        valid_date(d.year, d.month, d.dom) && spec_days_from_civil(
                            d.year,
                            d.month,
                            d.dom,
                        ) == d.day && d.total > 0
                    },
            decreases n - i,
        {
            proof {
                assert(ms.take(i as int + 1).drop_last() =~= ms.take(i as int));
                assert(ms.take(i as int + 1).last() == ms[i as int]);
                assert(entry_in_local_range(ms[i as int], off as int));
                lemma_max_day();
                vstd::arithmetic::div_mod::lemma_fundamental_div_mod(
                    ms[i as int].id.start + off as int,
                    86400,
                );
                assert(forall|k: int|
                    0 <= k < i ==> 0 < (#[trigger] ms.take(i as int)[k]).end - ms.take(
                        i as int,
                    )[k].id.start < MAX_TS);
                lemma_sum_durations_bound(ms.take(i as int));
            }
            let e = &entries[i];
            let day = local_day_of(e.id.start, off);
            let dur: i128 = (e.end - e.id.start) as i128;
            let ghost pairs = days@.map_values(|d: DayTotal| d@).map_values(
                |d: DayTotalModel| (d.day, d.total),
            );
            let m = days.len();
            let mut f: usize = 0;
            let mut matched = false;
            while f < m && !matched
                invariant
                    0 <= f <= m,
                    m == days@.len(),
                    matched ==> f < m && days@[f as int]@.day == day as int,
                    forall|k: int| 0 <= k < f ==> (#[trigger] days@[k])@.day != day as int,
                decreases m - f + (if matched { 0int } else { 1int }),
            {
                if days[f].day == day {
                    matched = true;
                } else {
                    f = f + 1;
                }
            }
            if matched {
                let ghost gseq = days@;
                proof {
                    assert forall|k: int| 0 <= k < f implies pairs[k].0 != day as int by {
                        assert(pairs[k] == (gseq[k]@.day, gseq[k]@.total));
                    }
                    assert(pairs[f as int].0 == day as int);
                    lemma_upsert_day_found(pairs, day as int, dur as int, f as int);
                    assert forall|k: int| 0 <= k < pairs.len() implies (#[trigger] pairs[k]).1
                        >= 0 by {
                        assert(pairs[k] == (gseq[k]@.day, gseq[k]@.total));
                    }
                    lemma_sum_totals_ge(pairs, f as int);
                }
                let mut grp = days.remove(f);
                proof {
                    assert(grp@.total == pairs[f as int].1);
                    assert(grp@.total <= sum_totals(pairs));
                    assert(sum_totals(pairs) == sum_durations(ms.take(i as int)));
                }
                grp.total = grp.total + dur;
                days.insert(f, grp);
                proof {
                    assert(days@ =~= gseq.update(f as int, grp));
                    assert(days@.map_values(|d: DayTotal| d@).map_values(
                        |d: DayTotalModel| (d.day, d.total),
                    ) =~= upsert_day(pairs, day as int, dur as int));
                    lemma_upsert_day_sum(pairs, day as int, dur as int);
                }
            } else {
                let ghost gseq = days@;
                proof {
                    assert forall|k: int| 0 <= k < pairs.len() implies pairs[k].0
                        != day as int by {
                        assert(pairs[k] == (gseq[k]@.day, gseq[k]@.total));
                    }
                    lemma_upsert_day_new(pairs, day as int, dur as int);
                }
                let date = civil_from_days(day);
                let grp = DayTotal { day, date, total: dur };
                days.push(grp);
                proof {
                    assert(days@.map_values(|d: DayTotal| d@).map_values(
                        |d: DayTotalModel| (d.day, d.total),
                    ) =~= upsert_day(pairs, day as int, dur as int));
                    lemma_upsert_day_sum(pairs, day as int, dur as int);
                }
            }
            i = i + 1;
        }
        proof {
            assert(ms.take(n as int) =~= ms);
            let dv = days@.map_values(|d: DayTotal| d@);
            lemma_sum_day_totals_bridge(dv);
            lemma_summary_conserves_total(ms, off as int);
            assert(forall|k: int|
                0 <= k < ms.len() ==> 0 < (#[trigger] ms[k]).end - ms[k].id.start < MAX_TS);
            lemma_sum_durations_bound(ms);
            assert(ms.len() == n);
            assert(n as int <= 0xffff_ffff_ffff_ffffu64 as int);
            assert((n as int) * (MAX_TS as int) <= 0xffff_ffff_ffff_ffffu64 as int * (
            MAX_TS as int));
            assert(sum_day_totals(dv) <= i128::MAX);
        }
        DailySummaryView { days }
    }
}


/// Adds a duration under its title within one day's list: merged into
/// the first pair carrying the title, or opening a new pair at the end.
pub open spec fn upsert_title(
    ts: Seq<(Seq<char>, int)>,
    title: Seq<char>,
    dur: int,
) -> Seq<(Seq<char>, int)>
    decreases ts.len(),
{
    if ts.len() == 0 {
        seq![(title, dur)]
    } else if ts[0].0 == title {
        seq![(ts[0].0, ts[0].1 + dur)] + ts.drop_first()
    } else {
        seq![ts[0]] + upsert_title(ts.drop_first(), title, dur)
    }
}

/// Adds a duration under its day and title in the two-level grouping.
pub open spec fn add_detail(
    acc: Seq<(int, Seq<(Seq<char>, int)>)>,
    day: int,
    title: Seq<char>,
    dur: int,
) -> Seq<(int, Seq<(Seq<char>, int)>)>
    decreases acc.len(),
{
    if acc.len() == 0 {
        seq![(day, seq![(title, dur)])]
    } else if acc[0].0 == day {
        seq![(acc[0].0, upsert_title(acc[0].1, title, dur))] + acc.drop_first()
    } else {
        seq![acc[0]] + add_detail(acc.drop_first(), day, title, dur)
    }
}

/// The two-level grouping of the entries: by local day of start, then
/// by title, each title with its summed duration in seconds; days and
/// titles in first-met order.
pub open spec fn detail_pairs(entries: Seq<FinishedModel>, off: int) -> Seq<
    (int, Seq<(Seq<char>, int)>),
>
    decreases entries.len(),
{
    if entries.len() == 0 {
        Seq::empty()
    } else {
        add_detail(
            detail_pairs(entries.drop_last(), off),
            spec_local_day(entries.last().id.start, off),
            entries.last().id.title,
            entries.last().end - entries.last().id.start,
        )
    }
}

proof fn lemma_upsert_title_found(
    ts: Seq<(Seq<char>, int)>,
    title: Seq<char>,
    dur: int,
    g: int,
)
    requires
        0 <= g < ts.len(),
        ts[g].0 == title,
        forall|k: int| 0 <= k < g ==> ts[k].0 != title,
    ensures
        upsert_title(ts, title, dur) =~= ts.update(g, (ts[g].0, ts[g].1 + dur)),
    decreases ts.len(),
{
    if g == 0 {
    } else {
        assert(ts[0].0 != title);
        lemma_upsert_title_found(ts.drop_first(), title, dur, g - 1);
    }
}

proof fn lemma_upsert_title_new(ts: Seq<(Seq<char>, int)>, title: Seq<char>, dur: int)
    requires
        forall|k: int| 0 <= k < ts.len() ==> ts[k].0 != title,
    ensures
        upsert_title(ts, title, dur) =~= ts.push((title, dur)),
    decreases ts.len(),
{
    if ts.len() > 0 {
        assert(ts[0].0 != title);
        lemma_upsert_title_new(ts.drop_first(), title, dur);
    }
}

proof fn lemma_add_detail_found(
    acc: Seq<(int, Seq<(Seq<char>, int)>)>,
    day: int,
    title: Seq<char>,
    dur: int,
    f: int,
)
    requires
        0 <= f < acc.len(),
        acc[f].0 == day,
        forall|k: int| 0 <= k < f ==> acc[k].0 != day,
    ensures
        add_detail(acc, day, title, dur) =~= acc.update(
            f,
            (acc[f].0, upsert_title(acc[f].1, title, dur)),
        ),
    decreases acc.len(),
{
    if f == 0 {
    } else {
        assert(acc[0].0 != day);
        lemma_add_detail_found(acc.drop_first(), day, title, dur, f - 1);
    }
}

proof fn lemma_add_detail_new(
    acc: Seq<(int, Seq<(Seq<char>, int)>)>,
    day: int,
    title: Seq<char>,
    dur: int,
)
    requires
        forall|k: int| 0 <= k < acc.len() ==> acc[k].0 != day,
    ensures
        add_detail(acc, day, title, dur) =~= acc.push((day, seq![(title, dur)])),
    decreases acc.len(),
{
    if acc.len() > 0 {
        assert(acc[0].0 != day);
        lemma_add_detail_new(acc.drop_first(), day, title, dur);
    }
}

/// One title's summed duration within a day.
#[derive(Debug)]
pub struct TitleTotal {
    pub title: String,
    /// Summed duration in seconds.
    pub total: i128,
}

impl View for TitleTotal {
    type V = (Seq<char>, int);

    open spec fn view(&self) -> (Seq<char>, int) {
        (self.title@, self.total as int)
    }
}

/// The mathematical value of a `DayDetail`.
pub ghost struct DayDetailModel {
    pub day: int,
    pub year: int,
    pub month: int,
    pub dom: int,
    pub titles: Seq<(Seq<char>, int)>,
}

/// One local calendar day with per-title summed durations.
#[derive(Debug)]
pub struct DayDetail {
    /// Days since the epoch, local.
    pub day: i64,
    /// The day's civil date `(year, month, day)`.
    pub date: (u32, u32, u32),
    pub titles: Vec<TitleTotal>,
}

impl View for DayDetail {
    type V = DayDetailModel;

    open spec fn view(&self) -> DayDetailModel {
        DayDetailModel {
            day: self.day as int,
            year: self.date.0 as int,
            month: self.date.1 as int,
            dom: self.date.2 as int,
            titles: self.titles@.map_values(|t: TitleTotal| t@),
        }
    }
}

/// Groups `(title, duration)` pairs by the local calendar date of each
/// entry's start.
#[derive(Debug)]
pub struct DailyDetailView {
    pub days: Vec<DayDetail>,
}

impl View for DailyDetailView {
    type V = Seq<DayDetailModel>;

    open spec fn view(&self) -> Seq<DayDetailModel> {
        self.days@.map_values(|d: DayDetail| d@)
    }
}

impl DailyDetailView {
    /// Builds the two-level day/title grouping of the entries.
    #[verifier::loop_isolation(false)]
    pub fn new(entries: &Vec<FinishedEntry>, off: i64) -> (r: Self)
        requires
            valid_offset(off as int),
            forall|i: int|
                0 <= i < entries@.len() ==> entry_in_local_range((#[trigger] entries@[i])@, off as int),
        ensures
            r@.map_values(|d: DayDetailModel| (d.day, d.titles)) == detail_pairs(
                entries@.map_values(|e: FinishedEntry| e@),
                off as int,
            ),
            forall|k: int|
                0 <= k < r@.len() ==> {
                    let d = #[trigger] r@[k];
                    valid_date(d.year, d.month, d.dom) && spec_days_from_civil(
                        d.year,
                        d.month,
                        d.dom,
                    ) == d.day
                },
            forall|k: int, t: int|
                0 <= k < r@.len() && 0 <= t < (#[trigger] r@[k]).titles.len() ==> (
                #[trigger] r@[k].titles[t]).1 >= 0,
            sum_detail_totals(r@) == sum_durations(entries@.map_values(|e: FinishedEntry| e@)),
            sum_detail_totals(r@) <= i128::MAX,
    {
        let ghost ms = entries@.map_values(|e: FinishedEntry| e@);
        let mut days: Vec<DayDetail> = Vec::new();
        let n = entries.len();
        let mut i: usize = 0;
        while i < n
            invariant
                0 <= i <= n,
                n == entries@.len(),
                days@.map_values(|d: DayDetail| d@).map_values(
                    |d: DayDetailModel| (d.day, d.titles),
                ) =~= detail_pairs(ms.take(i as int), off as int),
                forall|k: int|
                    0 <= k < days@.len() ==> {
                        let d = (#[trigger] days@[k])@;
                        valid_date(d.year, d.month, d.dom) && spec_days_from_civil(
                            d.year,
                            d.month,
                            d.dom,
                        ) == d.day
                    },
                forall|k: int, t: int|
                    0 <= k < days@.len() && 0 <= t < (#[trigger] days@[k])@.titles.len() ==> 0 < (
                    #[trigger] days@[k]@.titles[t]).1 <= sum_durations(ms.take(i as int)),
            decreases n - i,
        {
            proof {
                assert(ms.take(i as int + 1).drop_last() =~= ms.take(i as int));
                assert(ms.take(i as int + 1).last() == ms[i as int]);
                assert(entry_in_local_range(ms[i as int], off as int));
                lemma_max_day();
                vstd::arithmetic::div_mod::lemma_fundamental_div_mod(
                    ms[i as int].id.start + off as int,
                    86400,
                );
                assert(forall|k: int|
                    0 <= k < i ==> 0 < (#[trigger] ms.take(i as int)[k]).end - ms.take(
                        i as int,
                    )[k].id.start < MAX_TS);
                lemma_sum_durations_bound(ms.take(i as int));
                assert(sum_durations(ms.take(i as int + 1)) == sum_durations(ms.take(i as int)) + (
                ms[i as int].end - ms[i as int].id.start));
            }
            let e = &entries[i];
            let day = local_day_of(e.id.start, off);
            let dur: i128 = (e.end - e.id.start) as i128;
            let ghost pairs = days@.map_values(|d: DayDetail| d@).map_values(
                |d: DayDetailModel| (d.day, d.titles),
            );
            let m = days.len();
            let mut f: usize = 0;
            let mut matched = false;
            while f < m && !matched
                invariant
                    0 <= f <= m,
                    m == days@.len(),
                    matched ==> f < m && days@[f as int]@.day == day as int,
                    forall|k: int| 0 <= k < f ==> (#[trigger] days@[k])@.day != day as int,
                decreases m - f + (if matched { 0int } else { 1int }),
            {
                if days[f].day == day {
                    matched = true;
                } else {
                    f = f + 1;
                }
            }
            if matched {
                let ghost gseq = days@;
                proof {
                    assert forall|k: int| 0 <= k < f implies pairs[k].0 != day as int by {
                        assert(pairs[k] == (gseq[k]@.day, gseq[k]@.titles));
                    }
                    assert(pairs[f as int].0 == day as int);
                    lemma_add_detail_found(pairs, day as int, e.id.title@, dur as int, f as int);
                }
                let mut grp = days.remove(f);
                let ghost ts = grp@.titles;
                // find the title within the day
                let tm = grp.titles.len();
                let mut g: usize = 0;
                let mut tmatched = false;
                while g < tm && !tmatched
                    invariant
                        0 <= g <= tm,
                        tm == grp.titles@.len(),
                        tmatched ==> g < tm && grp.titles@[g as int]@.0 == e.id.title@,
                        forall|k: int|
                            0 <= k < g ==> (#[trigger] grp.titles@[k])@.0 != e.id.title@,
                    decreases tm - g + (if tmatched { 0int } else { 1int }),
                {
                    if grp.titles[g].title == e.id.title {
                        tmatched = true;
                    } else {
                        g = g + 1;
                    }
                }
                let ghost tseq = grp.titles@;
                if tmatched {
                    proof {
                        assert forall|k: int| 0 <= k < g implies ts[k].0 != e.id.title@ by {
                            assert(ts[k] == tseq[k]@);
                        }
                        assert(ts[g as int].0 == e.id.title@);
                        lemma_upsert_title_found(ts, e.id.title@, dur as int, g as int);
                        assert(gseq[f as int]@.titles[g as int] == ts[g as int]);
                    }
                    let mut tt = grp.titles.remove(g);
                    tt.total = tt.total + dur;
                    grp.titles.insert(g, tt);
                    proof {
                        assert(grp.titles@ =~= tseq.update(g as int, tt));
                        assert(grp.titles@.map_values(|t: TitleTotal| t@) =~= upsert_title(
                            ts,
                            e.id.title@,
                            dur as int,
                        ));
                    }
                } else {
                    proof {
                        assert forall|k: int| 0 <= k < ts.len() implies ts[k].0 != e.id.title@ by {
                            assert(ts[k] == tseq[k]@);
                        }
                        lemma_upsert_title_new(ts, e.id.title@, dur as int);
                    }
                    let tt = TitleTotal { title: e.id.title.clone(), total: dur };
                    grp.titles.push(tt);
                    proof {
                        assert(grp.titles@.map_values(|t: TitleTotal| t@) =~= upsert_title(
                            ts,
                            e.id.title@,
                            dur as int,
                        ));
                    }
                }
                days.insert(f, grp);
                proof {
                    assert(days@ =~= gseq.update(f as int, grp));
                    assert(days@.map_values(|d: DayDetail| d@).map_values(
                        |d: DayDetailModel| (d.day, d.titles),
                    ) =~= add_detail(pairs, day as int, e.id.title@, dur as int));
                }
            } else {
                let ghost gseq = days@;
                proof {
                    assert forall|k: int| 0 <= k < pairs.len() implies pairs[k].0
                        != day as int by {
                        assert(pairs[k] == (gseq[k]@.day, gseq[k]@.titles));
                    }
                    lemma_add_detail_new(pairs, day as int, e.id.title@, dur as int);
                }
                let date = civil_from_days(day);
                let mut titles: Vec<TitleTotal> = Vec::new();
                titles.push(TitleTotal { title: e.id.title.clone(), total: dur });
                let grp = DayDetail { day, date, titles };
                days.push(grp);
                proof {
                    assert(grp@.titles =~= seq![(e.id.title@, dur as int)]);
                    assert(days@.map_values(|d: DayDetail| d@).map_values(
                        |d: DayDetailModel| (d.day, d.titles),
                    ) =~= add_detail(pairs, day as int, e.id.title@, dur as int));
                }
            }
            i = i + 1;
        }
        proof {
            assert(ms.take(n as int) =~= ms);
            let dv = days@.map_values(|d: DayDetail| d@);
            lemma_sum_detail_totals_bridge(dv);
            lemma_detail_conserves_total(ms, off as int);
            assert(forall|k: int|
                0 <= k < ms.len() ==> 0 < (#[trigger] ms[k]).end - ms[k].id.start < MAX_TS);
            lemma_sum_durations_bound(ms);
            assert(ms.len() == n);
            assert(n as int <= 0xffff_ffff_ffff_ffffu64 as int);
            assert((n as int) * (MAX_TS as int) <= 0xffff_ffff_ffff_ffffu64 as int * (
            MAX_TS as int));
            assert(sum_detail_totals(dv) <= i128::MAX);
        }
        DailyDetailView { days }
    }
}


/// The mathematical value of an `Effort`.
pub ghost struct EffortModel {
    pub span: SpanModel,
    pub title: Seq<char>,
}

/// One local time span under its title; the title is the synthetic
/// `<idle>` for gap-filling spans.
#[derive(Debug)]
pub struct Effort {
    pub span: TimeSpan,
    pub title: String,
}

impl View for Effort {
    type V = EffortModel;

    open spec fn view(&self) -> EffortModel {
        EffortModel { span: self.span@, title: self.title@ }
    }
}

/// The title of synthesized idle spans.
pub open spec fn idle_title() -> Seq<char> {
    seq!['<', 'i', 'd', 'l', 'e', '>']
}

/// The working window's start on the given local day: 08:00.
pub open spec fn window_start(day: int) -> int {
    day * 86400 + 8 * 3600
}

/// The working window's end on the given local day: 21:00.
pub open spec fn window_end(day: int) -> int {
    day * 86400 + 21 * 3600
}

/// Inserts `x` after every effort whose span starts at or before
/// `x`'s, so efforts with equal starts keep their order.
pub open spec fn insert_eff(x: EffortModel, s: Seq<EffortModel>) -> Seq<EffortModel>
    decreases s.len(),
{
    if s.len() == 0 {
        seq![x]
    } else if x.span.start < s.last().span.start {
        insert_eff(x, s.drop_last()).push(s.last())
    } else {
        s.push(x)
    }
}

/// Stable insertion sort of efforts by ascending span start.
pub open spec fn sort_effs(s: Seq<EffortModel>) -> Seq<EffortModel>
    decreases s.len(),
{
    if s.len() == 0 {
        s
    } else {
        insert_eff(s.last(), sort_effs(s.drop_last()))
    }
}

/// The gap-free partition of the working window: walks the efforts in
/// order with a cursor, inserts an `<idle>` span for every positive
/// gap before an effort, advances the cursor to the furthest end seen,
/// and closes with a trailing idle span where the cursor still lies
/// before the window's end.
pub open spec fn fill_idle(day: int, s: Seq<EffortModel>, cursor: int) -> Seq<EffortModel>
    decreases s.len(),
{
    if s.len() == 0 {
        if cursor < window_end(day) {
            seq![
                EffortModel {
                    span: SpanModel { start: cursor, end: window_end(day) },
                    title: idle_title(),
                },
            ]
        } else {
            Seq::empty()
        }
    } else {
        let e = s[0];
        let next = if e.span.end > cursor {
            e.span.end
        } else {
            cursor
        };
        let rest = seq![e] + fill_idle(day, s.drop_first(), next);
        if cursor < e.span.start {
            seq![
                EffortModel {
                    span: SpanModel { start: cursor, end: e.span.start },
                    title: idle_title(),
                },
            ] + rest
        } else {
            rest
        }
    }
}

/// The spans of one local day's distribution: the day's efforts sorted
/// by start, with idle gaps filled across the working window.
pub open spec fn day_distribution(day: int, effs: Seq<EffortModel>) -> Seq<EffortModel> {
    fill_idle(day, sort_effs(effs), window_start(day))
}

/// Law: the distribution of a day without any real span is exactly one
/// idle span covering the whole working window.
pub proof fn lemma_empty_day_is_idle(day: int)
    ensures
        day_distribution(day, Seq::empty()) =~= seq![
            EffortModel {
                span: SpanModel { start: window_start(day), end: window_end(day) },
                title: idle_title(),
            },
        ],
{
}

/// Adds one effort under its day: appended to the first group carrying
/// the day, or opening a new group at the end.
pub open spec fn add_eff(
    acc: Seq<(int, Seq<EffortModel>)>,
    day: int,
    eff: EffortModel,
) -> Seq<(int, Seq<EffortModel>)>
    decreases acc.len(),
{
    if acc.len() == 0 {
        seq![(day, seq![eff])]
    } else if acc[0].0 == day {
        seq![(acc[0].0, acc[0].1.push(eff))] + acc.drop_first()
    } else {
        seq![acc[0]] + add_eff(acc.drop_first(), day, eff)
    }
}

/// The per-day raw efforts of the entries, keyed by the local day of
/// each start, in first-met order.
pub open spec fn dist_groups(entries: Seq<FinishedModel>, off: int) -> Seq<
    (int, Seq<EffortModel>),
>
    decreases entries.len(),
{
    if entries.len() == 0 {
        Seq::empty()
    } else {
        add_eff(
            dist_groups(entries.drop_last(), off),
            spec_local_day(entries.last().id.start, off),
            EffortModel { span: span_of(entries.last(), off), title: entries.last().id.title },
        )
    }
}

proof fn lemma_add_eff_found(
    acc: Seq<(int, Seq<EffortModel>)>,
    day: int,
    eff: EffortModel,
    f: int,
)
    requires
        0 <= f < acc.len(),
        acc[f].0 == day,
        forall|k: int| 0 <= k < f ==> acc[k].0 != day,
    ensures
        add_eff(acc, day, eff) =~= acc.update(f, (acc[f].0, acc[f].1.push(eff))),
    decreases acc.len(),
{
    if f == 0 {
    } else {
        assert(acc[0].0 != day);
        lemma_add_eff_found(acc.drop_first(), day, eff, f - 1);
    }
}

proof fn lemma_add_eff_new(acc: Seq<(int, Seq<EffortModel>)>, day: int, eff: EffortModel)
    requires
        forall|k: int| 0 <= k < acc.len() ==> acc[k].0 != day,
    ensures
        add_eff(acc, day, eff) =~= acc.push((day, seq![eff])),
    decreases acc.len(),
{
    if acc.len() > 0 {
        assert(acc[0].0 != day);
        lemma_add_eff_new(acc.drop_first(), day, eff);
    }
}

/// The mathematical value of a `DayDist`.
pub ghost struct DayDistModel {
    pub day: int,
    pub year: int,
    pub month: int,
    pub dom: int,
    pub spans: Seq<EffortModel>,
}

/// One local calendar day's gap-filled distribution.
#[derive(Debug)]
pub struct DayDist {
    /// Days since the epoch, local.
    pub day: i64,
    /// The day's civil date `(year, month, day)`.
    pub date: (u32, u32, u32),
    pub spans: Vec<Effort>,
}

impl View for DayDist {
    type V = DayDistModel;

    open spec fn view(&self) -> DayDistModel {
        DayDistModel {
            day: self.day as int,
            year: self.date.0 as int,
            month: self.date.1 as int,
            dom: self.date.2 as int,
            spans: self.spans@.map_values(|e: Effort| e@),
        }
    }
}

/// Groups sorted, idle-gap-filled local spans by the local calendar
/// date of each entry's start.
#[derive(Debug)]
pub struct DailyDistributionView {
    pub days: Vec<DayDist>,
}

impl View for DailyDistributionView {
    type V = Seq<DayDistModel>;

    open spec fn view(&self) -> Seq<DayDistModel> {
        self.days@.map_values(|d: DayDist| d@)
    }
}


/// Inserting into a start-sorted run of efforts keeps it sorted and
/// adds exactly the new effort.
proof fn lemma_insert_eff_props(x: EffortModel, s: Seq<EffortModel>)
    ensures
        insert_eff(x, s).len() == s.len() + 1,
        forall|k: int|
            0 <= k < insert_eff(x, s).len() ==> #[trigger] insert_eff(x, s)[k] == x || s.contains(
                insert_eff(x, s)[k],
            ),
    decreases s.len(),
{
    if s.len() == 0 {
    } else if x.span.start < s.last().span.start {
        lemma_insert_eff_props(x, s.drop_last());
        let r = insert_eff(x, s);
        let ri = insert_eff(x, s.drop_last());
        assert forall|k: int| 0 <= k < r.len() implies #[trigger] r[k] == x || s.contains(
            r[k],
        ) by {
            if k < r.len() - 1 {
                if ri[k] == x {
                } else {
                    let m = choose|m: int|
                        0 <= m < s.drop_last().len() && #[trigger] s.drop_last()[m] == ri[k];
                    assert(s[m] == ri[k]);
                }
            } else {
                assert(r[k] == s.last());
            }
        }
    }
}

/// Sorting keeps exactly the efforts of the input.
proof fn lemma_sort_effs_props(s: Seq<EffortModel>)
    ensures
        sort_effs(s).len() == s.len(),
        forall|k: int|
            0 <= k < sort_effs(s).len() ==> s.contains(#[trigger] sort_effs(s)[k]),
    decreases s.len(),
{
    if s.len() > 0 {
        lemma_sort_effs_props(s.drop_last());
        lemma_insert_eff_props(s.last(), sort_effs(s.drop_last()));
        let r = sort_effs(s);
        let prev = sort_effs(s.drop_last());
        assert forall|k: int| 0 <= k < r.len() implies s.contains(#[trigger] r[k]) by {
            if r[k] == s.last() {
                assert(s[s.len() - 1] == s.last());
            } else {
                assert(prev.contains(r[k]));
                let m = choose|m: int| 0 <= m < prev.len() && #[trigger] prev[m] == r[k];
                assert(s.drop_last().contains(prev[m]));
                let q = choose|q: int|
                    0 <= q < s.drop_last().len() && #[trigger] s.drop_last()[q] == prev[m];
                assert(s[q] == r[k]);
            }
        }
    }
}

/// The insertion point where the strictly-later suffix begins
/// determines `insert_eff` exactly.
proof fn lemma_insert_eff_at(x: EffortModel, s: Seq<EffortModel>, j: int)
    requires
        0 <= j <= s.len(),
        forall|k: int| j <= k < s.len() ==> (#[trigger] s[k]).span.start > x.span.start,
        j > 0 ==> s[j - 1].span.start <= x.span.start,
    ensures
        insert_eff(x, s) =~= s.take(j) + seq![x] + s.skip(j),
    decreases s.len(),
{
    if j == s.len() {
        if s.len() == 0 {
        } else {
            assert(!(x.span.start < s.last().span.start));
        }
    } else {
        assert(s[s.len() - 1].span.start > x.span.start);
        lemma_insert_eff_at(x, s.drop_last(), j);
        assert(s.drop_last().take(j) =~= s.take(j));
        assert((s.drop_last().take(j) + seq![x] + s.drop_last().skip(j)).push(s.last()) =~= s.take(
            j,
        ) + seq![x] + s.skip(j));
    }
}

/// Sorts efforts by ascending span start; efforts with equal starts
/// keep their order.
#[verifier::loop_isolation(false)]
fn sort_efforts(v: Vec<Effort>) -> (r: Vec<Effort>)
    ensures
        r@.map_values(|e: Effort| e@) == sort_effs(v@.map_values(|e: Effort| e@)),
{
    let ghost orig = v@.map_values(|e: Effort| e@);
    let mut rest = v;
    let mut out: Vec<Effort> = Vec::new();
    let ghost mut done: int = 0;
    while rest.len() > 0
        invariant
            0 <= done <= orig.len(),
            rest@.map_values(|e: Effort| e@) =~= orig.skip(done),
            out@.map_values(|e: Effort| e@) =~= sort_effs(orig.take(done)),
        decreases rest@.len(),
    {
        proof {
            assert(rest@.len() > 0);
        }
        let ghost prev = rest@;
        let e = rest.remove(0);
        proof {
            assert(e == prev[0]);
            assert(prev.map_values(|x: Effort| x@)[0] == prev[0]@);
            assert(e@ == orig.skip(done)[0]);
            assert(e@ == orig[done]);
            assert forall|k: int| 0 <= k < rest@.len() implies rest@.map_values(
                |x: Effort| x@,
            )[k] == #[trigger] orig.skip(done + 1)[k] by {
                assert(rest@[k] == prev[k + 1]);
                assert(prev.map_values(|x: Effort| x@)[k + 1] == prev[k + 1]@);
                assert(orig.skip(done)[k + 1] == orig[done + 1 + k]);
            }
            assert(rest@.map_values(|x: Effort| x@) =~= orig.skip(done + 1));
        }
        let mut j: usize = out.len();
        while j > 0 && out[j - 1].span.start() > e.span.start()
            invariant
                0 <= j <= out@.len(),
                forall|k: int|
                    j <= k < out@.len() ==> (#[trigger] out@[k])@.span.start > e@.span.start,
            decreases j,
        {
            j = j - 1;
        }
        proof {
            let so = out@.map_values(|x: Effort| x@);
            lemma_insert_eff_at(e@, so, j as int);
            assert(orig.take(done + 1).drop_last() =~= orig.take(done));
            assert(orig.take(done + 1).last() == orig[done]);
        }
        out.insert(j, e);
        proof {
            assert(out@.map_values(|x: Effort| x@) =~= sort_effs(orig.take(done + 1)));
            done = done + 1;
        }
    }
    proof {
        assert(orig.take(done) =~= orig);
    }
    out
}

/// Builds the gap-free partition of one day's working window from its
/// start-sorted efforts; without any effort, the window comes back as
/// one whole idle span.
#[verifier::loop_isolation(false)]
pub fn fill_day(day: i64, sorted: Vec<Effort>) -> (r: Vec<Effort>)
    requires
        0 <= day < crate::time::MAX_DAY,
        forall|k: int|
            0 <= k < sorted@.len() ==> 0 <= (#[trigger] sorted@[k])@.span.start
                < sorted@[k]@.span.end < MAX_TS,
    ensures
        r@.map_values(|e: Effort| e@) == fill_idle(
            day as int,
            sorted@.map_values(|e: Effort| e@),
            window_start(day as int),
        ),
        forall|k: int|
            0 <= k < r@.len() ==> 0 <= (#[trigger] r@[k])@.span.start < r@[k]@.span.end < MAX_TS,
{
    proof {
        crate::time::lemma_max_day();
    }
    let ghost ms = sorted@.map_values(|e: Effort| e@);
    let wend = day * SECS_PER_DAY + 21 * 3600;
    let mut cursor = day * SECS_PER_DAY + 8 * 3600;
    let mut out: Vec<Effort> = Vec::new();
    let mut rest = sorted;
    let ghost mut done: int = 0;
    proof {
        assert(ms.skip(0) =~= ms);
        assert(out@.map_values(|e: Effort| e@) =~= Seq::<EffortModel>::empty());
        assert(Seq::<EffortModel>::empty() + fill_idle(day as int, ms, window_start(day as int))
            =~= fill_idle(day as int, ms, window_start(day as int)));
    }
    while rest.len() > 0
        invariant
            0 <= done <= ms.len(),
            rest@.map_values(|e: Effort| e@) =~= ms.skip(done),
            0 <= cursor < MAX_TS,
            wend == window_end(day as int),
            0 <= day < crate::time::MAX_DAY,
            MAX_TS == crate::time::MAX_DAY * 86400,
            forall|k: int|
                0 <= k < ms.len() ==> 0 <= (#[trigger] ms[k]).span.start < ms[k].span.end
                    < MAX_TS,
            forall|k: int|
                0 <= k < out@.len() ==> 0 <= (#[trigger] out@[k])@.span.start < out@[k]@.span.end
                    < MAX_TS,
            fill_idle(day as int, ms, window_start(day as int)) =~= out@.map_values(
                |e: Effort| e@,
            ) + fill_idle(day as int, ms.skip(done), cursor as int),
        decreases rest@.len(),
    {
        let ghost prev = rest@;
        let ghost c0 = cursor as int;
        let e = rest.remove(0);
        proof {
            assert(e == prev[0]);
            assert(prev.map_values(|x: Effort| x@)[0] == prev[0]@);
            assert(e@ == ms.skip(done)[0]);
            assert(e@ == ms[done]);
            assert forall|k: int| 0 <= k < rest@.len() implies rest@.map_values(
                |x: Effort| x@,
            )[k] == #[trigger] ms.skip(done + 1)[k] by {
                assert(rest@[k] == prev[k + 1]);
                assert(prev.map_values(|x: Effort| x@)[k + 1] == prev[k + 1]@);
                assert(ms.skip(done)[k + 1] == ms[done + 1 + k]);
            }
            assert(rest@.map_values(|x: Effort| x@) =~= ms.skip(done + 1));
            assert(ms.skip(done).drop_first() =~= ms.skip(done + 1));
        }
        let ghost before = out@.map_values(|x: Effort| x@);
        if cursor < e.span.start() {
            let idle = match TimeSpan::build(cursor, e.span.start()) {
                Ok(s) => s,
                Err(_) => {
                    proof {
                        assert(false);
                    }
                    return Vec::new();
                },
            };
            let eff = Effort { span: idle, title: "<idle>".to_owned() };
            proof {
                reveal_strlit("<idle>");
                assert(eff@.title =~= idle_title());
                assert(eff@ == EffortModel {
                    span: SpanModel { start: cursor as int, end: e@.span.start },
                    title: idle_title(),
                });
            }
            out.push(eff);
        }
        let enext = e.span.end();
        out.push(e);
        if enext > cursor {
            cursor = enext;
        }
        proof {
            let em = ms[done];
            let next = if em.span.end > c0 { em.span.end } else { c0 };
            assert(cursor as int == next);
            let tail = fill_idle(day as int, ms.skip(done + 1), next);
            let rest_s = seq![em] + tail;
            let idle_s = seq![
                EffortModel { span: SpanModel { start: c0, end: em.span.start }, title: idle_title() },
            ];
            assert(fill_idle(day as int, ms.skip(done), c0) == if c0 < em.span.start {
                idle_s + rest_s
            } else {
                rest_s
            });
            if c0 < em.span.start {
                assert(out@.map_values(|x: Effort| x@) =~= before + idle_s + seq![em]);
                assert(before + (idle_s + rest_s) =~= (before + idle_s + seq![em]) + tail);
            } else {
                assert(out@.map_values(|x: Effort| x@) =~= before + seq![em]);
                assert(before + rest_s =~= (before + seq![em]) + tail);
            }
            assert(fill_idle(day as int, ms, window_start(day as int)) =~= out@.map_values(
                |x: Effort| x@,
            ) + fill_idle(day as int, ms.skip(done + 1), cursor as int));
            done = done + 1;
        }
    }
    proof {
        assert(ms.skip(done) =~= Seq::<EffortModel>::empty());
    }
    if cursor < wend {
        let idle = match TimeSpan::build(cursor, wend) {
            Ok(s) => s,
            Err(_) => {
                proof {
                    assert(false);
                }
                return Vec::new();
            },
        };
        let eff = Effort { span: idle, title: "<idle>".to_owned() };
        proof {
            reveal_strlit("<idle>");
            assert(eff@.title =~= idle_title());
        }
        out.push(eff);
    }
    proof {
        assert(out@.map_values(|e: Effort| e@) =~= fill_idle(
            day as int,
            ms,
            window_start(day as int),
        ));
    }
    out
}


impl DailyDistributionView {
    /// Builds the per-day distribution: each day's spans sorted by
    /// start and the working window's gaps filled with `<idle>` spans.
    #[verifier::loop_isolation(false)]
    pub fn new(entries: &Vec<FinishedEntry>, off: i64) -> (r: Self)
        requires
            valid_offset(off as int),
            forall|i: int|
                0 <= i < entries@.len() ==> entry_in_local_range((#[trigger] entries@[i])@, off as int),
        ensures
            r@.map_values(|d: DayDistModel| (d.day, d.spans)) == dist_groups(
                entries@.map_values(|e: FinishedEntry| e@),
                off as int,
            ).map_values(|p: (int, Seq<EffortModel>)| (p.0, day_distribution(p.0, p.1))),
            forall|k: int|
                0 <= k < r@.len() ==> {
                    let d = #[trigger] r@[k];
                    valid_date(d.year, d.month, d.dom) && spec_days_from_civil(
                        d.year,
                        d.month,
                        d.dom,
                    ) == d.day
                },
            forall|k: int, t: int|
                0 <= k < r@.len() && 0 <= t < (#[trigger] r@[k]).spans.len() ==> 0 <= (
                #[trigger] r@[k].spans[t]).span.start < r@[k].spans[t].span.end < MAX_TS,
    {
        let ghost ms = entries@.map_values(|e: FinishedEntry| e@);
        let mut days: Vec<DayDist> = Vec::new();
        let n = entries.len();
        let mut i: usize = 0;
        while i < n
            invariant
                0 <= i <= n,
                n == entries@.len(),
                days@.map_values(|d: DayDist| d@).map_values(|d: DayDistModel| (d.day, d.spans))
                    =~= dist_groups(ms.take(i as int), off as int),
                forall|k: int|
                    0 <= k < days@.len() ==> {
                        let d = (#[trigger] days@[k])@;
                        valid_date(d.year, d.month, d.dom) && spec_days_from_civil(
                            d.year,
                            d.month,
                            d.dom,
                        ) == d.day && 0 <= d.day < crate::time::MAX_DAY
                    },
                forall|k: int, t: int|
                    0 <= k < days@.len() && 0 <= t < (#[trigger] days@[k])@.spans.len() ==> 0 <= (
                    #[trigger] days@[k]@.spans[t]).span.start < days@[k]@.spans[t].span.end
                        < MAX_TS,
            decreases n - i,
        {
            proof {
                assert(ms.take(i as int + 1).drop_last() =~= ms.take(i as int));
                assert(ms.take(i as int + 1).last() == ms[i as int]);
                assert(entry_in_local_range(ms[i as int], off as int));
                lemma_max_day();
                vstd::arithmetic::div_mod::lemma_fundamental_div_mod(
                    ms[i as int].id.start + off as int,
                    86400,
                );
                vstd::arithmetic::div_mod::lemma_fundamental_div_mod(
                    ms[i as int].end + off as int,
                    86400,
                );
            }
            let e = &entries[i];
            let day = local_day_of(e.id.start, off);
            let span = match TimeSpan::build(e.id.start + off, e.end + off) {
                Ok(s) => s,
                Err(_) => {
                    proof {
                        assert(false);
                    }
                    return DailyDistributionView { days: Vec::new() };
                },
            };
            let eff = Effort { span, title: e.id.title.clone() };
            proof {
                assert(eff@ == EffortModel {
                    span: span_of(ms[i as int], off as int),
                    title: ms[i as int].id.title,
                });
            }
            let ghost pairs = days@.map_values(|d: DayDist| d@).map_values(
                |d: DayDistModel| (d.day, d.spans),
            );
            let m = days.len();
            let mut f: usize = 0;
            let mut matched = false;
            while f < m && !matched
                invariant
                    0 <= f <= m,
                    m == days@.len(),
                    matched ==> f < m && days@[f as int]@.day == day as int,
                    forall|k: int| 0 <= k < f ==> (#[trigger] days@[k])@.day != day as int,
                decreases m - f + (if matched { 0int } else { 1int }),
            {
                if days[f].day == day {
                    matched = true;
                } else {
                    f = f + 1;
                }
            }
            if matched {
                let ghost gseq = days@;
                proof {
                    assert forall|k: int| 0 <= k < f implies pairs[k].0 != day as int by {
                        assert(pairs[k] == (gseq[k]@.day, gseq[k]@.spans));
                    }
                    assert(pairs[f as int].0 == day as int);
                    lemma_add_eff_found(pairs, day as int, eff@, f as int);
                }
                let mut grp = days.remove(f);
                let ghost sp = grp@.spans;
                grp.spans.push(eff);
                proof {
                    assert(grp@.spans =~= sp.push(eff@));
                }
                days.insert(f, grp);
                proof {
                    assert(days@ =~= gseq.update(f as int, grp));
                    assert(days@.map_values(|d: DayDist| d@).map_values(
                        |d: DayDistModel| (d.day, d.spans),
                    ) =~= add_eff(pairs, day as int, eff@));
                }
            } else {
                let ghost gseq = days@;
                proof {
                    assert forall|k: int| 0 <= k < pairs.len() implies pairs[k].0
                        != day as int by {
                        assert(pairs[k] == (gseq[k]@.day, gseq[k]@.spans));
                    }
                    lemma_add_eff_new(pairs, day as int, eff@);
                }
                let date = civil_from_days(day);
                let mut spans: Vec<Effort> = Vec::new();
                spans.push(eff);
                let grp = DayDist { day, date, spans };
                days.push(grp);
                proof {
                    assert(grp@.spans =~= seq![eff@]);
                    assert(days@.map_values(|d: DayDist| d@).map_values(
                        |d: DayDistModel| (d.day, d.spans),
                    ) =~= add_eff(pairs, day as int, eff@));
                }
            }
            i = i + 1;
        }
        proof {
            assert(ms.take(n as int) =~= ms);
        }
        let ghost groups = dist_groups(ms, off as int);
        // second pass: sort each day and fill the idle gaps
        let mut rest = days;
        let mut out: Vec<DayDist> = Vec::new();
        let ghost gdays = rest@;
        let ghost mut done: int = 0;
        while rest.len() > 0
            invariant
                0 <= done <= gdays.len(),
                rest@ =~= gdays.skip(done),
                gdays.map_values(|d: DayDist| d@).map_values(|d: DayDistModel| (d.day, d.spans))
                    =~= groups,
                forall|k: int|
                    0 <= k < gdays.len() ==> {
                        let d = (#[trigger] gdays[k])@;
                        valid_date(d.year, d.month, d.dom) && spec_days_from_civil(
                            d.year,
                            d.month,
                            d.dom,
                        ) == d.day && 0 <= d.day < crate::time::MAX_DAY
                    },
                forall|k: int, t: int|
                    0 <= k < gdays.len() && 0 <= t < (#[trigger] gdays[k])@.spans.len() ==> 0 <= (
                    #[trigger] gdays[k]@.spans[t]).span.start < gdays[k]@.spans[t].span.end
                        < MAX_TS,
                out@.map_values(|d: DayDist| d@).map_values(|d: DayDistModel| (d.day, d.spans))
                    =~= groups.take(done).map_values(
                    |p: (int, Seq<EffortModel>)| (p.0, day_distribution(p.0, p.1)),
                ),
                forall|k: int|
                    0 <= k < out@.len() ==> {
                        let d = (#[trigger] out@[k])@;
                        valid_date(d.year, d.month, d.dom) && spec_days_from_civil(
                            d.year,
                            d.month,
                            d.dom,
                        ) == d.day
                    },
                forall|k: int, t: int|
                    0 <= k < out@.len() && 0 <= t < (#[trigger] out@[k])@.spans.len() ==> 0 <= (
                    #[trigger] out@[k]@.spans[t]).span.start < out@[k]@.spans[t].span.end < MAX_TS,
            decreases rest@.len(),
        {
            let ghost prev = rest@;
            let mut grp = rest.remove(0);
            proof {
                assert(grp == gdays[done]);
                assert(rest@ =~= gdays.skip(done + 1));
                assert(groups[done] == (grp@.day, grp@.spans));
                lemma_sort_effs_props(grp@.spans);
            }
            let ghost raw = grp@.spans;
            let sorted = sort_efforts(grp.spans);
            proof {
                assert forall|k: int|
                    0 <= k < sorted@.len() implies 0 <= (#[trigger] sorted@[k])@.span.start
                    < sorted@[k]@.span.end < MAX_TS by {
                    let sm = sorted@.map_values(|x: Effort| x@);
                    assert(sm[k] == sorted@[k]@);
                    assert(raw.contains(sm[k]));
                    let q = choose|q: int| 0 <= q < raw.len() && #[trigger] raw[q] == sm[k];
                    assert(gdays[done]@.spans[q] == raw[q]);
                }
            }
            let filled = fill_day(grp.day, sorted);
            let newgrp = DayDist { day: grp.day, date: grp.date, spans: filled };
            let ghost old_out = out@;
            out.push(newgrp);
            proof {
                assert(newgrp@.spans =~= day_distribution(grp@.day as int, raw));
                let lhs = out@.map_values(|d: DayDist| d@).map_values(
                    |d: DayDistModel| (d.day, d.spans),
                );
                let rhs = groups.take(done + 1).map_values(
                    |p: (int, Seq<EffortModel>)| (p.0, day_distribution(p.0, p.1)),
                );
                assert(lhs.len() == done + 1 && rhs.len() == done + 1);
                assert forall|k: int| 0 <= k < done + 1 implies lhs[k] == rhs[k] by {
                    assert(groups.take(done + 1)[k] == groups[k]);
                    if k < done {
                        assert(out@[k] == old_out[k]);
                        assert(old_out.map_values(|d: DayDist| d@).map_values(
                            |d: DayDistModel| (d.day, d.spans),
                        )[k] == groups.take(done).map_values(
                            |p: (int, Seq<EffortModel>)| (p.0, day_distribution(p.0, p.1)),
                        )[k]);
                        assert(groups.take(done)[k] == groups[k]);
                    } else {
                        assert(out@[k] == newgrp);
                        assert(lhs[k] == (newgrp@.day, newgrp@.spans));
                        assert(rhs[k] == (groups[done].0, day_distribution(
                            groups[done].0,
                            groups[done].1,
                        )));
                    }
                }
                assert(lhs =~= rhs);
                done = done + 1;
            }
        }
        proof {
            assert(groups.take(done) =~= groups);
            assert(gdays.len() == groups.len());
        }
        DailyDistributionView { days: out }
    }
}


/// The sum of the day totals.
pub open spec fn sum_day_totals(days: Seq<DayTotalModel>) -> int
    decreases days.len(),
{
    if days.len() == 0 {
        0
    } else {
        sum_day_totals(days.drop_last()) + days.last().total
    }
}

/// One line of the daily summary: the date and its total.
pub open spec fn summary_line(d: DayTotalModel) -> Seq<char> {
    date_chars(d.year, d.month, d.dom) + ": "@ + duration_str(((d.total / 60)) as nat) + seq![
        '\n',
    ]
}

/// The per-date lines of the daily summary.
pub open spec fn summary_lines(days: Seq<DayTotalModel>) -> Seq<char>
    decreases days.len(),
{
    if days.len() == 0 {
        Seq::empty()
    } else {
        summary_lines(days.drop_last()) + summary_line(days.last())
    }
}

/// The whole daily summary: one line per date, closed by a grand total
/// where more than one date is present.
pub open spec fn summary_chars(days: Seq<DayTotalModel>) -> Seq<char> {
    summary_lines(days) + if days.len() > 1 {
        "(Total): "@ + duration_str(((sum_day_totals(days) / 60)) as nat) + seq!['\n']
    } else {
        Seq::<char>::empty()
    }
}

/// Prefix sums of nonnegative totals never exceed the whole sum.
proof fn lemma_sum_day_totals_prefix(days: Seq<DayTotalModel>, i: int)
    requires
        0 <= i <= days.len(),
        forall|k: int| 0 <= k < days.len() ==> (#[trigger] days[k]).total >= 0,
    ensures
        0 <= sum_day_totals(days.take(i)) <= sum_day_totals(days),
    decreases days.len() - i, days.len(),
{
    assert forall|k: int| 0 <= k < days.take(i).len() implies (#[trigger] days.take(
        i,
    )[k]).total >= 0 by {
        assert(days.take(i)[k] == days[k]);
    }
    lemma_sum_day_totals_nonneg(days.take(i));
    if i == days.len() {
        assert(days.take(i) =~= days);
    } else {
        lemma_sum_day_totals_prefix(days, i + 1);
        assert(days.take(i + 1).drop_last() =~= days.take(i));
        assert(days.take(i + 1).last() == days[i]);
    }
}

proof fn lemma_sum_day_totals_nonneg(days: Seq<DayTotalModel>)
    requires
        forall|k: int| 0 <= k < days.len() ==> (#[trigger] days[k]).total >= 0,
    ensures
        sum_day_totals(days) >= 0,
    decreases days.len(),
{
    if days.len() > 0 {
        lemma_sum_day_totals_nonneg(days.drop_last());
    }
}

impl DailySummaryView {
    /// Renders one line per date plus a grand total where more than
    /// one date is present.
    #[verifier::loop_isolation(false)]
    pub fn render(&self) -> (r: String)
        requires
            forall|k: int|
                0 <= k < self@.len() ==> {
                    let d = #[trigger] self@[k];
                    valid_date(d.year, d.month, d.dom) && d.total >= 0
                },
            sum_day_totals(self@) <= i128::MAX,
        ensures
            r@ == summary_chars(self@),
    {
        let mut out = String::new();
        let mut total: i128 = 0;
        let n = self.days.len();
        let mut i: usize = 0;
        proof {
            assert(self@.take(0).len() == 0);
            assert(out@ =~= summary_lines(self@.take(0)));
        }
        while i < n
            invariant
                0 <= i <= n,
                n == self@.len(),
                out@ =~= summary_lines(self@.take(i as int)),
                total == sum_day_totals(self@.take(i as int)),
            decreases n - i,
        {
            proof {
                assert(self@.take(i as int + 1).drop_last() =~= self@.take(i as int));
                assert(self@.take(i as int + 1).last() == self@[i as int]);
                assert(self@[i as int] == self.days@[i as int]@);
                lemma_sum_day_totals_prefix(self@, i as int + 1);
            }
            let d = &self.days[i];
            out.append(date_string(d.date.0, d.date.1, d.date.2).as_str());
            out.append(": ");
            out.append(strify_duration((d.total / 60) as u128).as_str());
            out.append("\n");
            total = total + d.total;
            proof {
                reveal_strlit(": ");
                reveal_strlit("\n");
                assert(out@ =~= summary_lines(self@.take(i as int + 1)));
            }
            i = i + 1;
        }
        proof {
            assert(self@.take(n as int) =~= self@);
        }
        proof {
            lemma_sum_day_totals_prefix(self@, n as int);
            assert(total >= 0);
        }
        if n > 1 {
            let ghost lines = out@;
            out.append("(Total): ");
            out.append(strify_duration((total / 60) as u128).as_str());
            out.append("\n");
            proof {
                reveal_strlit("(Total): ");
                reveal_strlit("\n");
                assert(out@ =~= lines + "(Total): "@ + duration_str(
                    ((sum_day_totals(self@) / 60)) as nat,
                ) + seq!['\n']);
            }
        }
        proof {
            assert(out@ =~= summary_chars(self@));
        }
        out
    }
}

/// One line of a detail group: an indented span.
pub open spec fn span_line(sp: SpanModel) -> Seq<char> {
    seq!['\t'] + span_chars(sp, true) + seq!['\n']
}

/// The span lines of a detail group.
pub open spec fn span_lines(spans: Seq<SpanModel>) -> Seq<char>
    decreases spans.len(),
{
    if spans.len() == 0 {
        Seq::empty()
    } else {
        span_lines(spans.drop_last()) + span_line(spans.last())
    }
}

/// The summed length of the spans, in seconds.
pub open spec fn sum_span_durs(spans: Seq<SpanModel>) -> int
    decreases spans.len(),
{
    if spans.len() == 0 {
        0
    } else {
        sum_span_durs(spans.drop_last()) + (spans.last().end - spans.last().start)
    }
}

proof fn lemma_sum_span_durs_bound(spans: Seq<SpanModel>)
    requires
        forall|k: int|
            0 <= k < spans.len() ==> 0 < (#[trigger] spans[k]).end - spans[k].start < MAX_TS,
    ensures
        0 <= sum_span_durs(spans) <= spans.len() * (MAX_TS as int),
    decreases spans.len(),
{
    if spans.len() > 0 {
        lemma_sum_span_durs_bound(spans.drop_last());
    }
}

/// One title group of the entry detail: the title line, its spans, and
/// the per-title total.
pub open spec fn group_chars(g: TitleSpansModel) -> Seq<char> {
    g.title + seq![':', '\n'] + span_lines(g.spans) + seq!['\t'] + "(Total): "@ + duration_str(
        ((sum_span_durs(g.spans) / 60)) as nat,
    ) + seq!['\n', '\n']
}

/// The whole entry detail rendering.
pub open spec fn detail_chars(gs: Seq<TitleSpansModel>) -> Seq<char>
    decreases gs.len(),
{
    if gs.len() == 0 {
        Seq::empty()
    } else {
        detail_chars(gs.drop_last()) + group_chars(gs.last())
    }
}

impl EntryDetailView {
    /// Renders each title with its spans and a per-title total.
    #[verifier::loop_isolation(false)]
    #[verifier::rlimit(100)]
    pub fn render(&self) -> (r: String)
        requires
            forall|k: int, t: int|
                0 <= k < self@.len() && 0 <= t < (#[trigger] self@[k]).spans.len() ==> {
                    let sp = #[trigger] self@[k].spans[t];
                    0 <= sp.start < sp.end < MAX_TS
                },
        ensures
            r@ == detail_chars(self@),
    {
        let mut out = String::new();
        let n = self.groups.len();
        let mut i: usize = 0;
        proof {
            assert(self@.take(0).len() == 0);
            assert(out@ =~= detail_chars(self@.take(0)));
        }
        while i < n
            invariant
                0 <= i <= n,
                n == self@.len(),
                out@ =~= detail_chars(self@.take(i as int)),
            decreases n - i,
        {
            proof {
                assert(self@.take(i as int + 1).drop_last() =~= self@.take(i as int));
                assert(self@.take(i as int + 1).last() == self@[i as int]);
                assert(self@[i as int] == self.groups@[i as int]@);
            }
            let g = &self.groups[i];
            out.append(g.title.as_str());
            out.append(":\n");
            let m = g.spans.len();
            let mut total: i128 = 0;
            let mut j: usize = 0;
            let ghost gm = self@[i as int];
            proof {
                reveal_strlit(":\n");
                assert(gm.spans.take(0).len() == 0);
                assert(out@ =~= detail_chars(self@.take(i as int)) + gm.title + seq![':', '\n']
                    + span_lines(gm.spans.take(0)));
            }
            while j < m
                invariant
                    0 <= j <= m,
                    m == gm.spans.len(),
                    gm == self@[i as int],
                    gm == self.groups@[i as int]@,
                    i < n == self@.len(),
                    out@ =~= detail_chars(self@.take(i as int)) + gm.title + seq![':', '\n']
                        + span_lines(gm.spans.take(j as int)),
                    total == sum_span_durs(gm.spans.take(j as int)),
                    0 <= total <= j * (MAX_TS as int),
                decreases m - j,
            {
                proof {
                    assert(gm.spans.take(j as int + 1).drop_last() =~= gm.spans.take(j as int));
                    assert(gm.spans.take(j as int + 1).last() == gm.spans[j as int]);
                    assert(gm.spans[j as int] == self.groups@[i as int].spans@[j as int]@);
                }
                let sp = &self.groups[i].spans[j];
                out.append("\t");
                out.append(sp.render(true).as_str());
                out.append("\n");
                total = total + (sp.duration() as i128);
                proof {
                    reveal_strlit("\t");
                    reveal_strlit("\n");
                    assert(out@ =~= detail_chars(self@.take(i as int)) + gm.title + seq![':',
                        '\n'] + span_lines(gm.spans.take(j as int + 1)));
                }
                j = j + 1;
            }
            proof {
                assert(gm.spans.take(m as int) =~= gm.spans);
            }
            out.append("\t");
            out.append("(Total): ");
            out.append(strify_duration((total / 60) as u128).as_str());
            out.append("\n\n");
            proof {
                reveal_strlit("\t");
                reveal_strlit("(Total): ");
                reveal_strlit("\n\n");
                assert(out@ =~= detail_chars(self@.take(i as int + 1)));
            }
            i = i + 1;
        }
        proof {
            assert(self@.take(n as int) =~= self@);
        }
        out
    }
}


/// One line of a day's detail: an indented title and its total.
pub open spec fn title_line(t: (Seq<char>, int)) -> Seq<char> {
    seq!['\t'] + t.0 + ": "@ + duration_str(((t.1 / 60)) as nat) + seq!['\n']
}

/// The title lines of one day's detail.
pub open spec fn title_lines(ts: Seq<(Seq<char>, int)>) -> Seq<char>
    decreases ts.len(),
{
    if ts.len() == 0 {
        Seq::empty()
    } else {
        title_lines(ts.drop_last()) + title_line(ts.last())
    }
}

/// The sum of the title totals of one day.
pub open spec fn sum_title_totals(ts: Seq<(Seq<char>, int)>) -> int
    decreases ts.len(),
{
    if ts.len() == 0 {
        0
    } else {
        sum_title_totals(ts.drop_last()) + ts.last().1
    }
}

/// One day of the daily detail: the date line, the title lines and the
/// day's total.
pub open spec fn day_detail_chars(d: DayDetailModel) -> Seq<char> {
    date_chars(d.year, d.month, d.dom) + ": "@ + seq!['\n'] + title_lines(d.titles) + seq![
        '\t',
    ] + "(Total): "@ + duration_str(((sum_title_totals(d.titles) / 60)) as nat) + seq!['\n', '\n']
}

/// The per-day blocks of the daily detail.
pub open spec fn daily_detail_lines(days: Seq<DayDetailModel>) -> Seq<char>
    decreases days.len(),
{
    if days.len() == 0 {
        Seq::empty()
    } else {
        daily_detail_lines(days.drop_last()) + day_detail_chars(days.last())
    }
}

/// The sum of all day totals of the daily detail.
pub open spec fn sum_detail_totals(days: Seq<DayDetailModel>) -> int
    decreases days.len(),
{
    if days.len() == 0 {
        0
    } else {
        sum_detail_totals(days.drop_last()) + sum_title_totals(days.last().titles)
    }
}

/// The whole daily detail rendering: the day blocks, closed by a grand
/// total where more than one date is present.
pub open spec fn daily_detail_chars(days: Seq<DayDetailModel>) -> Seq<char> {
    daily_detail_lines(days) + if days.len() > 1 {
        "(Total): "@ + duration_str(((sum_detail_totals(days) / 60)) as nat) + seq!['\n']
    } else {
        Seq::<char>::empty()
    }
}

proof fn lemma_sum_title_totals_prefix(ts: Seq<(Seq<char>, int)>, i: int)
    requires
        0 <= i <= ts.len(),
        forall|k: int| 0 <= k < ts.len() ==> (#[trigger] ts[k]).1 >= 0,
    ensures
        0 <= sum_title_totals(ts.take(i)) <= sum_title_totals(ts),
    decreases ts.len() - i, ts.len(),
{
    assert forall|k: int| 0 <= k < ts.take(i).len() implies (#[trigger] ts.take(i)[k]).1 >= 0 by {
        assert(ts.take(i)[k] == ts[k]);
    }
    lemma_sum_title_totals_nonneg(ts.take(i));
    if i == ts.len() {
        assert(ts.take(i) =~= ts);
    } else {
        lemma_sum_title_totals_prefix(ts, i + 1);
        assert(ts.take(i + 1).drop_last() =~= ts.take(i));
        assert(ts.take(i + 1).last() == ts[i]);
    }
}

proof fn lemma_sum_title_totals_nonneg(ts: Seq<(Seq<char>, int)>)
    requires
        forall|k: int| 0 <= k < ts.len() ==> (#[trigger] ts[k]).1 >= 0,
    ensures
        sum_title_totals(ts) >= 0,
    decreases ts.len(),
{
    if ts.len() > 0 {
        lemma_sum_title_totals_nonneg(ts.drop_last());
    }
}

proof fn lemma_sum_detail_totals_prefix(days: Seq<DayDetailModel>, i: int)
    requires
        0 <= i <= days.len(),
        forall|k: int, t: int|
            0 <= k < days.len() && 0 <= t < (#[trigger] days[k]).titles.len() ==> (
            #[trigger] days[k].titles[t]).1 >= 0,
    ensures
        0 <= sum_detail_totals(days.take(i)) <= sum_detail_totals(days),
    decreases days.len() - i,
{
    lemma_sum_detail_totals_nonneg(days, i);
    if i == days.len() {
        assert(days.take(i) =~= days);
    } else {
        lemma_sum_detail_totals_prefix(days, i + 1);
        assert(days.take(i + 1).drop_last() =~= days.take(i));
        assert(days.take(i + 1).last() == days[i]);
        lemma_sum_title_totals_nonneg(days[i].titles);
    }
}

proof fn lemma_sum_detail_totals_nonneg(days: Seq<DayDetailModel>, i: int)
    requires
        0 <= i <= days.len(),
        forall|k: int, t: int|
            0 <= k < days.len() && 0 <= t < (#[trigger] days[k]).titles.len() ==> (
            #[trigger] days[k].titles[t]).1 >= 0,
    ensures
        sum_detail_totals(days.take(i)) >= 0,
    decreases i,
{
    if i > 0 {
        lemma_sum_detail_totals_nonneg(days, i - 1);
        assert(days.take(i).drop_last() =~= days.take(i - 1));
        assert(days.take(i).last() == days[i - 1]);
        lemma_sum_title_totals_nonneg(days[i - 1].titles);
    } else {
        assert(days.take(0).len() == 0);
    }
}


/// The sum of one day's title totals equals the first plus the rest.
proof fn lemma_sum_title_first_rest(ts: Seq<(Seq<char>, int)>)
    requires
        ts.len() > 0,
    ensures
        sum_title_totals(ts) == ts[0].1 + sum_title_totals(ts.drop_first()),
    decreases ts.len(),
{
    if ts.len() == 1 {
        assert(sum_title_totals(ts) == sum_title_totals(ts.drop_last()) + ts.last().1);
        assert(ts.drop_last().len() == 0 && ts.drop_first().len() == 0);
        assert(ts.last() == ts[0]);
    } else {
        lemma_sum_title_first_rest(ts.drop_last());
        assert(sum_title_totals(ts) == sum_title_totals(ts.drop_last()) + ts.last().1);
        assert(ts.drop_last()[0] == ts[0]);
        assert(ts.drop_last().drop_first() =~= ts.drop_first().drop_last());
        assert(ts.drop_first().last() == ts.last());
        assert(ts.drop_first().len() > 0);
        assert(sum_title_totals(ts.drop_first()) == sum_title_totals(ts.drop_first().drop_last())
            + ts.drop_first().last().1);
    }
}

/// Merging one more duration into a day's titles raises their sum by
/// exactly that duration.
proof fn lemma_upsert_title_sum(ts: Seq<(Seq<char>, int)>, title: Seq<char>, dur: int)
    ensures
        sum_title_totals(upsert_title(ts, title, dur)) == sum_title_totals(ts) + dur,
    decreases ts.len(),
{
    let r = upsert_title(ts, title, dur);
    if ts.len() == 0 {
        assert(sum_title_totals(r) == sum_title_totals(r.drop_last()) + r.last().1);
        assert(r.drop_last().len() == 0);
    } else if ts[0].0 == title {
        lemma_sum_title_first_rest(ts);
        lemma_sum_title_first_rest(r);
        assert(r[0] == (ts[0].0, ts[0].1 + dur));
        assert(r.drop_first() =~= ts.drop_first());
    } else {
        lemma_upsert_title_sum(ts.drop_first(), title, dur);
        lemma_sum_title_first_rest(ts);
        lemma_sum_title_first_rest(r);
        assert(r[0] == ts[0]);
        assert(r.drop_first() =~= upsert_title(ts.drop_first(), title, dur));
    }
}

/// The sum of all durations held by the two-level grouping.
pub open spec fn sum_detail_pairs(acc: Seq<(int, Seq<(Seq<char>, int)>)>) -> int
    decreases acc.len(),
{
    if acc.len() == 0 {
        0
    } else {
        sum_detail_pairs(acc.drop_last()) + sum_title_totals(acc.last().1)
    }
}

proof fn lemma_sum_detail_pairs_first_rest(acc: Seq<(int, Seq<(Seq<char>, int)>)>)
    requires
        acc.len() > 0,
    ensures
        sum_detail_pairs(acc) == sum_title_totals(acc[0].1) + sum_detail_pairs(acc.drop_first()),
    decreases acc.len(),
{
    if acc.len() == 1 {
        assert(sum_detail_pairs(acc) == sum_detail_pairs(acc.drop_last()) + sum_title_totals(
            acc.last().1,
        ));
        assert(acc.drop_last().len() == 0 && acc.drop_first().len() == 0);
        assert(acc.last() == acc[0]);
    } else {
        lemma_sum_detail_pairs_first_rest(acc.drop_last());
        assert(sum_detail_pairs(acc) == sum_detail_pairs(acc.drop_last()) + sum_title_totals(
            acc.last().1,
        ));
        assert(acc.drop_last()[0] == acc[0]);
        assert(acc.drop_last().drop_first() =~= acc.drop_first().drop_last());
        assert(acc.drop_first().last() == acc.last());
        assert(acc.drop_first().len() > 0);
        assert(sum_detail_pairs(acc.drop_first()) == sum_detail_pairs(
            acc.drop_first().drop_last(),
        ) + sum_title_totals(acc.drop_first().last().1));
    }
}

/// Adding one duration to the two-level grouping raises its sum by
/// exactly that duration.
proof fn lemma_add_detail_sum(
    acc: Seq<(int, Seq<(Seq<char>, int)>)>,
    day: int,
    title: Seq<char>,
    dur: int,
)
    ensures
        sum_detail_pairs(add_detail(acc, day, title, dur)) == sum_detail_pairs(acc) + dur,
    decreases acc.len(),
{
    let r = add_detail(acc, day, title, dur);
    if acc.len() == 0 {
        assert(sum_detail_pairs(r) == sum_detail_pairs(r.drop_last()) + sum_title_totals(
            r.last().1,
        ));
        assert(r.drop_last().len() == 0);
        assert(sum_title_totals(r.last().1) == sum_title_totals(seq![(title, dur)]));
        let single = seq![(title, dur)];
        assert(single.last() == (title, dur));
        assert(single.drop_last().len() == 0);
        assert(sum_title_totals(single) == sum_title_totals(single.drop_last()) + dur);
    } else if acc[0].0 == day {
        lemma_sum_detail_pairs_first_rest(acc);
        lemma_sum_detail_pairs_first_rest(r);
        lemma_upsert_title_sum(acc[0].1, title, dur);
        assert(r[0] == (acc[0].0, upsert_title(acc[0].1, title, dur)));
        assert(r.drop_first() =~= acc.drop_first());
    } else {
        lemma_add_detail_sum(acc.drop_first(), day, title, dur);
        lemma_sum_detail_pairs_first_rest(acc);
        lemma_sum_detail_pairs_first_rest(r);
        assert(r[0] == acc[0]);
        assert(r.drop_first() =~= add_detail(acc.drop_first(), day, title, dur));
    }
}

/// Law: the daily detail conserves time. The sum of all its per-title
/// totals equals the sum of the entry durations.
pub proof fn lemma_detail_conserves_total(entries: Seq<FinishedModel>, off: int)
    ensures
        sum_detail_pairs(detail_pairs(entries, off)) == sum_durations(entries),
    decreases entries.len(),
{
    if entries.len() > 0 {
        lemma_detail_conserves_total(entries.drop_last(), off);
        lemma_add_detail_sum(
            detail_pairs(entries.drop_last(), off),
            spec_local_day(entries.last().id.start, off),
            entries.last().id.title,
            entries.last().end - entries.last().id.start,
        );
    }
}

/// The day details and their `(day, titles)` pairs sum to the same
/// value.
proof fn lemma_sum_detail_totals_bridge(days: Seq<DayDetailModel>)
    ensures
        sum_detail_totals(days) == sum_detail_pairs(
            days.map_values(|d: DayDetailModel| (d.day, d.titles)),
        ),
    decreases days.len(),
{
    if days.len() > 0 {
        lemma_sum_detail_totals_bridge(days.drop_last());
        let m = days.map_values(|d: DayDetailModel| (d.day, d.titles));
        assert(m.drop_last() =~= days.drop_last().map_values(
            |d: DayDetailModel| (d.day, d.titles),
        ));
        assert(m.last() == (days.last().day, days.last().titles));
    }
}

impl DailyDetailView {
    /// Renders each date with its per-title totals and a day total,
    /// closed by a grand total where more than one date is present.
    #[verifier::loop_isolation(false)]
    #[verifier::rlimit(100)]
    pub fn render(&self) -> (r: String)
        requires
            forall|k: int|
                0 <= k < self@.len() ==> valid_date(
                    (#[trigger] self@[k]).year,
                    self@[k].month,
                    self@[k].dom,
                ),
            forall|k: int, t: int|
                0 <= k < self@.len() && 0 <= t < (#[trigger] self@[k]).titles.len() ==> (
                #[trigger] self@[k].titles[t]).1 >= 0,
            sum_detail_totals(self@) <= i128::MAX,
        ensures
            r@ == daily_detail_chars(self@),
    {
        let mut out = String::new();
        let mut grand: i128 = 0;
        let n = self.days.len();
        let mut i: usize = 0;
        proof {
            assert(self@.take(0).len() == 0);
            assert(out@ =~= daily_detail_lines(self@.take(0)));
        }
        while i < n
            invariant
                0 <= i <= n,
                n == self@.len(),
                out@ =~= daily_detail_lines(self@.take(i as int)),
                grand == sum_detail_totals(self@.take(i as int)),
            decreases n - i,
        {
            proof {
                assert(self@.take(i as int + 1).drop_last() =~= self@.take(i as int));
                assert(self@.take(i as int + 1).last() == self@[i as int]);
                assert(self@[i as int] == self.days@[i as int]@);
                lemma_sum_detail_totals_prefix(self@, i as int + 1);
                lemma_sum_detail_totals_nonneg(self@, i as int);
            }
            let d = &self.days[i];
            out.append(date_string(d.date.0, d.date.1, d.date.2).as_str());
            out.append(": ");
            out.append("\n");
            let ghost dm = self@[i as int];
            let m = d.titles.len();
            let mut daily: i128 = 0;
            let mut j: usize = 0;
            proof {
                reveal_strlit(": ");
                reveal_strlit("\n");
                assert(dm.titles.take(0).len() == 0);
                assert(out@ =~= daily_detail_lines(self@.take(i as int)) + date_chars(
                    dm.year,
                    dm.month,
                    dm.dom,
                ) + ": "@ + seq!['\n'] + title_lines(dm.titles.take(0)));
            }
            while j < m
                invariant
                    0 <= j <= m,
                    m == dm.titles.len(),
                    dm == self@[i as int],
                    dm == self.days@[i as int]@,
                    i < n == self@.len(),
                    out@ =~= daily_detail_lines(self@.take(i as int)) + date_chars(
                        dm.year,
                        dm.month,
                        dm.dom,
                    ) + ": "@ + seq!['\n'] + title_lines(dm.titles.take(j as int)),
                    daily == sum_title_totals(dm.titles.take(j as int)),
                decreases m - j,
            {
                proof {
                    assert(dm.titles.take(j as int + 1).drop_last() =~= dm.titles.take(j as int));
                    assert(dm.titles.take(j as int + 1).last() == dm.titles[j as int]);
                    assert(dm.titles[j as int] == self.days@[i as int].titles@[j as int]@);
                    assert forall|k: int| 0 <= k < dm.titles.len() implies (
                    #[trigger] dm.titles[k]).1 >= 0 by {}
                    lemma_sum_title_totals_prefix(dm.titles, j as int + 1);
                    lemma_sum_title_totals_nonneg(dm.titles);
                }
                let t = &self.days[i].titles[j];
                out.append("\t");
                out.append(t.title.as_str());
                out.append(": ");
                out.append(strify_duration((t.total / 60) as u128).as_str());
                out.append("\n");
                daily = daily + t.total;
                proof {
                    reveal_strlit("\t");
                    reveal_strlit(": ");
                    reveal_strlit("\n");
                    assert(out@ =~= daily_detail_lines(self@.take(i as int)) + date_chars(
                        dm.year,
                        dm.month,
                        dm.dom,
                    ) + ": "@ + seq!['\n'] + title_lines(dm.titles.take(j as int + 1)));
                }
                j = j + 1;
            }
            proof {
                assert(dm.titles.take(m as int) =~= dm.titles);
                lemma_sum_title_totals_nonneg(dm.titles);
            }
            out.append("\t");
            out.append("(Total): ");
            out.append(strify_duration((daily / 60) as u128).as_str());
            out.append("\n\n");
            grand = grand + daily;
            proof {
                reveal_strlit("\t");
                reveal_strlit("(Total): ");
                reveal_strlit("\n\n");
                assert(out@ =~= daily_detail_lines(self@.take(i as int + 1)));
            }
            i = i + 1;
        }
        proof {
            assert(self@.take(n as int) =~= self@);
            lemma_sum_detail_totals_nonneg(self@, n as int);
        }
        if n > 1 {
            let ghost lines = out@;
            out.append("(Total): ");
            out.append(strify_duration((grand / 60) as u128).as_str());
            out.append("\n");
            proof {
                reveal_strlit("(Total): ");
                reveal_strlit("\n");
                assert(out@ =~= lines + "(Total): "@ + duration_str(
                    ((sum_detail_totals(self@) / 60)) as nat,
                ) + seq!['\n']);
            }
        }
        proof {
            assert(out@ =~= daily_detail_chars(self@));
        }
        out
    }
}

/// Whether an effort is shown in the distribution's default rendering:
/// everything where `show_all` is on, otherwise only efforts of at
/// least one whole minute.
pub open spec fn eff_shown(e: EffortModel, show_all: bool) -> bool {
    show_all || (e.span.end - e.span.start) / 60 > 0
}

/// One line of a day's distribution: the bare times of the span and
/// its title.
pub open spec fn eff_line(e: EffortModel) -> Seq<char> {
    seq!['\t'] + span_chars(e.span, false) + ": "@ + e.title + seq!['\n']
}

/// The shown effort lines of one day.
pub open spec fn eff_lines(spans: Seq<EffortModel>, show_all: bool) -> Seq<char>
    decreases spans.len(),
{
    if spans.len() == 0 {
        Seq::empty()
    } else {
        eff_lines(spans.drop_last(), show_all) + if eff_shown(spans.last(), show_all) {
            eff_line(spans.last())
        } else {
            Seq::<char>::empty()
        }
    }
}

/// One day of the distribution: the date line and its shown efforts.
pub open spec fn day_dist_chars(d: DayDistModel, show_all: bool) -> Seq<char> {
    date_chars(d.year, d.month, d.dom) + ": "@ + seq!['\n'] + eff_lines(d.spans, show_all)
}

/// The whole distribution rendering.
pub open spec fn dist_chars(days: Seq<DayDistModel>, show_all: bool) -> Seq<char>
    decreases days.len(),
{
    if days.len() == 0 {
        Seq::empty()
    } else {
        dist_chars(days.drop_last(), show_all) + day_dist_chars(days.last(), show_all)
    }
}

impl DailyDistributionView {
    /// Renders each date with its spans at sub-day granularity;
    /// `show_all` keeps spans under one minute, the default hides them.
    #[verifier::loop_isolation(false)]
    #[verifier::rlimit(100)]
    pub fn render(&self, show_all: bool) -> (r: String)
        requires
            forall|k: int|
                0 <= k < self@.len() ==> valid_date(
                    (#[trigger] self@[k]).year,
                    self@[k].month,
                    self@[k].dom,
                ),
            forall|k: int, t: int|
                0 <= k < self@.len() && 0 <= t < (#[trigger] self@[k]).spans.len() ==> {
                    let sp = (#[trigger] self@[k].spans[t]).span;
                    0 <= sp.start < sp.end < MAX_TS
                },
        ensures
            r@ == dist_chars(self@, show_all),
    {
        let mut out = String::new();
        let n = self.days.len();
        let mut i: usize = 0;
        proof {
            assert(self@.take(0).len() == 0);
            assert(out@ =~= dist_chars(self@.take(0), show_all));
        }
        while i < n
            invariant
                0 <= i <= n,
                n == self@.len(),
                out@ =~= dist_chars(self@.take(i as int), show_all),
            decreases n - i,
        {
            proof {
                assert(self@.take(i as int + 1).drop_last() =~= self@.take(i as int));
                assert(self@.take(i as int + 1).last() == self@[i as int]);
                assert(self@[i as int] == self.days@[i as int]@);
            }
            let d = &self.days[i];
            out.append(date_string(d.date.0, d.date.1, d.date.2).as_str());
            out.append(": ");
            out.append("\n");
            let ghost dm = self@[i as int];
            let m = d.spans.len();
            let mut j: usize = 0;
            proof {
                reveal_strlit(": ");
                reveal_strlit("\n");
                assert(dm.spans.take(0).len() == 0);
                assert(out@ =~= dist_chars(self@.take(i as int), show_all) + date_chars(
                    dm.year,
                    dm.month,
                    dm.dom,
                ) + ": "@ + seq!['\n'] + eff_lines(dm.spans.take(0), show_all));
            }
            while j < m
                invariant
                    0 <= j <= m,
                    m == dm.spans.len(),
                    dm == self@[i as int],
                    dm == self.days@[i as int]@,
                    i < n == self@.len(),
                    out@ =~= dist_chars(self@.take(i as int), show_all) + date_chars(
                        dm.year,
                        dm.month,
                        dm.dom,
                    ) + ": "@ + seq!['\n'] + eff_lines(dm.spans.take(j as int), show_all),
                decreases m - j,
            {
                proof {
                    assert(dm.spans.take(j as int + 1).drop_last() =~= dm.spans.take(j as int));
                    assert(dm.spans.take(j as int + 1).last() == dm.spans[j as int]);
                    assert(dm.spans[j as int] == self.days@[i as int].spans@[j as int]@);
                }
                let eff = &self.days[i].spans[j];
                let minutes = eff.span.duration() / SECS_PER_MIN;
                if show_all || minutes > 0 {
                    out.append("\t");
                    out.append(eff.span.render(false).as_str());
                    out.append(": ");
                    out.append(eff.title.as_str());
                    out.append("\n");
                }
                proof {
                    reveal_strlit("\t");
                    reveal_strlit(": ");
                    reveal_strlit("\n");
                    assert(out@ =~= dist_chars(self@.take(i as int), show_all) + date_chars(
                        dm.year,
                        dm.month,
                        dm.dom,
                    ) + ": "@ + seq!['\n'] + eff_lines(dm.spans.take(j as int + 1), show_all));
                }
                j = j + 1;
            }
            proof {
                assert(dm.spans.take(m as int) =~= dm.spans);
                assert(out@ =~= dist_chars(self@.take(i as int + 1), show_all));
            }
            i = i + 1;
        }
        proof {
            assert(self@.take(n as int) =~= self@);
        }
        out
    }
}


/// Whether the efforts stand in order and apart: each one ends no
/// later than the next begins.
pub open spec fn non_overlapping(s: Seq<EffortModel>) -> bool {
    forall|i: int, j: int| 0 <= i < j < s.len() ==> (#[trigger] s[i]).span.end <= (#[trigger] s[j]).span.start
}

/// Whether every effort lies inside the working window of `day`.
pub open spec fn within_window(day: int, s: Seq<EffortModel>) -> bool {
    forall|k: int|
        0 <= k < s.len() ==> window_start(day) <= (#[trigger] s[k]).span.start < s[k].span.end
            <= window_end(day)
}

/// The filled spans tile the window from the cursor on: each span ends
/// where the next begins, the first starts at the cursor, and the last
/// ends at the window's end.
proof fn lemma_fill_idle_tiles(day: int, s: Seq<EffortModel>, cursor: int)
    requires
        non_overlapping(s),
        within_window(day, s),
        cursor <= window_end(day),
        s.len() > 0 ==> cursor <= s[0].span.start,
    ensures
        forall|k: int|
            0 <= k < fill_idle(day, s, cursor).len() - 1 ==> (#[trigger] fill_idle(
                day,
                s,
                cursor,
            )[k]).span.end == fill_idle(day, s, cursor)[k + 1].span.start,
        fill_idle(day, s, cursor).len() > 0 ==> fill_idle(day, s, cursor)[0].span.start == cursor
            && fill_idle(day, s, cursor).last().span.end == window_end(day),
        cursor < window_end(day) || s.len() > 0 ==> fill_idle(day, s, cursor).len() > 0,
    decreases s.len(),
{
    let r = fill_idle(day, s, cursor);
    if s.len() == 0 {
    } else {
        let e = s[0];
        let rest = s.drop_first();
        assert(cursor <= e.span.start && e.span.end <= window_end(day));
        assert forall|i: int, j: int| 0 <= i < j < rest.len() implies (
        #[trigger] rest[i]).span.end <= (#[trigger] rest[j]).span.start by {
            assert(rest[i] == s[i + 1] && rest[j] == s[j + 1]);
        }
        assert forall|k: int| 0 <= k < rest.len() implies window_start(day) <= (
        #[trigger] rest[k]).span.start < rest[k].span.end <= window_end(day) by {
            assert(rest[k] == s[k + 1]);
        }
        if rest.len() > 0 {
            assert(rest[0] == s[1]);
            assert(e.span.end <= s[1].span.start);
        }
        let next = if e.span.end > cursor {
            e.span.end
        } else {
            cursor
        };
        assert(next == e.span.end);
        lemma_fill_idle_tiles(day, rest, e.span.end);
        let tail = fill_idle(day, rest, e.span.end);
        if e.span.end == window_end(day) && rest.len() == 0 {
            assert(tail.len() == 0);
        } else {
            assert(tail.len() > 0);
        }
        assert forall|k: int| 0 <= k < r.len() - 1 implies (#[trigger] r[k]).span.end == r[k
            + 1].span.start by {
            let base: int = if cursor < e.span.start {
                1
            } else {
                0
            };
            if k < base {
            } else if k == base {
                if tail.len() > 0 {
                    assert(r[k + 1] == tail[0]);
                }
            } else {
                assert(r[k] == tail[k - base - 1]);
                assert(r[k + 1] == tail[k - base]);
            }
        }
        if r.len() > 0 {
            if tail.len() > 0 {
                assert(r.last() == tail.last());
            } else {
                assert(r.last() == e);
            }
        }
    }
}

/// Where the efforts are already ordered by start, sorting leaves them
/// as they stand.
proof fn lemma_sort_effs_of_sorted(s: Seq<EffortModel>)
    requires
        forall|i: int, j: int|
            0 <= i < j < s.len() ==> (#[trigger] s[i]).span.start <= (#[trigger] s[j]).span.start,
    ensures
        sort_effs(s) =~= s,
    decreases s.len(),
{
    if s.len() > 0 {
        let dl = s.drop_last();
        assert forall|i: int, j: int| 0 <= i < j < dl.len() implies (#[trigger] dl[i]).span.start
            <= (#[trigger] dl[j]).span.start by {
            assert(dl[i] == s[i] && dl[j] == s[j]);
        }
        lemma_sort_effs_of_sorted(dl);
        if dl.len() > 0 {
            assert(s[dl.len() - 1].span.start <= s[s.len() - 1].span.start);
            assert(!(s.last().span.start < sort_effs(dl).last().span.start));
        }
        assert(sort_effs(s) == sort_effs(dl).push(s.last()));
        assert(dl.push(s.last()) =~= s);
    }
}

/// Law: for a day whose real spans stand in start order, lie apart and
/// inside the working window, the distribution is a complete, gap-free
/// partition of the window: it starts at the window's start, each span
/// ends exactly where the next begins, and the last span ends at the
/// window's end.
pub proof fn lemma_distribution_partitions_window(day: int, s: Seq<EffortModel>)
    requires
        non_overlapping(s),
        within_window(day, s),
    ensures
        day_distribution(day, s).len() > 0,
        day_distribution(day, s)[0].span.start == window_start(day),
        day_distribution(day, s).last().span.end == window_end(day),
        forall|k: int|
            0 <= k < day_distribution(day, s).len() - 1 ==> (#[trigger] day_distribution(
                day,
                s,
            )[k]).span.end == day_distribution(day, s)[k + 1].span.start,
{
    assert forall|i: int, j: int| 0 <= i < j < s.len() implies (#[trigger] s[i]).span.start <= (
    #[trigger] s[j]).span.start by {
        assert(s[i].span.end <= s[j].span.start);
    }
    lemma_sort_effs_of_sorted(s);
    lemma_fill_idle_tiles(day, s, window_start(day));
}


/// The report view a selector string names.
#[derive(Clone, Copy, Debug, PartialEq, Eq, Structural)]
pub enum ViewKind {
    DailySummary,
    EntryDetail,
    DailyDistribution,
    DailyDetail,
}

/// Maps a view-type selector to its view kind: `"daily"` names the
/// daily summary, `"detail"` the per-title detail, `"dist"` the daily
/// distribution, and anything else falls back to the daily detail.
pub fn view_kind_of(selector: &str) -> (r: ViewKind)
    ensures
        selector@ == "daily"@ ==> r == ViewKind::DailySummary,
        selector@ == "detail"@ ==> r == ViewKind::EntryDetail,
        selector@ == "dist"@ ==> r == ViewKind::DailyDistribution,
        selector@ != "daily"@ && selector@ != "detail"@ && selector@ != "dist"@ ==> r
            == ViewKind::DailyDetail,
{
    proof {
        reveal_strlit("daily");
        reveal_strlit("detail");
        reveal_strlit("dist");
        assert("daily"@.len() == 5);
        assert("detail"@.len() == 6);
        assert("dist"@.len() == 4);
        assert("daily"@ != "detail"@ && "daily"@ != "dist"@ && "detail"@ != "dist"@);
    }
    let s: String = selector.to_owned();
    if s == "daily".to_owned() {
        ViewKind::DailySummary
    } else if s == "detail".to_owned() {
        ViewKind::EntryDetail
    } else if s == "dist".to_owned() {
        ViewKind::DailyDistribution
    } else {
        ViewKind::DailyDetail
    }
}


} // verus!
