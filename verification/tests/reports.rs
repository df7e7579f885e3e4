use clocking::store::ClockingStore;
use clocking::time::days_from_civil;
use clocking::types::{EntryId, FinishedEntry, UnfinishedEntry};
use clocking::views::{
    fill_day, view_kind_of, DailyDetailView, DailyDistributionView, DailySummaryView,
    EntryDetailView, ViewKind,
};

fn finished(title: &str, start: i64, end: i64, notes: &str) -> FinishedEntry {
    FinishedEntry {
        id: EntryId {
            title: title.to_string(),
            start,
        },
        end,
        notes: notes.to_string(),
    }
}

#[test]
fn writing_scenario() {
    // one entry ("Writing", start=T, end=T+5m, notes="draft")
    let day = days_from_civil(2023, 10, 1);
    let t = day * 86400 + 10 * 3600;
    let mut store = ClockingStore::new();
    let entry = UnfinishedEntry {
        id: EntryId {
            title: "Writing".to_string(),
            start: t,
        },
        notes: "draft".to_string(),
    };
    assert!(store.start_entry(&entry).is_ok());
    assert_eq!(store.try_finish_entry(&entry.id, t + 5 * 60, ""), Ok(true));

    // querying [T, T+1h] returns exactly that one value
    let found = store.finished(t, Some(t + 3600)).unwrap();
    assert_eq!(found.len(), 1);
    assert_eq!(found[0], finished("Writing", t, t + 5 * 60, "draft"));

    // recent_titles(5) returns ["Writing"]
    assert_eq!(store.recent_titles(5).unwrap(), vec!["Writing".to_string()]);

    // the daily summary renders "<date>: 0:05"
    let view = DailySummaryView::new(&found, 0);
    assert_eq!(view.render(), "2023-10-01: 0:05\n");
}

#[test]
fn distribution_fills_idle_gaps() {
    // two finished entries on one day: A 08:00-09:00 and B 10:00-10:30,
    // window 08:00-21:00
    let day = days_from_civil(2023, 10, 2);
    let base = day * 86400;
    let entries = vec![
        finished("A", base + 8 * 3600, base + 9 * 3600, ""),
        finished("B", base + 10 * 3600, base + 10 * 3600 + 30 * 60, ""),
    ];
    let view = DailyDistributionView::new(&entries, 0);
    assert_eq!(view.days.len(), 1);
    let spans = &view.days[0].spans;
    assert_eq!(spans.len(), 4);

    assert_eq!(spans[0].title, "A");
    assert_eq!(spans[0].span.start(), base + 8 * 3600);
    assert_eq!(spans[0].span.end(), base + 9 * 3600);

    assert_eq!(spans[1].title, "<idle>");
    assert_eq!(spans[1].span.start(), base + 9 * 3600);
    assert_eq!(spans[1].span.end(), base + 10 * 3600);

    assert_eq!(spans[2].title, "B");
    assert_eq!(spans[2].span.start(), base + 10 * 3600);
    assert_eq!(spans[2].span.end(), base + 10 * 3600 + 30 * 60);

    assert_eq!(spans[3].title, "<idle>");
    assert_eq!(spans[3].span.start(), base + 10 * 3600 + 30 * 60);
    assert_eq!(spans[3].span.end(), base + 21 * 3600);

    assert_eq!(
        view.render(false),
        "2023-10-02: \n\
         \t08:00 ~ 09:00, 1:00: A\n\
         \t09:00 ~ 10:00, 1:00: <idle>\n\
         \t10:00 ~ 10:30, 0:30: B\n\
         \t10:30 ~ 21:00, 10:30: <idle>\n"
    );
}

#[test]
fn distribution_sorts_spans_within_a_day() {
    let day = days_from_civil(2023, 10, 3);
    let base = day * 86400;
    // handed out of order: the later entry first
    let entries = vec![
        finished("Late", base + 12 * 3600, base + 13 * 3600, ""),
        finished("Early", base + 9 * 3600, base + 10 * 3600, ""),
    ];
    let view = DailyDistributionView::new(&entries, 0);
    let spans = &view.days[0].spans;
    let titles: Vec<&str> = spans.iter().map(|e| e.title.as_str()).collect();
    assert_eq!(titles, vec!["<idle>", "Early", "<idle>", "Late", "<idle>"]);
}

#[test]
fn daily_summary_sums_per_date_and_in_total() {
    let d1 = days_from_civil(2023, 10, 1) * 86400;
    let d2 = days_from_civil(2023, 10, 2) * 86400;
    let entries = vec![
        finished("A", d1 + 3600, d1 + 3600 + 300, ""),
        finished("B", d1 + 7200, d1 + 7200 + 600, ""),
        finished("C", d2 + 3600, d2 + 3600 + 1800, ""),
    ];
    let view = DailySummaryView::new(&entries, 0);
    assert_eq!(view.days.len(), 2);
    assert_eq!(view.days[0].total, 900);
    assert_eq!(view.days[1].total, 1800);
    // the grand total equals the sum of the per-date subtotals
    let subtotal_sum: i128 = view.days.iter().map(|d| d.total).sum();
    assert_eq!(subtotal_sum, 2700);
    assert_eq!(
        view.render(),
        "2023-10-01: 0:15\n2023-10-02: 0:30\n(Total): 0:45\n"
    );
}

#[test]
fn entry_detail_groups_by_title() {
    let d1 = days_from_civil(2023, 10, 1) * 86400;
    let entries = vec![
        finished("A", d1 + 3600, d1 + 3600 + 300, ""),
        finished("B", d1 + 7200, d1 + 7200 + 600, ""),
        finished("A", d1 + 9000, d1 + 9000 + 300, ""),
    ];
    let view = EntryDetailView::new(&entries, 0);
    assert_eq!(view.groups.len(), 2);
    assert_eq!(view.groups[0].title, "A");
    assert_eq!(view.groups[0].spans.len(), 2);
    assert_eq!(view.groups[1].title, "B");
    assert_eq!(view.groups[1].spans.len(), 1);
    let text = view.render();
    assert!(text.contains("A:\n"));
    assert!(text.contains("\t(Total): 0:10\n"));
}

#[test]
fn daily_detail_groups_by_date_then_title() {
    let d1 = days_from_civil(2023, 10, 1) * 86400;
    let d2 = days_from_civil(2023, 10, 2) * 86400;
    let entries = vec![
        finished("A", d1 + 3600, d1 + 3600 + 300, ""),
        finished("A", d1 + 7200, d1 + 7200 + 300, ""),
        finished("B", d2 + 3600, d2 + 3600 + 600, ""),
    ];
    let view = DailyDetailView::new(&entries, 0);
    assert_eq!(view.days.len(), 2);
    assert_eq!(view.days[0].titles.len(), 1);
    assert_eq!(view.days[0].titles[0].title, "A");
    assert_eq!(view.days[0].titles[0].total, 600);
    assert_eq!(
        view.render(),
        "2023-10-01: \n\tA: 0:10\n\t(Total): 0:10\n\n\
         2023-10-02: \n\tB: 0:10\n\t(Total): 0:10\n\n\
         (Total): 0:20\n"
    );
}

#[test]
fn views_honor_the_local_offset() {
    // 23:30 UTC on Oct 1 falls on Oct 2 at +01:00
    let d1 = days_from_civil(2023, 10, 1) * 86400;
    let start = d1 + 23 * 3600 + 30 * 60;
    let entries = vec![finished("A", start, start + 600, "")];
    let view = DailySummaryView::new(&entries, 3600);
    assert_eq!(view.days.len(), 1);
    assert_eq!(view.days[0].date, (2023, 10, 2));
}

#[test]
fn entry_render_and_html() {
    let day = days_from_civil(2023, 10, 1);
    // 2023-10-01 was a Sunday
    let t = day * 86400 + 8 * 3600;
    let entry = finished("Writing", t, t + 3600, "line one\nline two");
    assert_eq!(
        entry.render(0),
        "Writing:\n\
         \t2023-10-01 Sun 08:00 ~ 2023-10-01 Sun 09:00\n\
         \tNotes:\n\
         \t  line one\n\
         \t  line two\n"
    );
    let html = entry.html_segment(0);
    assert!(html.contains("<h2>"));
    assert!(html.contains("Writing"));

    let open = UnfinishedEntry {
        id: EntryId {
            title: "Open".to_string(),
            start: t,
        },
        notes: "".to_string(),
    };
    assert_eq!(
        open.render(0),
        "Open:\n\tStarted at: 2023-10-01 Sun 08:00\n"
    );
    assert_eq!(open.started_minutes(t + 150), 2);
}

#[test]
fn empty_day_distribution_is_one_idle_window() {
    let day = days_from_civil(2023, 10, 4);
    let filled = fill_day(day, Vec::new());
    assert_eq!(filled.len(), 1);
    assert_eq!(filled[0].title, "<idle>");
    assert_eq!(filled[0].span.start(), day * 86400 + 8 * 3600);
    assert_eq!(filled[0].span.end(), day * 86400 + 21 * 3600);
}

#[test]
fn view_selector_mapping() {
    assert_eq!(view_kind_of("daily"), ViewKind::DailySummary);
    assert_eq!(view_kind_of("detail"), ViewKind::EntryDetail);
    assert_eq!(view_kind_of("dist"), ViewKind::DailyDistribution);
    assert_eq!(view_kind_of(""), ViewKind::DailyDetail);
    assert_eq!(view_kind_of("anything"), ViewKind::DailyDetail);
}
