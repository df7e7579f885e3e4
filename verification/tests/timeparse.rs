use clocking::errors::Error;
use clocking::select::{choose_title, handle_title};
use clocking::query::query_start_end;
use clocking::store::ClockingStore;
use clocking::time::{
    civil_from_days, days_from_civil, local_day_of, local_secs_of, parse_date_str, parse_usize,
    strify_duration,
};

#[test]
fn duration_formatting_rule() {
    assert_eq!(strify_duration(0), "0:00");
    assert_eq!(strify_duration(5), "0:05");
    assert_eq!(strify_duration(59), "0:59");
    assert_eq!(strify_duration(60), "1:00");
    assert_eq!(strify_duration(61), "1:01");
    assert_eq!(strify_duration(615), "10:15");
    assert_eq!(strify_duration(1439), "23:59");
    assert_eq!(strify_duration(1440), "1:00:00");
    assert_eq!(strify_duration(1624), "1:03:04");
    assert_eq!(strify_duration(30 * 1440 + 2 * 60 + 7), "30:02:07");
}

#[test]
fn civil_calendar_round_trips() {
    assert_eq!(days_from_civil(1970, 1, 1), 0);
    assert_eq!(days_from_civil(1970, 1, 2), 1);
    assert_eq!(days_from_civil(1971, 1, 1), 365);
    // leap day
    assert_eq!(civil_from_days(days_from_civil(2024, 2, 29)), (2024, 2, 29));
    assert_eq!(civil_from_days(days_from_civil(2000, 3, 1)), (2000, 3, 1));
    assert_eq!(civil_from_days(19631), (2023, 10, 1));
}

#[test]
fn date_strings_parse_or_are_rejected() {
    assert_eq!(parse_date_str("2023-10-01"), Some((2023, 10, 1)));
    assert_eq!(parse_date_str("2024-02-29"), Some((2024, 2, 29)));
    assert_eq!(parse_date_str("2023-02-29"), None);
    assert_eq!(parse_date_str("2023-13-01"), None);
    assert_eq!(parse_date_str("2023-00-10"), None);
    assert_eq!(parse_date_str("23-10-01"), None);
    assert_eq!(parse_date_str("2023/10/01"), None);
    assert_eq!(parse_date_str("not a date"), None);
    assert_eq!(parse_date_str(""), None);
}

#[test]
fn local_day_respects_offset() {
    assert_eq!(local_day_of(0, 0), 0);
    assert_eq!(local_day_of(86399, 0), 0);
    assert_eq!(local_day_of(86400, 0), 1);
    // a negative offset pulls the instant into the previous local day
    assert_eq!(local_day_of(3600, -7200), -1);
    assert_eq!(local_secs_of(3600, -7200), 82800);
}

#[test]
fn date_range_queries_validate_their_input() {
    let store = ClockingStore::new();
    match store.finished_by_date_str("oops", "2023-10-02") {
        Err(Error::InvalidInput(m)) => assert_eq!(m, "Invalid format of day_start"),
        other => panic!("expected InvalidInput, got {:?}", other),
    }
    match store.finished_by_date_str("2023-10-01", "oops") {
        Err(Error::InvalidInput(m)) => assert_eq!(m, "Invalid format of day_end"),
        other => panic!("expected InvalidInput, got {:?}", other),
    }
    match store.finished_by_date_str("2023-10-02", "2023-10-01") {
        Err(Error::InvalidInput(m)) => {
            assert_eq!(m, "Invalid date range: day_end must not before day_start")
        }
        other => panic!("expected InvalidInput, got {:?}", other),
    }
    // a well-formed range on an empty store finds nothing
    assert_eq!(
        store
            .finished_by_date_str("2023-10-01", "2023-10-02")
            .unwrap()
            .len(),
        0
    );
    assert_eq!(store.finished_by_offset(0, Some(1)).unwrap().len(), 0);
}

#[test]
fn titles_are_chosen_like_the_prompt_does() {
    assert_eq!(handle_title(Some("Work".to_string())), Ok("Work".to_string()));
    assert_eq!(handle_title(Some("".to_string())), Err("Empty title".to_string()));
    assert_eq!(handle_title(None), Err("Empty title".to_string()));

    let recents = vec!["One".to_string(), "Two".to_string()];
    let none: Vec<String> = Vec::new();
    assert_eq!(choose_title("", &recents), Ok("One".to_string()));
    assert_eq!(choose_title("2", &recents), Ok("Two".to_string()));
    assert_eq!(choose_title("3", &recents), Err("Invalid index: 3.".to_string()));
    assert_eq!(
        choose_title("abc", &recents),
        Err("Invalid input: not a number.".to_string())
    );
    assert_eq!(choose_title("Typed", &none), Ok("Typed".to_string()));
    assert_eq!(
        choose_title("", &none),
        Err("Title cannot be empty.".to_string())
    );
}

#[test]
fn plain_numbers_parse_exactly() {
    assert_eq!(parse_usize("0"), Some(0));
    assert_eq!(parse_usize("42"), Some(42));
    assert_eq!(parse_usize("007"), Some(7));
    assert_eq!(parse_usize(""), None);
    assert_eq!(parse_usize("4x"), None);
    assert_eq!(parse_usize("99999999999999999999999999"), None);
}

#[test]
fn zero_offset_resolves_to_today_from_midnight() {
    // days_offset = 0 and no span: the range starts at today's local
    // midnight and stays open, meaning "up to now"
    let now: i64 = 3 * 86400 + 5000;
    let (start, end) = query_start_end(0, None, now, 0);
    assert_eq!(start, 3 * 86400);
    assert_eq!(end, None);
    // an eastern offset moves local midnight earlier in UTC
    let (start, end) = query_start_end(0, None, now, 3600);
    assert_eq!(start, 3 * 86400 - 3600);
    assert_eq!(end, None);
    // a one-day span ends at the following midnight
    let (start, end) = query_start_end(1, Some(1), now, 0);
    assert_eq!(start, 2 * 86400);
    assert_eq!(end, Some(3 * 86400));
}
