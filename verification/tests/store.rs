use clocking::errors::Error;
use clocking::store::{ClockingStore, Row};
use clocking::types::{EntryId, FinishedEntry, UnfinishedEntry};

#[test]
fn sqlite_store_basic_workflow() {
    let mut mem_store = ClockingStore::new();
    let start_time: i64 = 1_696_150_800;
    let entry = UnfinishedEntry {
        id: EntryId {
            title: "The Program".to_string(),
            start: start_time,
        },
        notes: "".to_string(),
    };

    assert!(mem_store.start_entry(&entry).is_ok());
    // add again
    assert_eq!(
        mem_store.start_entry(&entry),
        Err(Error::DuplicateEntry),
        "Adding the same item twice should fail."
    );

    let finished_entries = mem_store.finished(start_time, None);
    assert_eq!(
        finished_entries.unwrap().len(),
        0,
        "Unfinished entries should not included in query."
    );

    let end = start_time + 72;
    let note = "A note";
    assert_eq!(mem_store.try_finish_entry(&entry.id, end, note), Ok(true));
    //finish again
    assert_eq!(
        mem_store.try_finish_entry(&entry.id, end, note),
        Ok(false),
        "call try_finish_entry on finished entry should fail"
    );

    let finished_entries = mem_store.finished(start_time, None);
    assert!(finished_entries.is_ok());
    let finished_entries = finished_entries.unwrap();
    assert_eq!(finished_entries.len(), 1);

    let finished_entry = FinishedEntry {
        id: entry.id,
        end,
        notes: note.to_string(),
    };

    assert_eq!(&finished_entries[0], &finished_entry);
}

#[test]
fn start_while_unfinished_exists() {
    let mut mem_store = ClockingStore::new();
    // item0
    let entries = gen_entries(1);
    assert!(mem_store.start_entry(&entries[0]).is_ok());

    // try start new one
    let entry = UnfinishedEntry {
        id: EntryId {
            title: "New but shouldn't start".to_string(),
            start: 1_696_150_800,
        },
        notes: "".to_string(),
    };

    let exist_title = entries[0].id.title.to_string();
    assert_eq!(
        mem_store.start_entry(&entry),
        Err(Error::UnfinishedExists(exist_title))
    );
}

fn gen_entries(count: usize) -> Vec<UnfinishedEntry> {
    let five_mins: i64 = 5 * 60;
    let base: i64 = 1_696_000_000;
    (0..count)
        .map(|i| {
            let start_offset = ((count - i - 1) as i64) * 86400 + five_mins;
            UnfinishedEntry {
                id: EntryId {
                    title: format!("Item {i}"),
                    start: base - start_offset,
                },
                notes: format!("Init notes for item {i}\n"),
            }
        })
        .collect()
}

#[test]
fn unfinished_blocks_until_finished() {
    let mut store = ClockingStore::new();
    let first = UnfinishedEntry {
        id: EntryId {
            title: "First".to_string(),
            start: 1000,
        },
        notes: "".to_string(),
    };
    assert!(store.start_entry(&first).is_ok());
    // any further start fails, whatever the title
    let second = UnfinishedEntry {
        id: EntryId {
            title: "Second".to_string(),
            start: 2000,
        },
        notes: "".to_string(),
    };
    assert_eq!(
        store.start_entry(&second),
        Err(Error::UnfinishedExists("First".to_string()))
    );
    // after finishing, the same start succeeds
    assert_eq!(store.try_finish_entry(&first.id, 1500, ""), Ok(true));
    assert!(store.start_entry(&second).is_ok());
}

#[test]
fn finish_exact_is_idempotent_and_safe() {
    let mut store = ClockingStore::new();
    let ghost_id = EntryId {
        title: "Never started".to_string(),
        start: 42,
    };
    // finishing a nonexistent id is a reported no-op, not an error
    assert_eq!(store.try_finish_entry(&ghost_id, 100, ""), Ok(false));
    assert_eq!(store.try_finish_entry(&ghost_id, 100, ""), Ok(false));

    let entry = UnfinishedEntry {
        id: EntryId {
            title: "Real".to_string(),
            start: 10,
        },
        notes: "".to_string(),
    };
    assert!(store.start_entry(&entry).is_ok());
    // an end before the start cannot finish the entry
    assert_eq!(store.try_finish_entry(&entry.id, 5, ""), Ok(false));
    assert_eq!(store.try_finish_entry(&entry.id, 20, ""), Ok(true));
    // double-finish stays a no-op
    assert_eq!(store.try_finish_entry(&entry.id, 30, ""), Ok(false));
}

#[test]
fn finish_appends_notes() {
    let mut store = ClockingStore::new();
    let entry = UnfinishedEntry {
        id: EntryId {
            title: "Notes".to_string(),
            start: 100,
        },
        notes: "before".to_string(),
    };
    assert!(store.start_entry(&entry).is_ok());
    assert_eq!(store.try_finish_entry(&entry.id, 200, " after"), Ok(true));
    let found = store.finished(0, Some(1000)).unwrap();
    assert_eq!(found.len(), 1);
    assert_eq!(found[0].notes, "before after");
}

#[test]
fn try_finish_any_picks_the_unfinished_entry() {
    let mut store = ClockingStore::new();
    assert_eq!(store.try_finish_any(500, ""), Ok(None));
    let entry = UnfinishedEntry {
        id: EntryId {
            title: "Only".to_string(),
            start: 100,
        },
        notes: "".to_string(),
    };
    assert!(store.start_entry(&entry).is_ok());
    assert_eq!(store.try_finish_any(500, ""), Ok(Some("Only".to_string())));
    assert_eq!(store.try_finish_any(600, ""), Ok(None));
}

#[test]
fn try_finish_title_scopes_by_title() {
    let mut store = ClockingStore::new();
    let entry = UnfinishedEntry {
        id: EntryId {
            title: "Mine".to_string(),
            start: 100,
        },
        notes: "".to_string(),
    };
    assert!(store.start_entry(&entry).is_ok());
    assert_eq!(store.try_finish_title("Other", 500, ""), Ok(false));
    assert_eq!(store.try_finish_title("Mine", 500, ""), Ok(true));
    assert_eq!(store.try_finish_title("Mine", 600, ""), Ok(false));
}

#[test]
fn empty_title_is_rejected_before_storage() {
    let mut store = ClockingStore::new();
    let entry = UnfinishedEntry {
        id: EntryId {
            title: "".to_string(),
            start: 100,
        },
        notes: "".to_string(),
    };
    match store.start_entry(&entry) {
        Err(Error::InvalidInput(_)) => {}
        other => panic!("expected InvalidInput, got {:?}", other),
    }
}

#[test]
fn round_trip_preserves_all_fields() {
    let mut store = ClockingStore::new();
    let entry = UnfinishedEntry {
        id: EntryId {
            title: "Writing".to_string(),
            start: 5_000,
        },
        notes: "draft".to_string(),
    };
    assert!(store.start_entry(&entry).is_ok());
    assert_eq!(store.try_finish_entry(&entry.id, 5_300, ""), Ok(true));
    // a range query covering the span returns the very value written
    let found = store.finished(5_000, Some(10_000)).unwrap();
    assert_eq!(found.len(), 1);
    assert_eq!(found[0].id.title, "Writing");
    assert_eq!(found[0].id.start, 5_000);
    assert_eq!(found[0].end, 5_300);
    assert_eq!(found[0].notes, "draft");
}

#[test]
fn finished_is_sorted_by_start() {
    let mut store = ClockingStore::new();
    for (title, start) in [("B", 3000i64), ("A", 1000), ("C", 2000)] {
        let entry = UnfinishedEntry {
            id: EntryId {
                title: title.to_string(),
                start,
            },
            notes: "".to_string(),
        };
        assert!(store.start_entry(&entry).is_ok());
        assert_eq!(store.try_finish_entry(&entry.id, start + 10, ""), Ok(true));
    }
    let found = store.finished(0, Some(10_000)).unwrap();
    let titles: Vec<&str> = found.iter().map(|e| e.id.title.as_str()).collect();
    assert_eq!(titles, vec!["A", "C", "B"]);
}

#[test]
fn finished_respects_range_bounds() {
    let mut store = ClockingStore::new();
    for (title, start) in [("A", 1000i64), ("B", 2000), ("C", 3000)] {
        let entry = UnfinishedEntry {
            id: EntryId {
                title: title.to_string(),
                start,
            },
            notes: "".to_string(),
        };
        assert!(store.start_entry(&entry).is_ok());
        assert_eq!(store.try_finish_entry(&entry.id, start + 100, ""), Ok(true));
    }
    // start bound is inclusive on start, end bound inclusive on end
    let found = store.finished(2000, Some(2100)).unwrap();
    assert_eq!(found.len(), 1);
    assert_eq!(found[0].id.title, "B");
}

#[test]
fn recent_titles_latest_first_and_distinct() {
    let mut store = ClockingStore::new();
    for (title, start) in [("Alpha", 100i64), ("Beta", 300), ("Alpha", 500)] {
        let entry = UnfinishedEntry {
            id: EntryId {
                title: title.to_string(),
                start,
            },
            notes: "".to_string(),
        };
        assert!(store.start_entry(&entry).is_ok());
        assert_eq!(store.try_finish_entry(&entry.id, start + 10, ""), Ok(true));
    }
    assert_eq!(
        store.recent_titles(5).unwrap(),
        vec!["Alpha".to_string(), "Beta".to_string()]
    );
    assert_eq!(store.recent_titles(1).unwrap(), vec!["Alpha".to_string()]);
    // an unfinished entry's title never shows up in suggestions
    let pending = UnfinishedEntry {
        id: EntryId {
            title: "Pending".to_string(),
            start: 900,
        },
        notes: "".to_string(),
    };
    assert!(store.start_entry(&pending).is_ok());
    assert_eq!(
        store.recent_titles(5).unwrap(),
        vec!["Alpha".to_string(), "Beta".to_string()]
    );
}

#[test]
fn latest_finished_picks_most_recent_start() {
    let mut store = ClockingStore::new();
    for start in [100i64, 500, 300] {
        let entry = UnfinishedEntry {
            id: EntryId {
                title: "Same".to_string(),
                start,
            },
            notes: "".to_string(),
        };
        assert!(store.start_entry(&entry).is_ok());
        assert_eq!(store.try_finish_entry(&entry.id, start + 10, ""), Ok(true));
    }
    let latest = store.latest_finished("Same").unwrap().unwrap();
    assert_eq!(latest.id.start, 500);
    assert!(store.latest_finished("Unknown").unwrap().is_none());
}

#[test]
fn unfinished_lists_the_single_open_entry() {
    let mut store = ClockingStore::new();
    assert!(store.unfinished(10).unwrap().is_empty());
    let entry = UnfinishedEntry {
        id: EntryId {
            title: "Open".to_string(),
            start: 100,
        },
        notes: "n".to_string(),
    };
    assert!(store.start_entry(&entry).is_ok());
    let open = store.unfinished(10).unwrap();
    assert_eq!(open.len(), 1);
    assert_eq!(open[0], entry);
    assert!(store.unfinished(0).unwrap().is_empty());
}

#[test]
fn from_rows_checks_the_invariant() {
    let ok_rows = vec![
        Row {
            title: "A".to_string(),
            start: 100,
            end: Some(200),
            notes: "".to_string(),
        },
        Row {
            title: "B".to_string(),
            start: 300,
            end: None,
            notes: "".to_string(),
        },
    ];
    assert!(ClockingStore::from_rows(ok_rows).is_ok());

    let duplicate = vec![
        Row {
            title: "A".to_string(),
            start: 100,
            end: Some(200),
            notes: "".to_string(),
        },
        Row {
            title: "A".to_string(),
            start: 100,
            end: Some(300),
            notes: "".to_string(),
        },
    ];
    match ClockingStore::from_rows(duplicate) {
        Err(Error::ImpossibleState(_)) => {}
        other => panic!("expected ImpossibleState, got {:?}", other),
    }

    let two_open = vec![
        Row {
            title: "A".to_string(),
            start: 100,
            end: None,
            notes: "".to_string(),
        },
        Row {
            title: "B".to_string(),
            start: 300,
            end: None,
            notes: "".to_string(),
        },
    ];
    match ClockingStore::from_rows(two_open) {
        Err(Error::ImpossibleState(_)) => {}
        other => panic!("expected ImpossibleState, got {:?}", other),
    }

    let inverted = vec![Row {
        title: "A".to_string(),
        start: 400,
        end: Some(300),
        notes: "".to_string(),
    }];
    match ClockingStore::from_rows(inverted) {
        Err(Error::ImpossibleState(_)) => {}
        other => panic!("expected ImpossibleState, got {:?}", other),
    }
}

#[test]
fn row_decoding_round_trips_rfc3339() {
    // the decoder reads real RFC 3339 text; a decoder that handed the
    // text back unchanged could not produce these integers
    let entry = clocking::store::row_to_finished_entry(
        "T".to_string(),
        "1970-01-01T00:00:10+00:00",
        "1970-01-01T01:00:00+00:00",
        None,
    )
    .unwrap();
    assert_eq!(entry.id.start, 10);
    assert_eq!(entry.end, 3600);
    assert_eq!(entry.notes, "");

    let open = clocking::store::row_to_unfinished_entry(
        "T".to_string(),
        "2023-10-01T00:00:00+02:00",
        Some("n".to_string()),
    )
    .unwrap();
    assert_eq!(open.id.start, 1_696_111_200);
    assert_eq!(open.notes, "n");

    match clocking::store::row_to_finished_entry(
        "T".to_string(),
        "not a time",
        "1970-01-01T01:00:00+00:00",
        None,
    ) {
        Err(Error::ImpossibleState(_)) => {}
        other => panic!("expected ImpossibleState, got {:?}", other),
    }
    // a stored span that ends before it starts is corruption
    match clocking::store::row_to_finished_entry(
        "T".to_string(),
        "1970-01-01T01:00:00+00:00",
        "1970-01-01T00:00:10+00:00",
        None,
    ) {
        Err(Error::ImpossibleState(_)) => {}
        other => panic!("expected ImpossibleState, got {:?}", other),
    }
}

#[test]
fn error_messages_render() {
    assert_eq!(
        Error::DuplicateEntry.message(),
        "An entry with the same title and start already exists.\n"
    );
    assert_eq!(
        Error::UnfinishedExists("X".to_string()).message(),
        "Starting new entry is not allowed when there is unfinished entry: X\n"
    );
    assert_eq!(
        Error::InvalidInput("bad".to_string()).message(),
        "Input invalid: bad\n"
    );
}
