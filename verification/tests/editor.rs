use chrono::NaiveDateTime;
use sequin_core::editor::{parse_write_inputs, step_photo, History, Sel, UNDO_CAP};

#[test]
fn step_photo_walks_across_group_boundaries() {
    let counts = [2, 1];
    assert_eq!(step_photo(&counts, 0, 0, true), Some(Sel::Photo(0, 1)));
    assert_eq!(step_photo(&counts, 0, 1, true), Some(Sel::Photo(1, 0)));
    assert_eq!(step_photo(&counts, 1, 0, true), None);
    assert_eq!(step_photo(&counts, 1, 0, false), Some(Sel::Photo(0, 1)));
    assert_eq!(step_photo(&counts, 0, 1, false), Some(Sel::Photo(0, 0)));
    assert_eq!(step_photo(&counts, 0, 0, false), None);
}

fn secs(text: &str) -> i64 {
    NaiveDateTime::parse_from_str(text, "%Y-%m-%d %H:%M:%S")
        .unwrap()
        .and_utc()
        .timestamp()
}

#[test]
fn parse_write_inputs_accepts_valid_forms() {
    let (start, spacing) = parse_write_inputs("2026-07-18", "10:00", "60", "10").unwrap();
    assert_eq!(start.secs, secs("2026-07-18 10:00:00"));
    assert!(!start.leap);
    assert_eq!(spacing.between_groups_secs, 60);
    assert_eq!(spacing.within_group_secs, 10);
    // Seconds in the time input and whitespace around gaps are accepted.
    let (start, _) = parse_write_inputs("2026-07-18", "10:00:30", " 60 ", "10").unwrap();
    assert_eq!(start.secs, secs("2026-07-18 10:00:30"));
}

#[test]
fn parse_write_inputs_rejects_invalid_forms() {
    for (date, time, gg, gw) in [
        ("", "10:00", "60", "10"),              // empty date
        ("2026-13-01", "10:00", "60", "10"),    // impossible date
        ("2026-07-18", "25:00", "60", "10"),    // impossible time
        ("2026-07-18", "10:00", "0", "10"),     // gap below 1s
        ("2026-07-18", "10:00", "60", "86401"), // gap above a day
        ("2026-07-18", "10:00", "sixty", "10"), // non-numeric gap
    ] {
        assert!(
            parse_write_inputs(date, time, gg, gw).is_none(),
            "should reject {date} {time} {gg} {gw}"
        );
    }
}

#[test]
fn undo_then_redo_restores_each_state() {
    let mut h: History<u32> = History::new();
    h.record(1); // state 1 -> 2
    h.record(2); // state 2 -> 3
    assert_eq!(h.undo(3), Some(2));
    assert_eq!(h.undo(2), Some(1));
    assert_eq!(h.undo(1), None);
    assert_eq!(h.redo(1), Some(2));
    assert_eq!(h.redo(2), Some(3));
    assert_eq!(h.redo(3), None);
    // A new edit clears the redo stack.
    assert_eq!(h.undo(3), Some(2));
    h.record(2);
    assert_eq!(h.redo_len(), 0);
}

#[test]
fn undo_history_is_capped() {
    let mut h: History<usize> = History::new();
    for i in 0..(UNDO_CAP + 5) {
        h.record(i);
    }
    assert_eq!(h.undo_len(), UNDO_CAP);
    // The oldest steps dropped out.
    let mut last = None;
    let mut cur = UNDO_CAP + 5;
    while let Some(prev) = h.undo(cur) {
        last = Some(prev);
        cur = prev;
    }
    assert_eq!(last, Some(5));
}

#[test]
fn a_leap_second_start_is_kept() {
    let (start, _) = parse_write_inputs("2016-12-31", "23:59:60", "60", "10").unwrap();
    assert_eq!(start.secs, secs("2016-12-31 23:59:59"));
    assert!(start.leap);
    // Signs and surrounding white space in the gaps.
    assert!(parse_write_inputs("2026-07-18", "10:00", "+60", "\t10\n").is_some());
    assert!(parse_write_inputs("2026-07-18", "10:00", "-60", "10").is_none());
}
