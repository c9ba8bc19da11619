use chrono::NaiveDateTime;
use sequin_core::timeline::{assign_times, try_assign_times, try_assign_times_at, Instant, Spacing};
use sequin_core::{Arrangement, Group, Photo};

fn photo(name: &str) -> Photo {
    Photo {
        path: name.to_string(),
        hash_full: String::new(),
        hash_cropped: String::new(),
        border_fraction_bits: 0.0f32.to_bits(),
        width: 0,
        height: 0,
    }
}

fn secs(text: &str) -> i64 {
    NaiveDateTime::parse_from_str(text, "%Y-%m-%d %H:%M:%S")
        .unwrap()
        .and_utc()
        .timestamp()
}

#[test]
fn times_are_sequential_and_spaced() {
    let arr = Arrangement {
        groups: vec![
            Group {
                photos: vec![photo("a"), photo("b")],
            },
            Group {
                photos: vec![photo("c")],
            },
        ],
    };
    let start = secs("2026-07-18 10:00:00");
    let timed = assign_times(&arr, start, Spacing::default());
    let stamps: Vec<&str> = timed.iter().map(|t| t.exif_datetime.as_str()).collect();
    assert_eq!(
        stamps,
        vec![
            "2026:07:18 10:00:00", // group 1, photo 1
            "2026:07:18 10:00:10", // group 1, photo 2 (+10s)
            "2026:07:18 10:01:10", // group 2 starts +60s after last photo
        ]
    );
    let paths: Vec<&str> = timed.iter().map(|t| t.path.as_str()).collect();
    assert_eq!(paths, ["a", "b", "c"]);
}

#[test]
fn custom_spacing_and_day_rollover() {
    let arr = Arrangement {
        groups: vec![
            Group {
                photos: vec![photo("a")],
            },
            Group {
                photos: vec![photo("b"), photo("c")],
            },
        ],
    };
    let spacing = Spacing {
        between_groups_secs: 3600,
        within_group_secs: 1,
    };
    let timed = assign_times(&arr, secs("2026-12-31 23:00:00"), spacing);
    let stamps: Vec<&str> = timed.iter().map(|t| t.exif_datetime.as_str()).collect();
    assert_eq!(
        stamps,
        ["2026:12:31 23:00:00", "2027:01:01 00:00:00", "2027:01:01 00:00:01"]
    );
}

#[test]
fn empty_arrangement_gets_no_times() {
    let arr = Arrangement { groups: vec![] };
    assert!(assign_times(&arr, secs("2026-07-18 10:00:00"), Spacing::default()).is_empty());
}

#[test]
fn out_of_range_instants_are_refused() {
    let arr = Arrangement {
        groups: vec![Group {
            photos: vec![photo("a"), photo("b")],
        }],
    };
    assert!(try_assign_times(&arr, i64::MAX, Spacing::default()).is_none());
    let huge = Spacing {
        between_groups_secs: 60,
        within_group_secs: i64::MAX,
    };
    assert!(try_assign_times(&arr, 0, huge).is_none());
    let ok = try_assign_times(&arr, 0, Spacing::default()).unwrap();
    assert_eq!(ok[1].exif_datetime, "1970:01:01 00:00:10");
}

#[test]
fn default_spacing_is_a_minute_and_ten_seconds() {
    let s = Spacing::default();
    assert_eq!(s.between_groups_secs, 60);
    assert_eq!(s.within_group_secs, 10);
}

#[test]
fn times_increase_in_arrangement_order() {
    let arr = Arrangement {
        groups: vec![
            Group {
                photos: vec![photo("a"), photo("b"), photo("c")],
            },
            Group {
                photos: vec![photo("d")],
            },
            Group {
                photos: vec![photo("e"), photo("f")],
            },
        ],
    };
    // A gap between groups shorter than the step within a group still
    // keeps the order.
    let spacing = Spacing {
        between_groups_secs: 1,
        within_group_secs: 30,
    };
    let timed = assign_times(&arr, secs("2026-07-18 10:00:00"), spacing);
    let stamps: Vec<&str> = timed.iter().map(|t| t.exif_datetime.as_str()).collect();
    assert_eq!(
        stamps,
        [
            "2026:07:18 10:00:00",
            "2026:07:18 10:00:30",
            "2026:07:18 10:01:00",
            "2026:07:18 10:01:01",
            "2026:07:18 10:01:02",
            "2026:07:18 10:01:32",
        ]
    );
    assert!(stamps.windows(2).all(|w| w[0] < w[1]));
}

fn stamps_from(arr: &Arrangement, start: Instant, spacing: Spacing) -> Vec<String> {
    try_assign_times_at(arr, start, spacing)
        .unwrap()
        .into_iter()
        .map(|t| t.exif_datetime)
        .collect()
}

#[test]
fn a_walk_from_a_leap_second_stays_on_it_until_the_clock_moves() {
    let arr = Arrangement {
        groups: vec![
            Group { photos: vec![photo("a"), photo("b")] },
            Group { photos: vec![photo("c")] },
        ],
    };
    let leap = Instant { secs: secs("2016-12-31 23:59:59"), leap: true };
    assert_eq!(
        stamps_from(&arr, leap, Spacing::default()),
        ["2016:12:31 23:59:60", "2017:01:01 00:00:09", "2017:01:01 00:01:09"]
    );
    // Steps of zero keep the leap second; the first real step leaves it.
    let still = Spacing { between_groups_secs: 60, within_group_secs: 0 };
    assert_eq!(
        stamps_from(&arr, leap, still),
        ["2016:12:31 23:59:60", "2016:12:31 23:59:60", "2017:01:01 00:00:59"]
    );
    // A step back leaves from the minute after the leap second.
    let back = Spacing { between_groups_secs: 0, within_group_secs: -5 };
    assert_eq!(
        stamps_from(&arr, leap, back),
        ["2016:12:31 23:59:60", "2016:12:31 23:59:55", "2016:12:31 23:59:55"]
    );
    // From a whole second nothing changes.
    let whole = Instant { secs: secs("2026-07-18 10:00:00"), leap: false };
    assert_eq!(
        stamps_from(&arr, whole, Spacing::default()),
        ["2026:07:18 10:00:00", "2026:07:18 10:00:10", "2026:07:18 10:01:10"]
    );
}
