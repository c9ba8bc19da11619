use sequin_core::apply::{
    admit_copy, copy_target, default_start, output_dir_for, plan_write, tally_read_back,
    verification_sample, CopyRefusal, Destination, OutputNames, ReadBack,
};
use sequin_core::exif::{mentions_missing_exif, text_contains, trim_trailing_nul, write_all};
use sequin_core::paths::{has_extension, is_jpeg_path, is_photo_path, select_photo_paths};
use sequin_core::thumbs::{cache_dir_for, fnv1a, is_black_and_white, thumb_path, thumb_request_is_safe};
use sequin_core::timeline::TimedPhoto;

fn timed(path: &str) -> TimedPhoto {
    TimedPhoto {
        path: path.to_string(),
        exif_datetime: "2026:07:18 10:00:00".to_string(),
    }
}

#[test]
fn write_all_reports_failures_and_keeps_going() {
    let calls = std::cell::RefCell::new(Vec::new());
    let failures = write_all(&[timed("/d/missing.jpg"), timed("/d/good.jpg")], |t: &TimedPhoto| {
        calls.borrow_mut().push(t.path.clone());
        if t.path.ends_with("missing.jpg") {
            Err("no such file".to_string())
        } else {
            Ok(())
        }
    });
    assert_eq!(failures, vec![("/d/missing.jpg".to_string(), "no such file".to_string())]);
    assert_eq!(*calls.borrow(), ["/d/missing.jpg", "/d/good.jpg"]);
}

#[test]
fn missing_exif_messages_are_recognised() {
    assert!(mentions_missing_exif("No EXIF data found!"));
    assert!(mentions_missing_exif("png: No metadata found!"));
    assert!(!mentions_missing_exif("permission denied"));
    assert!(text_contains("abc", ""));
    assert!(!text_contains("", "a"));
}

#[test]
fn read_back_values_lose_their_padding() {
    assert_eq!(trim_trailing_nul("2026:07:18 10:00:00\0\0"), "2026:07:18 10:00:00");
    assert_eq!(trim_trailing_nul("\0a\0"), "\0a");
    assert_eq!(trim_trailing_nul(""), "");
}

#[test]
fn output_folder_and_copy_targets() {
    assert_eq!(
        output_dir_for("/d", Destination::CopyToOutput).as_deref(),
        Some("/d/sequin-output")
    );
    assert_eq!(output_dir_for("/d", Destination::InPlace), None);
    assert_eq!(
        copy_target("/d/sequin-output", "/d/sub/b.jpg"),
        Ok(("b.jpg".to_string(), "/d/sequin-output/b.jpg".to_string()))
    );
    assert_eq!(copy_target("/d/sequin-output", "/"), Err(CopyRefusal::NoFileName));
}

#[test]
fn copies_onto_their_source_or_onto_a_taken_name_are_refused() {
    let mut names = OutputNames::new();
    assert_eq!(admit_copy(&mut names, "a.jpg", true), Err(CopyRefusal::AlreadyInOutput));
    // The refused copy did not take the name.
    assert_eq!(admit_copy(&mut names, "a.jpg", false), Ok(()));
    assert_eq!(admit_copy(&mut names, "b.jpg", false), Ok(()));
    assert_eq!(
        admit_copy(&mut names, "b.jpg", false),
        Err(CopyRefusal::DuplicateName("b.jpg".to_string()))
    );
}

#[test]
fn duplicate_output_names_are_refused() {
    let mut names = OutputNames::new();
    assert!(names.claim("b.jpg"));
    assert!(names.claim("a.jpg"));
    assert!(!names.claim("b.jpg"));
}

#[test]
fn verification_sample_is_first_middle_last() {
    assert_eq!(verification_sample(0), Vec::<usize>::new());
    assert_eq!(verification_sample(1), [0]);
    assert_eq!(verification_sample(2), [0, 1]);
    assert_eq!(verification_sample(3), [0, 1, 2]);
    assert_eq!(verification_sample(10), [0, 5, 9]);
}

#[test]
fn default_start_is_mtime_date_at_ten() {
    // A file written today: its modification day is today.
    let today = chrono::Local::now().date_naive();
    let day = i64::from(chrono::Datelike::num_days_from_ce(&today)) - 719_163;
    let start = chrono::DateTime::from_timestamp(default_start(Some(day), day), 0)
        .unwrap()
        .naive_utc();
    assert_eq!(start.date(), today);
    assert_eq!(start.time(), chrono::NaiveTime::from_hms_opt(10, 0, 0).unwrap());
}

#[test]
fn default_start_is_ten_in_the_morning() {
    assert_eq!(default_start(Some(20652), 0), 20652 * 86400 + 36000);
    assert_eq!(default_start(None, 3), 3 * 86400 + 36000);
}

#[test]
fn extension_matching_is_case_insensitive_and_shared() {
    // The scan filter and the JPEG fast path read extensions one way.
    let entries: Vec<String> = ["/d/a.JPG", "/d/b.jpeg", "/d/c.PNG", "/d/notes.txt"]
        .iter()
        .map(|s| s.to_string())
        .collect();
    let listed = select_photo_paths(&entries);
    assert_eq!(listed, ["/d/a.JPG", "/d/b.jpeg", "/d/c.PNG"]);
    assert!(is_jpeg_path(&listed[0]), "uppercase .JPG must take the same fast path as .jpg");
}

#[test]
fn extension_matching_is_case_insensitive() {
    assert!(is_photo_path("/d/a.JPG"));
    assert!(is_photo_path("/d/b.jpeg"));
    assert!(is_photo_path("/d/c.PNG"));
    assert!(!is_photo_path("/d/notes.txt"));
    assert!(!is_photo_path("/d/jpg"));
    assert!(is_jpeg_path("/d/a.JPG"));
    assert!(!is_jpeg_path("/d/c.png"));
    assert!(has_extension("x.TiF", &["tif"]));
}

#[test]
fn photo_paths_are_filtered_and_sorted() {
    let entries: Vec<String> = ["/d/c.PNG", "/d/notes.txt", "/d/a.JPG", "/d/b.jpeg"]
        .iter()
        .map(|s| s.to_string())
        .collect();
    assert_eq!(select_photo_paths(&entries), ["/d/a.JPG", "/d/b.jpeg", "/d/c.PNG"]);
}

#[test]
fn thumbnail_cache_layout() {
    // FNV-1a of the empty string is the offset basis.
    assert_eq!(fnv1a(b""), 0xcbf29ce484222325);
    assert_eq!(fnv1a(b"a"), 0xaf63dc4c8601ec8c);
    assert_eq!(cache_dir_for("/cache", ""), "/cache/cbf29ce484222325");
    assert_eq!(thumb_path("/cache/k", "/d/a.png"), "/cache/k/a.png.jpg");
    assert_eq!(thumb_path("/cache/k", "/"), "/cache/k/photo.jpg");
}

#[test]
fn black_and_white_detection() {
    let gray: Vec<u8> = (0..64 * 48).flat_map(|i| {
        let v = (i % 251) as u8;
        [v, v, v]
    }).collect();
    assert!(is_black_and_white(&gray, 64, 48));
    let color: Vec<u8> = (0..64 * 48).flat_map(|i| {
        let v = (i % 200) as u8;
        [v, v / 2 + 40, 200 - v / 2]
    }).collect();
    assert!(!is_black_and_white(&color, 64, 48));
    assert!(is_black_and_white(&[], 0, 0));
}

#[test]
fn a_write_is_planned_only_from_valid_inputs_and_never_twice() {
    let photo = |name: &str| sequin_core::Photo {
        path: format!("/d/{name}"),
        hash_full: String::new(),
        hash_cropped: String::new(),
        border_fraction_bits: 0,
        width: 1,
        height: 1,
    };
    let arr = sequin_core::Arrangement {
        groups: vec![
            sequin_core::Group { photos: vec![photo("a.jpg"), photo("b.jpg")] },
            sequin_core::Group { photos: vec![photo("c.jpg")] },
        ],
    };
    let plan = plan_write(false, "2026-07-18", "10:00", "60", "10", true, &arr).unwrap();
    assert_eq!(plan.dest, Destination::CopyToOutput);
    let stamps: Vec<&str> = plan.timed.iter().map(|t| t.exif_datetime.as_str()).collect();
    assert_eq!(stamps, ["2026:07:18 10:00:00", "2026:07:18 10:00:10", "2026:07:18 10:01:10"]);
    let in_place = plan_write(false, "2026-07-18", "10:00", "60", "10", false, &arr).unwrap();
    assert_eq!(in_place.dest, Destination::InPlace);
    assert!(plan_write(true, "2026-07-18", "10:00", "60", "10", true, &arr).is_none());
    assert!(plan_write(false, "2026-07-18", "10:00", "0", "10", true, &arr).is_none());
}

#[test]
fn read_backs_confirm_only_the_written_text() {
    let stamped = vec![timed("/d/a.jpg"), timed("/d/b.jpg"), timed("/d/c.jpg")];
    let sample = verification_sample(stamped.len());
    let reads = vec![
        ReadBack::Read(Some("2026:07:18 10:00:00".to_string())),
        ReadBack::Read(None),
        ReadBack::Failed("unreadable".to_string()),
    ];
    assert_eq!(tally_read_back(&stamped, &sample, &reads), (1, vec![1, 2]));
    let wrong = vec![ReadBack::Read(Some("2026:07:18 10:00:01".to_string()))];
    assert_eq!(tally_read_back(&stamped, &[2], &wrong), (0, vec![0]));
    assert_eq!(tally_read_back(&stamped, &[], &[]), (0, vec![]));
}

#[test]
fn thumbnail_requests_cannot_leave_the_cache() {
    assert!(thumb_request_is_safe("0123abcd/a.jpg.jpg"));
    assert!(thumb_request_is_safe("k/.hidden.jpg"));
    assert!(thumb_request_is_safe("k/..a.jpg"));
    for bad in ["", "/etc/passwd", "k/../../etc", "k//a.jpg", "k/", ".", "..", "k/./a.jpg", "k/.."] {
        assert!(!thumb_request_is_safe(bad), "{bad:?} must be refused");
    }
}

#[test]
fn a_leap_second_start_stamps_the_first_photo_with_second_sixty() {
    let photo = |name: &str| sequin_core::Photo {
        path: format!("/d/{name}"),
        hash_full: String::new(),
        hash_cropped: String::new(),
        border_fraction_bits: 0,
        width: 1,
        height: 1,
    };
    let arr = sequin_core::Arrangement {
        groups: vec![
            sequin_core::Group { photos: vec![photo("a.jpg"), photo("b.jpg")] },
            sequin_core::Group { photos: vec![photo("c.jpg")] },
        ],
    };
    let plan = plan_write(false, "2016-12-31", "23:59:60", "60", "10", true, &arr).unwrap();
    let stamps: Vec<&str> = plan.timed.iter().map(|t| t.exif_datetime.as_str()).collect();
    assert_eq!(stamps, ["2016:12:31 23:59:60", "2017:01:01 00:00:09", "2017:01:01 00:01:09"]);
}
