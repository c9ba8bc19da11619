use sequin_core::editor::Sel;
use sequin_core::labels::{
    build_views, describe, failure_summary, group_meta, plural, thumb_url_name, time_preview, url_escape,
    write_summary,
    BORDERED_ABOVE_BITS, POSITIVE_INFINITY_BITS,
};
use sequin_core::apply::ApplyReport;
use sequin_core::board::Hover;
use sequin_core::Arrangement;
use sequin_core::timeline::TimedPhoto;
use sequin_core::{Group, Photo};

fn photo(name: &str, border: f32) -> Photo {
    Photo {
        path: format!("/d/{name}"),
        hash_full: String::new(),
        hash_cropped: String::new(),
        border_fraction_bits: border.to_bits(),
        width: 100,
        height: 100,
    }
}

#[test]
fn group_meta_lists_count_and_flags() {
    let is_bw = vec!["/d/a.jpg".to_string()];
    let group = Group {
        photos: vec![photo("a.jpg", 0.0), photo("b.jpg", 0.1)],
    };
    assert_eq!(group_meta(&group, &is_bw), "2 photos · b&w · bordered");
    let plain = Group {
        photos: vec![photo("c.jpg", 0.0)],
    };
    assert_eq!(group_meta(&plain, &[]), "1 photo");
}

#[test]
fn plural_picks_the_right_form() {
    assert_eq!(plural(1, "photo", "photos"), "1 photo");
    assert_eq!(plural(2, "photo", "photos"), "2 photos");
    assert_eq!(plural(0, "photo", "photos"), "0 photos");
}

#[test]
fn plural_writes_large_counts_in_full() {
    assert_eq!(plural(1234567, "photo", "photos"), "1234567 photos");
    assert_eq!(plural(10, "x", "xs"), "10 xs");
}

#[test]
fn a_border_counts_only_above_five_percent() {
    assert_eq!(0.05f32.to_bits(), BORDERED_ABOVE_BITS);
    assert_eq!(f32::INFINITY.to_bits(), POSITIVE_INFINITY_BITS);
    let meta = |b: f32| group_meta(&Group { photos: vec![photo("a.jpg", b)] }, &[]);
    assert_eq!(meta(0.05), "1 photo");
    assert_eq!(meta(0.0501), "1 photo · bordered");
    assert_eq!(meta(-0.5), "1 photo");
    assert_eq!(meta(f32::NAN), "1 photo");
    assert_eq!(meta(f32::INFINITY), "1 photo · bordered");
}

#[test]
fn items_are_described_counting_from_one() {
    assert_eq!(describe(Sel::Photo(0, 2)), "photo 3 of group 1");
    assert_eq!(describe(Sel::Group(9)), "group 10");
}

#[test]
fn failure_summary_counts_unreadable_files() {
    assert_eq!(failure_summary(1), "1 file couldn’t be read");
    assert_eq!(failure_summary(3), "3 files couldn’t be read");
}

#[test]
fn thumb_url_name_percent_encodes_reserved_characters() {
    assert_eq!(thumb_url_name("/d/IMG 01.jpg"), "IMG%2001.jpg.jpg");
    assert_eq!(thumb_url_name("/d/a#b.png"), "a%23b.png.jpg");
}

#[test]
fn url_escape_encodes_the_utf8_bytes_of_other_characters() {
    assert_eq!(url_escape("é-_.~Az9"), "%C3%A9-_.~Az9");
    assert_eq!(url_escape("a/b?c"), "a%2Fb%3Fc");
    assert_eq!(url_escape(""), "");
    assert_eq!(thumb_url_name("/"), ".jpg");
    // The same text the percent-encoding crate gives with that set.
    let set = &percent_encoding::NON_ALPHANUMERIC;
    let everything = percent_encoding::utf8_percent_encode("x y", set).to_string();
    assert_eq!(url_escape("x y"), everything);
}

fn timed(ts: &str) -> TimedPhoto {
    TimedPhoto {
        path: "/d/a.jpg".to_string(),
        exif_datetime: ts.to_string(),
    }
}

#[test]
fn the_preview_drops_a_shared_date() {
    assert_eq!(
        time_preview(&[timed("2026:07:18 10:00:00"), timed("2026:07:18 10:05:10")]),
        "2026:07:18 10:00:00 → 10:05:10"
    );
    assert_eq!(
        time_preview(&[timed("2026:12:31 23:59:00"), timed("2027:01:01 00:00:10")]),
        "2026:12:31 23:59:00 → 2027:01:01 00:00:10"
    );
    assert_eq!(
        time_preview(&[timed("2026:07:18 10:00:00")]),
        "2026:07:18 10:00:00 → 10:00:00"
    );
    assert_eq!(time_preview(&[]), "");
}

fn report(written: usize, failures: usize, verified: usize, verify_failures: usize) -> ApplyReport {
    ApplyReport {
        written,
        failures: vec![("/d/x.jpg".to_string(), "boom".to_string()); failures],
        verified,
        verify_failures: vec![("/d/y.jpg".to_string(), "mismatch".to_string()); verify_failures],
        output_dir: None,
    }
}

#[test]
fn the_write_summary_says_what_was_stamped_and_verified() {
    assert_eq!(
        write_summary(&report(3, 0, 3, 0), 3),
        (
            "Timeline written.".to_string(),
            "3 of 3 photos stamped · verified 3 read-back samples".to_string()
        )
    );
    assert_eq!(
        write_summary(&report(1, 1, 1, 0), 2),
        (
            "Written, with problems".to_string(),
            "1 of 2 photos stamped · verified 1 read-back sample".to_string()
        )
    );
    assert_eq!(
        write_summary(&report(2, 0, 1, 1), 2).1,
        "2 of 2 photos stamped · 1 verification failure"
    );
}

#[test]
fn rows_show_groups_and_photos_with_their_state() {
    let mut wide = photo("IMG 1.jpg", 0.0);
    wide.width = 300;
    wide.height = 0;
    let arr = Arrangement {
        groups: vec![
            Group {
                photos: vec![wide, photo("b.jpg", 0.2)],
            },
            Group {
                photos: vec![photo("c.jpg", 0.0)],
            },
        ],
    };
    let bw = vec!["/d/c.jpg".to_string()];
    let rows = build_views(
        &arr,
        &bw,
        "/thumbs/k",
        &[Sel::Group(1), Sel::Photo(0, 1)],
        Some(Hover::Slot(0, 1)),
        Some(Sel::Photo(1, 0)),
    );
    assert_eq!(rows.len(), 2);
    assert_eq!(rows[0].key, "/d/IMG 1.jpg");
    assert_eq!(rows[0].index_label, "1");
    assert_eq!(rows[0].meta, "2 photos · bordered");
    assert!(!rows[0].selected);
    assert_eq!(rows[0].photos[0].src, "/thumbs/k/IMG%201.jpg.jpg");
    assert_eq!(rows[0].photos[0].name, "IMG 1.jpg");
    assert_eq!(rows[0].photos[0].aspect, "aspect-ratio: 300 / 1");
    assert!(rows[0].photos[1].selected);
    assert!(rows[0].photos[1].insert_before);
    assert!(!rows[0].photos[0].insert_before);
    assert_eq!(rows[1].index_label, "2");
    assert_eq!(rows[1].meta, "1 photo · b&w");
    assert!(rows[1].selected);
    assert!(rows[1].photos[0].drag_source);
    assert!(!rows[1].drag_source);
}
