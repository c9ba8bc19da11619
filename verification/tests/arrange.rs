use sequin_core::arrange::{
    covers_same_photos, drop_empty_groups, find_photo, merge_groups, move_group, move_photo,
    resume_or_cluster, sidecar_path, split_photo,
};
use sequin_core::hashing::HexError;
use sequin_core::{Arrangement, Group, Photo};
use std::path::Path;

fn photo(name: &str) -> Photo {
    Photo {
        path: format!("/d/{name}.jpg"),
        hash_full: "0".repeat(64),
        hash_cropped: "0".repeat(64),
        border_fraction_bits: 0.0f32.to_bits(),
        width: 100,
        height: 100,
    }
}

/// Groups from a spec like `[["a","b"],["c"]]`.
fn arr(spec: &[&[&str]]) -> Arrangement {
    Arrangement {
        groups: spec
            .iter()
            .map(|names| Group {
                photos: names.iter().map(|n| photo(n)).collect(),
            })
            .collect(),
    }
}

/// Flatten back to a spec for easy assertions.
fn spec(arr: &Arrangement) -> Vec<Vec<String>> {
    arr.groups
        .iter()
        .map(|g| {
            g.photos
                .iter()
                .map(|p| Path::new(&p.path).file_stem().unwrap().to_string_lossy().into_owned())
                .collect()
        })
        .collect()
}

#[test]
fn move_group_reorders_and_clamps() {
    let mut a = arr(&[&["a"], &["b"], &["c"]]);
    move_group(&mut a, 0, 2);
    assert_eq!(spec(&a), [vec!["b"], vec!["c"], vec!["a"]]);
    move_group(&mut a, 2, 0);
    assert_eq!(spec(&a), [vec!["a"], vec!["b"], vec!["c"]]);
    move_group(&mut a, 1, 99); // clamped to end
    assert_eq!(spec(&a), [vec!["a"], vec!["c"], vec!["b"]]);
    move_group(&mut a, 99, 0); // out-of-range source: no-op
    assert_eq!(spec(&a), [vec!["a"], vec!["c"], vec!["b"]]);
}

#[test]
fn move_photo_within_group_accounts_for_removal_shift() {
    let mut a = arr(&[&["a", "b", "c"]]);
    move_photo(&mut a, (0, 0), 0, 3); // a to the end
    assert_eq!(spec(&a), [vec!["b", "c", "a"]]);
    move_photo(&mut a, (0, 2), 0, 0); // a back to the front
    assert_eq!(spec(&a), [vec!["a", "b", "c"]]);
    move_photo(&mut a, (0, 0), 0, 1); // insert-before-b after removing a = no-op position
    assert_eq!(spec(&a), [vec!["a", "b", "c"]]);
}

#[test]
fn move_photo_between_groups_removes_emptied_group() {
    let mut a = arr(&[&["a"], &["b", "c"]]);
    move_photo(&mut a, (0, 0), 1, 1);
    assert_eq!(spec(&a), [vec!["b", "a", "c"]]);
}

#[test]
fn split_photo_creates_singleton_and_relocates_lone_photos() {
    let mut a = arr(&[&["a", "b"], &["c"]]);
    split_photo(&mut a, (0, 1), 1); // b out, placed between the groups
    assert_eq!(spec(&a), [vec!["a"], vec!["b"], vec!["c"]]);
    split_photo(&mut a, (1, 0), 0); // b is already a singleton: just moves
    assert_eq!(spec(&a), [vec!["b"], vec!["a"], vec!["c"]]);
}

#[test]
fn merge_groups_appends_and_ignores_bad_input() {
    let mut a = arr(&[&["a"], &["b"], &["c"]]);
    merge_groups(&mut a, 0, 2);
    assert_eq!(spec(&a), [vec!["a", "c"], vec!["b"]]);
    merge_groups(&mut a, 1, 1); // self-merge: no-op
    assert_eq!(spec(&a), [vec!["a", "c"], vec!["b"]]);
    merge_groups(&mut a, 0, 99); // out of range: no-op
    assert_eq!(spec(&a), [vec!["a", "c"], vec!["b"]]);
}

#[test]
fn find_photo_locates_by_path() {
    let a = arr(&[&["a", "b"], &["c"]]);
    assert_eq!(find_photo(&a, "/d/b.jpg"), Some((0, 1)));
    assert_eq!(find_photo(&a, "/d/c.jpg"), Some((1, 0)));
    assert_eq!(find_photo(&a, "/d/missing.jpg"), None);
}

#[test]
fn covers_same_photos_rejects_duplicate_entries() {
    let duplicated = arr(&[&["a"], &["a"]]);
    let scanned = vec![photo("a")];
    assert!(!covers_same_photos(&duplicated, &scanned));
}

#[test]
fn covers_same_photos_accepts_any_order_and_rejects_missing() {
    let saved = arr(&[&["a", "b"], &["c"]]);
    let same_photos: Vec<Photo> = ["c", "a", "b"].iter().map(|n| photo(n)).collect();
    assert!(covers_same_photos(&saved, &same_photos));
    let different: Vec<Photo> = ["a", "b"].iter().map(|n| photo(n)).collect();
    assert!(!covers_same_photos(&saved, &different));
    let other: Vec<Photo> = ["a", "b", "d"].iter().map(|n| photo(n)).collect();
    assert!(!covers_same_photos(&saved, &other));
}

#[test]
fn paths_compare_by_component() {
    // `Path` equality ignores a doubled separator.
    let a = arr(&[&["a"]]);
    assert_eq!(find_photo(&a, "/d//a.jpg"), Some((0, 0)));
}

#[test]
fn drop_empty_groups_keeps_order_and_photos() {
    let mut a = arr(&[&["a"], &["b"]]);
    a.groups.insert(1, Group { photos: vec![] });
    a.groups.push(Group { photos: vec![] });
    drop_empty_groups(&mut a);
    assert_eq!(spec(&a), [vec!["a"], vec!["b"]]);
}

#[test]
fn sidecar_lives_in_the_folder() {
    assert_eq!(sidecar_path("/photos/shoot"), "/photos/shoot/arrangement.json");
    assert_eq!(sidecar_path("/photos/shoot/"), "/photos/shoot/arrangement.json");
    assert_eq!(sidecar_path(""), "arrangement.json");
}

#[test]
fn photo_count_sums_groups() {
    assert_eq!(arr(&[&["a", "b"], &["c"]]).photo_count(), 3);
    assert_eq!(arr(&[]).photo_count(), 0);
}

#[test]
fn edits_keep_every_photo() {
    let mut a = arr(&[&["a", "b"], &["c"], &["d", "e", "f"]]);
    move_photo(&mut a, (2, 1), 0, 0);
    split_photo(&mut a, (0, 2), 5);
    merge_groups(&mut a, 3, 1);
    move_group(&mut a, 0, 2);
    let mut names: Vec<String> = spec(&a).into_iter().flatten().collect();
    names.sort();
    assert_eq!(names, ["a", "b", "c", "d", "e", "f"]);
    assert!(a.groups.iter().all(|g| !g.photos.is_empty()));
}

#[test]
fn a_saved_arrangement_is_resumed_only_when_it_covers_the_scan() {
    let saved = arr(&[&["b"], &["a"]]);
    let scanned: Vec<Photo> = ["a", "b"].iter().map(|n| photo(n)).collect();
    let (a, resumed) = resume_or_cluster(Some(saved.clone()), &scanned, 60).unwrap();
    assert!(resumed);
    assert_eq!(spec(&a), [vec!["b"], vec!["a"]]);
    // A photo more on disk: the scan is clustered afresh (equal hashes make
    // one group, in scan order).
    let more: Vec<Photo> = ["a", "b", "c"].iter().map(|n| photo(n)).collect();
    let (a, resumed) = resume_or_cluster(Some(saved), &more, 60).unwrap();
    assert!(!resumed);
    assert_eq!(spec(&a), [vec!["a", "b", "c"]]);
    let (a, resumed) = resume_or_cluster(None, &scanned, 60).unwrap();
    assert!(!resumed);
    assert_eq!(spec(&a), [vec!["a", "b"]]);
    let mut bad = photo("x");
    bad.hash_full = "abc".to_string();
    assert_eq!(resume_or_cluster(None, &[bad], 60).map(|_| ()), Err(HexError::Length(3)));
}
