use sequin_core::grouping::{cluster, UnionFind, DEFAULT_THRESHOLD};
use sequin_core::hashing::{hash_to_hex, HexError};
use sequin_core::Photo;

/// A photo whose two hashes have the low `bits` bits of the first word set.
fn photo(name: &str, full_bits: u32, crop_bits: u32) -> Photo {
    let word = |bits: u32| if bits == 0 { 0 } else if bits >= 64 { u64::MAX } else { (1u64 << bits) - 1 };
    Photo {
        path: format!("/d/{name}.jpg"),
        hash_full: hash_to_hex(&[word(full_bits), 0, 0, 0]),
        hash_cropped: hash_to_hex(&[word(crop_bits), 0, 0, 0]),
        border_fraction_bits: 0,
        width: 10,
        height: 10,
    }
}

fn names(groups: &[sequin_core::Group]) -> Vec<Vec<String>> {
    groups
        .iter()
        .map(|g| g.photos.iter().map(|p| p.path.clone()).collect())
        .collect()
}

#[test]
fn close_photos_share_a_group() {
    let photos = vec![photo("a", 0, 0), photo("b", 64, 64), photo("c", 3, 40)];
    let groups = cluster(&photos, 5).unwrap();
    assert_eq!(
        names(&groups),
        [vec!["/d/a.jpg", "/d/c.jpg"], vec!["/d/b.jpg"]]
    );
}

#[test]
fn chains_of_close_photos_join_transitively() {
    // a-b and b-c are within 4 bits; a-c is 8 bits apart.
    let photos = vec![photo("a", 0, 0), photo("b", 4, 4), photo("c", 8, 8)];
    let groups = cluster(&photos, 4).unwrap();
    assert_eq!(groups.len(), 1);
    assert_eq!(names(&groups)[0], ["/d/a.jpg", "/d/b.jpg", "/d/c.jpg"]);
}

#[test]
fn the_cropped_hash_can_match_alone() {
    // Full hashes far apart, cropped hashes equal: a bordered variant.
    let photos = vec![photo("plain", 0, 10), photo("framed", 60, 10)];
    let groups = cluster(&photos, DEFAULT_THRESHOLD).unwrap();
    assert_eq!(groups.len(), 1);
}

#[test]
fn groups_come_largest_first_then_by_path() {
    let photos = vec![
        photo("z", 64, 64),
        photo("m", 0, 0),
        photo("n", 1, 1),
        photo("b", 32, 32),
    ];
    let groups = cluster(&photos, 2).unwrap();
    assert_eq!(
        names(&groups),
        [vec!["/d/m.jpg", "/d/n.jpg"], vec!["/d/b.jpg"], vec!["/d/z.jpg"]]
    );
}

#[test]
fn undecodable_hashes_are_reported() {
    let mut bad = photo("x", 0, 0);
    bad.hash_cropped = "abc".to_string();
    let photos = vec![photo("a", 0, 0), bad];
    assert_eq!(cluster(&photos, 10).unwrap_err(), HexError::Length(3));
    assert!(cluster(&[], 10).unwrap().is_empty());
}

#[test]
fn union_find_merges_sets() {
    let mut uf = UnionFind::new(5);
    uf.union(0, 1);
    uf.union(3, 4);
    uf.union(1, 4);
    let r0 = uf.find(0);
    assert_eq!(uf.find(1), r0);
    assert_eq!(uf.find(3), r0);
    assert_eq!(uf.find(4), r0);
    assert_ne!(uf.find(2), r0);
    assert_eq!(uf.find(2), 2);
}
