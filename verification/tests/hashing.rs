use sequin_core::hashing::{
    decode_budget_bytes, distance, hamming, hash_from_hex, hash_to_hex, resolve_scan_threads,
    trim_bounds, Hash256, HexError, DEFAULT_MAX_DECODES, MAX_DECODE_BYTES,
};
use sequin_core::Photo;

#[test]
fn hex_roundtrip_and_hamming() {
    let h: Hash256 = [0x0123_4567_89ab_cdef, 0, u64::MAX, 42];
    let hex = hash_to_hex(&h);
    assert_eq!(hex.len(), 64);
    assert_eq!(hash_from_hex(&hex).unwrap(), h);

    assert_eq!(hamming(&h, &h), 0);
    let mut flipped = h;
    flipped[0] ^= 0b101; // two bits
    flipped[3] ^= 1 << 63; // one bit, in another word
    assert_eq!(hamming(&h, &flipped), 3);
}

#[test]
fn hash_from_hex_rejects_bad_input() {
    assert!(hash_from_hex("abc").is_err(), "wrong length");
    assert!(hash_from_hex(&"g".repeat(64)).is_err(), "non-hex chars");
}

#[test]
fn hex_text_is_lowercase_and_padded() {
    let h: Hash256 = [0xABCDEF, 1, 0, u64::MAX];
    assert_eq!(
        hash_to_hex(&h),
        "0000000000abcdef00000000000000010000000000000000ffffffffffffffff"
    );
}

#[test]
fn hash_from_hex_accepts_uppercase_and_plus() {
    let text = format!("+{}{}", "F".repeat(15), "0".repeat(48));
    assert_eq!(
        hash_from_hex(&text).unwrap(),
        [0x0fff_ffff_ffff_ffff, 0, 0, 0]
    );
    assert_eq!(hash_from_hex("abc"), Err(HexError::Length(3)));
    assert_eq!(hash_from_hex(&"-".repeat(64)), Err(HexError::Digits));
    // 64 bytes, but multi-byte characters.
    assert_eq!(hash_from_hex(&"é".repeat(32)), Err(HexError::Digits));
}

#[test]
fn hamming_counts_all_differing_bits() {
    let a: Hash256 = [0, 0, 0, 0];
    let b: Hash256 = [u64::MAX; 4];
    assert_eq!(hamming(&a, &b), 256);
    assert_eq!(hamming(&b, &a), 256);
}

fn photo(full: &str, cropped: &str) -> Photo {
    Photo {
        path: "/d/x.jpg".to_string(),
        hash_full: full.to_string(),
        hash_cropped: cropped.to_string(),
        border_fraction_bits: 0,
        width: 1,
        height: 1,
    }
}

#[test]
fn distance_takes_the_closer_of_the_two_hashes() {
    let zero = hash_to_hex(&[0; 4]);
    let five = hash_to_hex(&[0b11111, 0, 0, 0]);
    let two = hash_to_hex(&[0, 0b11, 0, 0]);
    let a = photo(&zero, &zero);
    let b = photo(&five, &two);
    assert_eq!(distance(&a, &b), Ok(2));
    assert_eq!(distance(&b, &a), Ok(2));
    let bad = photo("xyz", &zero);
    assert_eq!(distance(&a, &bad), Err(HexError::Length(3)));
}

#[test]
fn distance_is_symmetric_and_zero_to_itself() {
    let a = photo(&hash_to_hex(&[7, 0, u64::MAX, 1]), &hash_to_hex(&[0, 9, 0, 0]));
    let b = photo(&hash_to_hex(&[1, 2, 3, 4]), &hash_to_hex(&[5, 6, 7, 8]));
    assert_eq!(distance(&a, &b), distance(&b, &a));
    assert_eq!(distance(&a, &a), Ok(0));
    assert_eq!(distance(&b, &b), Ok(0));
}

#[test]
fn oversized_frames_are_refused_before_decoding() {
    assert!(
        decode_budget_bytes(6000, 4000, 3) < MAX_DECODE_BYTES,
        "a 24MP RGB photo must stay inside the budget"
    );
    assert!(
        decode_budget_bytes(u16::MAX, u16::MAX, 3) > MAX_DECODE_BYTES,
        "a maximal frame must be refused"
    );
    // Rounding up to whole blocks must not overflow at the u16 ceiling.
    // 65535 rounds up to 8192 blocks, 1 to one block: 8192 * 64 * 2.
    assert_eq!(decode_budget_bytes(u16::MAX, 1, 1), 1_048_576);
}

#[test]
fn scan_thread_count_is_capped_unless_overridden() {
    assert_eq!(resolve_scan_threads(None, 10), DEFAULT_MAX_DECODES);
    assert_eq!(resolve_scan_threads(None, 2), 2, "never exceeds the cores");
    assert_eq!(resolve_scan_threads(Some("12"), 10), 12, "override wins");
    for bad in ["0", "-1", "lots", "", "  "] {
        assert_eq!(
            resolve_scan_threads(Some(bad), 10),
            DEFAULT_MAX_DECODES,
            "{bad:?} is not a usable override"
        );
    }
    assert_eq!(resolve_scan_threads(Some(" 7 "), 10), 7);
}

fn image(w: u32, h: u32, f: impl Fn(u32, u32) -> [u8; 3]) -> Vec<u8> {
    let mut px = Vec::new();
    for y in 0..h {
        for x in 0..w {
            px.extend_from_slice(&f(x, y));
        }
    }
    px
}

#[test]
fn trim_bounds_finds_uniform_margins() {
    // A 30x24 image with a white frame of 3 columns left, 2 right, 4 rows
    // top, 1 row bottom around a textured centre.
    let (w, h) = (30, 24);
    let px = image(w, h, |x, y| {
        if x < 3 || x >= w - 2 || y < 4 || y >= h - 1 {
            [255, 255, 255]
        } else {
            [((x * 37 + y * 11) % 200) as u8, ((x * 7) % 150) as u8, ((y * 13) % 120) as u8]
        }
    });
    assert_eq!(trim_bounds(&px, w, h), (3, 4, w - 3, h - 2));
}

#[test]
fn trim_bounds_stops_at_a_third() {
    let (w, h) = (9, 9);
    let px = image(w, h, |_, _| [10, 20, 30]);
    // A uniform image trims at most a third from each side.
    assert_eq!(trim_bounds(&px, w, h), (3, 3, 6, 6));
}

#[test]
fn lowercase_hex_text_round_trips() {
    let text = "0123456789abcdeffedcba98765432100000000000000001ffffffffffffffff";
    assert_eq!(hash_to_hex(&hash_from_hex(text).unwrap()), text);
}
