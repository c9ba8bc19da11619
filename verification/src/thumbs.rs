//! Thumbnail cache layout and the black-and-white check.
use vstd::prelude::*;
use vstd::string::StringSliceAdditionalSpecFns;
use crate::hashing::{hex_lower, push_hex};
use crate::paths::{path_file_name, path_join, file_name_of, joined_path};

verus! {

/// Thumbnails are bounded to this dimension.
pub const THUMB_MAX_DIM: u32 = 512;

/// FNV-1a offset basis and prime (64-bit).
pub const FNV_OFFSET: u64 = 0xcbf29ce484222325;
pub const FNV_PRIME: u64 = 0x100000001b3;

/// FNV-1a of `bytes`, continuing from `acc`.
pub open spec fn fnv1a_from(acc: u64, bytes: Seq<u8>) -> u64
    decreases bytes.len(),
{
    if bytes.len() == 0 {
        acc
    } else {
        fnv1a_from((acc ^ (bytes[0] as u64)).wrapping_mul(FNV_PRIME), bytes.drop_first())
    }
}

/// 64-bit FNV-1a hash of a byte string.
pub fn fnv1a(bytes: &[u8]) -> (h: u64)
    ensures
        h == fnv1a_from(FNV_OFFSET, bytes@),
{
    let mut acc = FNV_OFFSET;
    let mut i: usize = 0;
    proof {
        assert(bytes@.skip(0) =~= bytes@);
    }
    while i < bytes.len()
        invariant
            i <= bytes@.len(),
            fnv1a_from(acc, bytes@.skip(i as int)) == fnv1a_from(FNV_OFFSET, bytes@),
        decreases bytes@.len() - i,
    {
        proof {
            assert(bytes@.skip(i as int)[0] == bytes@[i as int]);
            assert(bytes@.skip(i as int).drop_first() =~= bytes@.skip(i + 1));
        }
        acc = (acc ^ (bytes[i] as u64)).wrapping_mul(FNV_PRIME);
        i = i + 1;
    }
    proof {
        assert(bytes@.skip(i as int).len() == 0);
    }
    acc
}

/// Thumbnail cache directory for one source folder:
/// `<cache_root>/<FNV-1a of the folder's canonical path, 16 hex digits>`.
/// The key is stable across toolchains; a collision only costs a
/// regeneration.
pub fn cache_dir_for(cache_root: &str, canonical_source: &str) -> (r: String)
    ensures
        r@ == joined_path(cache_root@, hex_lower(fnv1a_from(FNV_OFFSET, canonical_source.spec_bytes()) as nat, 16)),
{
    let key = fnv1a(canonical_source.as_bytes());
    let mut name = String::new();
    push_hex(&mut name, key, 16);
    proof {
        assert(name@ =~= hex_lower(key as nat, 16));
    }
    path_join(cache_root, name.as_str())
}

/// Thumbnail file for a photo: `<cache_dir>/<source file name>.jpg`
/// (`photo.jpg` when the path has no file name). Keeping the full source
/// name avoids collisions such as `a.jpg` against `a.png`.
pub fn thumb_path(cache_dir: &str, photo_path: &str) -> (r: String)
    ensures
        r@ == joined_path(cache_dir@, match file_name_of(photo_path@) {
            Some(n) => n,
            None => "photo"@,
        } + ".jpg"@),
{
    let mut name = match path_file_name(photo_path) {
        Some(n) => n,
        None => "photo".to_owned(),
    };
    name.append(".jpg");
    path_join(cache_dir, name.as_str())
}

// ---------------------------------------------------------------------------
// Black and white
// ---------------------------------------------------------------------------

/// Sampling step over `len` pixels: one in `len / 64`, at least every pixel.
pub open spec fn sample_step(len: nat) -> nat {
    if len / 64 >= 1 { len / 64 } else { 1 }
}

/// Channel spread (max minus min) of the RGB pixel starting at byte `i`.
pub open spec fn spread(px: Seq<u8>, i: int) -> nat {
    let (r, g, b) = (px[i] as int, px[i + 1] as int, px[i + 2] as int);
    let hi = if r >= g && r >= b { r } else if g >= b { g } else { b };
    let lo = if r <= g && r <= b { r } else if g <= b { g } else { b };
    (hi - lo) as nat
}

/// Sum of spreads over the sampled pixels `x, x + step, ...` (below `w`) of
/// row `y`, and how many pixels that is.
pub open spec fn row_samples(px: Seq<u8>, w: nat, y: nat, x: nat, step: nat) -> (nat, nat)
    decreases (w + step) - x,
    when step > 0
{
    if x >= w {
        (0, 0)
    } else {
        let rest = row_samples(px, w, y, x + step, step);
        (spread(px, (3 * (y * w + x)) as int) + rest.0, rest.1 + 1)
    }
}

/// Sum of spreads and number of samples over the sampled rows
/// `y, y + step_y, ...` (below `h`).
pub open spec fn grid_samples(px: Seq<u8>, w: nat, h: nat, y: nat, step_x: nat, step_y: nat) -> (nat, nat)
    decreases (h + step_y) - y,
    when step_y > 0
{
    if y >= h {
        (0, 0)
    } else {
        let row = row_samples(px, w, y, 0, step_x);
        let rest = grid_samples(px, w, h, y + step_y, step_x, step_y);
        (row.0 + rest.0, row.1 + rest.1)
    }
}

/// A photo is (near-)monochrome when the mean channel spread over the
/// sampled pixels is below 8, i.e. the total is below 8 per sample (an
/// image without samples counts as monochrome).
pub open spec fn black_and_white(px: Seq<u8>, w: nat, h: nat) -> bool {
    let g = grid_samples(px, w, h, 0, sample_step(w), sample_step(h));
    g.1 == 0 || g.0 < 8 * g.1
}

fn pixel_spread(px: &[u8], i: usize) -> (r: u64)
    requires
        i + 2 < px@.len(),
    ensures
        r == spread(px@, i as int),
        r <= 255,
{
    let (r, g, b) = (px[i], px[i + 1], px[i + 2]);
    let hi = if r >= g && r >= b { r } else if g >= b { g } else { b };
    let lo = if r <= g && r <= b { r } else if g <= b { g } else { b };
    (hi - lo) as u64
}

proof fn lemma_row_samples_bound(px: Seq<u8>, w: nat, y: nat, x: nat, step: nat)
    requires
        step > 0,
    ensures
        row_samples(px, w, y, x, step).1 <= if x >= w { 0 } else { w - x },
        row_samples(px, w, y, x, step).0 <= 255 * row_samples(px, w, y, x, step).1,
    decreases (w + step) - x,
{
    if x < w {
        lemma_row_samples_bound(px, w, y, x + step, step);
        assert(spread(px, (3 * (y * w + x)) as int) <= 255);
    }
}

fn row_totals(px: &[u8], w: u32, h: u32, y: u32) -> (r: (u64, u64))
    requires
        w >= 1,
        y < h,
        px@.len() == 3 * w * h,
    ensures
        r.0 == row_samples(px@, w as nat, y as nat, 0, sample_step(w as nat)).0,
        r.1 == row_samples(px@, w as nat, y as nat, 0, sample_step(w as nat)).1,
        r.1 <= w,
        r.0 <= 255 * r.1,
{
    let len = px.len();
    let step: u64 = if w / 64 >= 1 { (w / 64) as u64 } else { 1 };
    let mut x: u64 = 0;
    let mut sum: u64 = 0;
    let mut n: u64 = 0;
    proof {
        lemma_row_samples_bound(px@, w as nat, y as nat, 0, step as nat);
        assert((y as int) * (w as int) + (w as int) <= (h as int) * (w as int)) by (nonlinear_arith)
            requires y < h;
    }
    while x < w as u64
        invariant
            step == sample_step(w as nat),
            step >= 1,
            w >= 1,
            y < h,
            px@.len() == 3 * w * h,
            len == px@.len(),
            (y as int) * (w as int) + (w as int) <= (h as int) * (w as int),
            x <= w + step,
            n <= x,
            sum <= 255 * n,
            row_samples(px@, w as nat, y as nat, 0, step as nat) == (
                (sum + row_samples(px@, w as nat, y as nat, x as nat, step as nat).0) as nat,
                (n + row_samples(px@, w as nat, y as nat, x as nat, step as nat).1) as nat),
        decreases w as u64 + step - x,
    {
        proof {
            assert(3 * ((y as int) * (w as int) + (x as int)) + 2 < 3 * (w as int) * (h as int)) by (nonlinear_arith)
                requires (y as int) * (w as int) + (w as int) <= (h as int) * (w as int), x < w;
            assert(3 * (w as int) * (h as int) == px@.len()) by (nonlinear_arith)
                requires px@.len() == 3 * w * h;
        }
        let i = (y as usize * w as usize + x as usize) * 3;
        let s = pixel_spread(px, i);
        sum = sum + s;
        n = n + 1;
        x = x + step;
    }
    proof {
        assert(n <= w);
    }
    (sum, n)
}

/// Whether a photo (RGB bytes, row-major) is black and white: the mean
/// channel spread over a sparse grid (every `max(w / 64, 1)` pixels across,
/// every `max(h / 64, 1)` rows down) is below 8.
pub fn is_black_and_white(px: &[u8], w: u32, h: u32) -> (r: bool)
    requires
        px@.len() == 3 * w * h,
    ensures
        r == black_and_white(px@, w as nat, h as nat),
{
    if w == 0 || h == 0 {
        proof {
            if w == 0 {
                assert forall|y: nat| y < h implies #[trigger] row_samples(px@, 0, y, 0, 1) == (0nat, 0nat) by {}
                lemma_grid_rows_empty(px@, h as nat, 0, sample_step(h as nat));
            }
        }
        return true;
    }
    let step_y: u32 = if h / 64 >= 1 { h / 64 } else { 1 };
    let mut y: u32 = 0;
    let mut sum: u128 = 0;
    let mut n: u128 = 0;
    while y < h
        invariant
            w >= 1,
            step_y as nat == sample_step(h as nat),
            step_y >= 1,
            px@.len() == 3 * w * h,
            n <= (y as int) * (w as int),
            n <= 0xffff_ffff_ffff_ffff,
            sum <= 255 * n,
            grid_samples(px@, w as nat, h as nat, 0, sample_step(w as nat), step_y as nat) == (
                (sum + grid_samples(px@, w as nat, h as nat, y as nat, sample_step(w as nat), step_y as nat).0) as nat,
                (n + grid_samples(px@, w as nat, h as nat, y as nat, sample_step(w as nat), step_y as nat).1) as nat),
        decreases h - y,
    {
        let (rs, rn) = row_totals(px, w, h, y);
        proof {
            assert((y as int) * (w as int) + (w as int) <= (y as int + 1) * (w as int)) by (nonlinear_arith);
            assert((y as int + 1) * (w as int) <= 0xffff_ffff_ffff_ffff_ffff_ffff) by (nonlinear_arith)
                requires y < h, h <= 0xffff_ffff, w <= 0xffff_ffff;
        }
        sum = sum + rs as u128;
        n = n + rn as u128;
        if h - y <= step_y {
            proof {
                assert(grid_samples(px@, w as nat, h as nat, (y + step_y) as nat, sample_step(w as nat), step_y as nat) == (0nat, 0nat));
            }
            return n == 0 || sum < 8 * n;
        }
        proof {
            assert((y as int) * (w as int) + (w as int) <= ((y + step_y) as int) * (w as int)) by (nonlinear_arith)
                requires step_y >= 1;
            assert(((y + step_y) as int) * (w as int) <= 0xffff_ffff_ffff_ffff) by (nonlinear_arith)
                requires y + step_y <= h, h <= 0xffff_ffff, w <= 0xffff_ffff;
        }
        y = y + step_y;
    }
    n == 0 || sum < 8 * n
}

proof fn lemma_grid_rows_empty(px: Seq<u8>, h: nat, y: nat, step_y: nat)
    requires
        step_y > 0,
        forall|yy: nat| yy < h ==> #[trigger] row_samples(px, 0, yy, 0, 1) == (0nat, 0nat),
    ensures
        grid_samples(px, 0, h, y, 1, step_y) == (0nat, 0nat),
    decreases (h + step_y) - y,
{
    if y < h {
        lemma_grid_rows_empty(px, h, y + step_y, step_y);
    }
}

/// Position `i` begins a `/`-separated segment of `s`.
pub open spec fn segment_start(s: Seq<char>, i: int) -> bool {
    i == 0 || s[i - 1] == '/'
}

/// A thumbnail request path (relative to the cache root) is safe to serve:
/// it is not empty, and each of its `/`-separated segments is neither
/// empty, nor `.`, nor `..`, so it can neither climb out of the cache nor
/// name a folder.
pub open spec fn safe_request(s: Seq<char>) -> bool {
    &&& s.len() > 0
    &&& s.last() != '/'
    &&& forall|i: int| 0 <= i < s.len() && segment_start(s, i) ==> #[trigger] s[i] != '/'
    &&& forall|i: int| 0 <= i < s.len() && segment_start(s, i) && #[trigger] s[i] == '.'
            ==> !(i + 1 == s.len() || s[i + 1] == '/')
            && !(i + 1 < s.len() && s[i + 1] == '.' && (i + 2 == s.len() || s[i + 2] == '/'))
}

/// Whether a thumbnail request (the path after `/thumbs/`, decoded) may be
/// served from the cache.
pub fn thumb_request_is_safe(rel: &str) -> (r: bool)
    ensures
        r == safe_request(rel@),
{
    let n = rel.unicode_len();
    if n == 0 || rel.get_char(n - 1) == '/' {
        return false;
    }
    let mut i: usize = 0;
    while i < n
        invariant
            n == rel@.len(),
            n > 0,
            rel@.last() != '/',
            i <= n,
            forall|j: int| 0 <= j < i && segment_start(rel@, j) ==> #[trigger] rel@[j] != '/',
            forall|j: int| 0 <= j < i && segment_start(rel@, j) && #[trigger] rel@[j] == '.'
                ==> !(j + 1 == rel@.len() || rel@[j + 1] == '/')
                && !(j + 1 < rel@.len() && rel@[j + 1] == '.' && (j + 2 == rel@.len() || rel@[j + 2] == '/')),
        decreases n - i,
    {
        let start = i == 0 || rel.get_char(i - 1) == '/';
        if start {
            let c = rel.get_char(i);
            if c == '/' {
                return false;
            }
            if c == '.' {
                if i + 1 == n || rel.get_char(i + 1) == '/' {
                    return false;
                }
                if rel.get_char(i + 1) == '.' && (i + 2 == n || rel.get_char(i + 2) == '/') {
                    return false;
                }
            }
        }
        i = i + 1;
    }
    true
}

} // verus!
