//! Text shown on the light table: counts with their noun, the badge line of
//! a group, and the URL name under which a photo's thumbnail is served.
use vstd::prelude::*;
use vstd::string::StringSliceAdditionalSpecFns;
use crate::{Group, Photo};
use crate::paths::{file_name_of, path_eq, path_file_name, same_path};
use crate::editor::Sel;
use crate::board::Hover;
use crate::Arrangement;
use crate::apply::ApplyReport;
use crate::timeline::TimedPhoto;

verus! {

/// The decimal digit for `d` (below ten).
pub open spec fn digit_char(d: nat) -> char {
    seq!['0', '1', '2', '3', '4', '5', '6', '7', '8', '9'][d as int]
}

/// The decimal numeral of `n`, without leading zeros.
pub open spec fn decimal(n: nat) -> Seq<char>
    decreases n,
{
    if n < 10 {
        seq![digit_char(n)]
    } else {
        decimal(n / 10).push(digit_char(n % 10))
    }
}

/// Appends the decimal numeral of `n`.
fn push_decimal(out: &mut String, n: usize)
    ensures
        final(out)@ == old(out)@ + decimal(n as nat),
    decreases n,
{
    if n >= 10 {
        push_decimal(out, n / 10);
    }
    let digits = "0123456789";
    proof {
        reveal_strlit("0123456789");
    }
    let d = n % 10;
    let one = digits.substring_char(d, d + 1);
    out.append(one);
    proof {
        assert(one@ =~= seq![digit_char(d as nat)]);
        if n >= 10 {
            assert(out@ =~= old(out)@ + decimal(n as nat));
        } else {
            assert(out@ =~= old(out)@ + decimal(n as nat));
        }
    }
}

/// `n` and the noun for it: `one` for exactly one, `many` otherwise.
pub open spec fn counted(n: nat, one: Seq<char>, many: Seq<char>) -> Seq<char> {
    decimal(n) + seq![' '] + if n == 1 { one } else { many }
}

/// `"<n> <one>"` for one item, `"<n> <many>"` otherwise.
pub fn plural(n: usize, one: &str, many: &str) -> (r: String)
    ensures
        r@ == counted(n as nat, one@, many@),
{
    let mut out = String::new();
    push_decimal(&mut out, n);
    let space = " ";
    proof {
        reveal_strlit(" ");
    }
    out.append(space);
    if n == 1 {
        out.append(one);
    } else {
        out.append(many);
    }
    proof {
        assert(out@ =~= counted(n as nat, one@, many@));
    }
    out
}

/// The lowest bit pattern (exclusive) of a border fraction that counts as
/// a visible border: that of the single-precision number nearest 0.05.
pub const BORDERED_ABOVE_BITS: u32 = 0x3D4C_CCCD;

/// The bit pattern of single-precision positive infinity.
pub const POSITIVE_INFINITY_BITS: u32 = 0x7F80_0000;

/// The photo has a visible border: its border fraction, read as an IEEE-754
/// single, is above 0.05. Non-negative singles order as their bit patterns
/// do, up to infinity; negative numbers and NaNs lie outside this range, as
/// they fail the comparison.
pub open spec fn is_bordered(p: Photo) -> bool {
    BORDERED_ABOVE_BITS < p.border_fraction_bits <= POSITIVE_INFINITY_BITS
}

/// Some photo of the group is at one of the black-and-white paths.
pub open spec fn any_bw(photos: Seq<Photo>, bw: Seq<Seq<char>>) -> bool {
    exists|i: int, j: int| 0 <= i < photos.len() && 0 <= j < bw.len() && same_path(#[trigger] photos[i].path@, #[trigger] bw[j])
}

/// Some photo of the group has a visible border.
pub open spec fn any_bordered(photos: Seq<Photo>) -> bool {
    exists|i: int| 0 <= i < photos.len() && is_bordered(#[trigger] photos[i])
}

/// The badge line of a group: `"<n> photos"`, then `" · b&w"` when a photo
/// is black and white, then `" · bordered"` when one has a visible border.
pub open spec fn badge(photos: Seq<Photo>, bw: Seq<Seq<char>>) -> Seq<char> {
    counted(photos.len(), "photo"@, "photos"@)
        + (if any_bw(photos, bw) { " · b&w"@ } else { Seq::empty() })
        + (if any_bordered(photos) { " · bordered"@ } else { Seq::empty() })
}

/// The badge line of a group; `bw` lists the paths of the photos found to
/// be black and white.
pub fn group_meta(group: &Group, bw: &[String]) -> (r: String)
    ensures
        r@ == badge(group.photos@, bw@.map_values(|s: String| s@)),
{
    let ghost bws = bw@.map_values(|s: String| s@);
    let photos = &group.photos;
    let mut meta = plural(photos.len(), "photo", "photos");
    proof {
        reveal_strlit("photo");
        reveal_strlit("photos");
    }
    let mut found_bw = false;
    let mut i: usize = 0;
    while i < photos.len() && !found_bw
        invariant
            i <= photos.len(),
            bws == bw@.map_values(|s: String| s@),
            found_bw ==> any_bw(photos@, bws),
            !found_bw ==> forall|a: int, b: int| 0 <= a < i && 0 <= b < bws.len() ==> !same_path(photos@[a].path@, bws[b]),
        decreases photos.len() - i + (if found_bw { 0int } else { 1int }),
    {
        let mut j: usize = 0;
        while j < bw.len() && !found_bw
            invariant
                i < photos.len(),
                j <= bw.len(),
                bws == bw@.map_values(|s: String| s@),
                found_bw ==> any_bw(photos@, bws),
                !found_bw ==> forall|a: int, b: int| 0 <= a < i && 0 <= b < bws.len() ==> !same_path(photos@[a].path@, bws[b]),
                !found_bw ==> forall|b: int| 0 <= b < j ==> !same_path(photos@[i as int].path@, bws[b]),
            decreases bw.len() - j + (if found_bw { 0int } else { 1int }),
        {
            if path_eq(photos[i].path.as_str(), bw[j].as_str()) {
                found_bw = true;
                proof {
                    assert(same_path(photos@[i as int].path@, bws[j as int]));
                }
            } else {
                j = j + 1;
            }
        }
        if !found_bw {
            i = i + 1;
        }
    }
    if found_bw {
        let tag = " · b&w";
        proof {
            reveal_strlit(" · b&w");
        }
        meta.append(tag);
    }
    let mut found_border = false;
    let mut k: usize = 0;
    while k < photos.len()
        invariant
            k <= photos.len(),
            found_border == exists|a: int| 0 <= a < k && is_bordered(#[trigger] photos@[a]),
        decreases photos.len() - k,
    {
        let bits = photos[k].border_fraction_bits;
        if BORDERED_ABOVE_BITS < bits && bits <= POSITIVE_INFINITY_BITS {
            found_border = true;
        }
        proof {
            if is_bordered(photos@[k as int]) {
                assert(exists|a: int| 0 <= a < k + 1 && is_bordered(#[trigger] photos@[a]));
            }
        }
        k = k + 1;
    }
    if found_border {
        let tag = " · bordered";
        proof {
            reveal_strlit(" · bordered");
        }
        meta.append(tag);
    }
    proof {
        assert(meta@ =~= badge(photos@, bws));
    }
    meta
}

/// How an item is named in announcements: `"photo <p> of group <g>"` or
/// `"group <g>"`, counting from one.
pub open spec fn described(item: Sel) -> Seq<char> {
    match item {
        Sel::Photo(g, p) => "photo "@ + decimal(p as nat + 1) + " of group "@ + decimal(g as nat + 1),
        Sel::Group(g) => "group "@ + decimal(g as nat + 1),
    }
}

/// The name of an item in announcements.
pub fn describe(item: Sel) -> (r: String)
    requires
        match item {
            Sel::Photo(g, p) => g < usize::MAX && p < usize::MAX,
            Sel::Group(g) => g < usize::MAX,
        },
    ensures
        r@ == described(item),
{
    let mut out = String::new();
    match item {
        Sel::Photo(g, p) => {
            out.append("photo ");
            push_decimal(&mut out, p + 1);
            out.append(" of group ");
            push_decimal(&mut out, g + 1);
        },
        Sel::Group(g) => {
            out.append("group ");
            push_decimal(&mut out, g + 1);
        },
    }
    proof {
        reveal_strlit("photo ");
        reveal_strlit(" of group ");
        reveal_strlit("group ");
        assert(out@ =~= described(item));
    }
    out
}

/// The scan's failure line: `"<n> file couldn’t be read"` for one,
/// `"<n> files couldn’t be read"` otherwise.
pub fn failure_summary(n: usize) -> (r: String)
    ensures
        r@ == counted(n as nat, "file couldn’t be read"@, "files couldn’t be read"@),
{
    plural(n, "file couldn’t be read", "files couldn’t be read")
}

/// A character that stands for itself in a URL path: an ASCII letter or
/// digit, or one of `-`, `_`, `.` and `~`.
pub open spec fn url_unreserved(c: char) -> bool {
    ||| ('0' <= c && c <= '9')
    ||| ('A' <= c && c <= 'Z')
    ||| ('a' <= c && c <= 'z')
    ||| c == '-' || c == '_' || c == '.' || c == '~'
}

/// The uppercase hex digit for `d` (below sixteen).
pub open spec fn upper_hex(d: nat) -> char {
    seq!['0', '1', '2', '3', '4', '5', '6', '7', '8', '9', 'A', 'B', 'C', 'D', 'E', 'F'][d as int]
}

/// `%` and the two uppercase hex digits of a byte.
pub open spec fn percent_of(b: u8) -> Seq<char> {
    seq!['%', upper_hex(b as nat / 16), upper_hex(b as nat % 16)]
}

/// Every byte percent-encoded, in order.
pub open spec fn percent_all(bs: Seq<u8>) -> Seq<char>
    decreases bs.len(),
{
    if bs.len() == 0 {
        Seq::empty()
    } else {
        percent_all(bs.drop_last()) + percent_of(bs.last())
    }
}

/// One character in a URL path: itself when unreserved, otherwise each
/// byte of its UTF-8 encoding percent-encoded.
pub open spec fn url_char(c: char) -> Seq<char> {
    if url_unreserved(c) {
        seq![c]
    } else {
        percent_all(vstd::utf8::encode_utf8(seq![c]))
    }
}

/// A text escaped for a URL path, character by character.
pub open spec fn url_text(s: Seq<char>) -> Seq<char>
    decreases s.len(),
{
    if s.len() == 0 {
        Seq::empty()
    } else {
        url_text(s.drop_last()) + url_char(s.last())
    }
}

/// Calls `percent_encoding::percent_encode_byte`, which gives `%` and the
/// byte's two uppercase hex digits (from a fixed table).
#[verifier::external_body]
fn percent_byte(b: u8) -> (r: &'static str)
    ensures
        r@ == percent_of(b),
{
    percent_encoding::percent_encode_byte(b)
}

/// Escape a text for a URL path: letters, digits and `-_.~` stay, every
/// other character becomes the percent-encoding of its UTF-8 bytes (what
/// `percent_encoding::utf8_percent_encode` does with that set).
pub fn url_escape(text: &str) -> (r: String)
    ensures
        r@ == url_text(text@),
{
    let n = text.unicode_len();
    let mut out = String::new();
    let mut i: usize = 0;
    while i < n
        invariant
            n == text@.len(),
            i <= n,
            out@ == url_text(text@.take(i as int)),
        decreases n - i,
    {
        let c = text.get_char(i);
        let one = text.substring_char(i, i + 1);
        proof {
            assert(text@.take(i + 1).drop_last() =~= text@.take(i as int));
            assert(one@ =~= seq![c]);
        }
        let unreserved = ('0' <= c && c <= '9') || ('A' <= c && c <= 'Z') || ('a' <= c && c <= 'z')
            || c == '-' || c == '_' || c == '.' || c == '~';
        if unreserved {
            out.append(one);
        } else {
            let bytes = one.as_bytes();
            let ghost before = out@;
            let mut k: usize = 0;
            while k < bytes.len()
                invariant
                    k <= bytes@.len(),
                    bytes@ == one.spec_bytes(),
                    out@ == before + percent_all(bytes@.take(k as int)),
                decreases bytes@.len() - k,
            {
                proof {
                    assert(bytes@.take(k + 1).drop_last() =~= bytes@.take(k as int));
                }
                out.append(percent_byte(bytes[k]));
                proof {
                    assert(out@ =~= before + percent_all(bytes@.take(k + 1)));
                }
                k = k + 1;
            }
            proof {
                assert(bytes@.take(bytes@.len() as int) =~= bytes@);
            }
        }
        proof {
            assert(out@ =~= url_text(text@.take(i + 1)));
        }
        i = i + 1;
    }
    proof {
        assert(text@.take(n as int) =~= text@);
    }
    out
}

/// The URL path segment of a photo's thumbnail: its file name (empty when
/// the path has none) with `.jpg` appended, escaped for a URL.
pub open spec fn thumb_url_text(path: Seq<char>) -> Seq<char> {
    let name = match file_name_of(path) {
        Some(n) => n,
        None => Seq::empty(),
    };
    url_text(name + ".jpg"@)
}

/// The name under which a photo's thumbnail is served.
pub fn thumb_url_name(photo_path: &str) -> (r: String)
    ensures
        r@ == thumb_url_text(photo_path@),
{
    let mut name = match path_file_name(photo_path) {
        Some(n) => n,
        None => String::new(),
    };
    name.append(".jpg");
    proof {
        reveal_strlit(".jpg");
    }
    url_escape(name.as_str())
}

/// The preview of a timeline: the first time, an arrow, and the last time
/// without the first time's date (its first eleven characters) when it
/// shares it; empty for no photos.
pub open spec fn preview_of(times: Seq<Seq<char>>) -> Seq<char> {
    if times.len() == 0 {
        Seq::empty()
    } else {
        let first = times[0];
        let last = times.last();
        let day = first.take(11);
        first + " → "@ + if day.is_prefix_of(last) { last.skip(11) } else { last }
    }
}

/// The time-bar preview of assigned times, e.g.
/// `2026:07:18 10:00:00 → 10:05:10`. The first time's date part is its
/// first eleven bytes, so those must be eleven ASCII characters.
pub fn time_preview(timed: &[TimedPhoto]) -> (r: String)
    requires
        timed@.len() > 0 ==> timed@[0].exif_datetime@.len() >= 11
            && vstd::utf8::is_ascii_chars(timed@[0].exif_datetime@.take(11)),
    ensures
        r@ == preview_of(timed@.map_values(|t: TimedPhoto| t.exif_datetime@)),
{
    let ghost times = timed@.map_values(|t: TimedPhoto| t.exif_datetime@);
    if timed.len() == 0 {
        return String::new();
    }
    let first = timed[0].exif_datetime.as_str();
    let last = timed[timed.len() - 1].exif_datetime.as_str();
    proof {
        assert(times[0] == first@);
        assert(times.last() == last@);
    }
    let last_len = last.unicode_len();
    let mut shares = last_len >= 11;
    let mut k: usize = 0;
    while shares && k < 11
        invariant
            k <= 11,
            first@.len() >= 11,
            last_len == last@.len(),
            shares ==> last@.len() >= 11,
            shares ==> forall|j: int| 0 <= j < k ==> first@[j] == last@[j],
            !shares ==> !first@.take(11).is_prefix_of(last@),
        decreases 11 - k + (if shares { 1int } else { 0int }),
    {
        if first.get_char(k) != last.get_char(k) {
            shares = false;
            proof {
                assert(first@.take(11)[k as int] != last@[k as int]);
            }
        } else {
            k = k + 1;
        }
    }
    let mut out = String::new();
    out.append(first);
    out.append(" → ");
    if shares {
        proof {
            assert(first@.take(11).is_prefix_of(last@));
        }
        out.append(last.substring_char(11, last_len));
    } else {
        out.append(last);
    }
    proof {
        reveal_strlit(" → ");
        assert(out@ =~= preview_of(times));
    }
    out
}

/// The closing lines of a timestamp write: the title, and what was written
/// and verified.
pub open spec fn write_summary_text(written: nat, total: nat, verified: nat, failed: nat, verify_failed: nat)
    -> (Seq<char>, Seq<char>)
{
    let ok = failed == 0 && verify_failed == 0;
    let verify_line = if verify_failed == 0 {
        "verified "@ + counted(verified, "read-back sample"@, "read-back samples"@)
    } else {
        counted(verify_failed, "verification failure"@, "verification failures"@)
    };
    (
        if ok { "Timeline written."@ } else { "Written, with problems"@ },
        decimal(written) + " of "@ + decimal(total) + " photos stamped · "@ + verify_line,
    )
}

/// The title and the summary line shown once a write of `total` photos is
/// done.
pub fn write_summary(report: &ApplyReport, total: usize) -> (r: (String, String))
    ensures
        (r.0@, r.1@) == write_summary_text(report.written as nat, total as nat, report.verified as nat,
            report.failures@.len(), report.verify_failures@.len()),
{
    let ok = report.failures.len() == 0 && report.verify_failures.len() == 0;
    let title = if ok { "Timeline written.".to_owned() } else { "Written, with problems".to_owned() };
    let verify_line = if report.verify_failures.len() == 0 {
        let mut v = "verified ".to_owned();
        let n = plural(report.verified, "read-back sample", "read-back samples");
        v.append(n.as_str());
        v
    } else {
        plural(report.verify_failures.len(), "verification failure", "verification failures")
    };
    let mut line = String::new();
    push_decimal(&mut line, report.written);
    line.append(" of ");
    push_decimal(&mut line, total);
    line.append(" photos stamped · ");
    line.append(verify_line.as_str());
    proof {
        reveal_strlit("Timeline written.");
        reveal_strlit("Written, with problems");
        reveal_strlit("verified ");
        reveal_strlit(" of ");
        reveal_strlit(" photos stamped · ");
        assert(line@ =~= write_summary_text(report.written as nat, total as nat, report.verified as nat,
            report.failures@.len(), report.verify_failures@.len()).1);
    }
    (title, line)
}

// ---------------------------------------------------------------------------
// The light table's rows
// ---------------------------------------------------------------------------

/// What the light table shows for one photo.
pub struct PhotoView {
    /// The photo's path, which identifies its cell.
    pub key: String,
    pub gi: usize,
    pub pi: usize,
    /// The thumbnail's URL: `<thumb_base>/<thumb_url_name>`.
    pub src: String,
    /// The file name shown under the thumbnail.
    pub name: String,
    /// The cell's aspect ratio, as a style.
    pub aspect: String,
    pub selected: bool,
    pub drag_source: bool,
    /// A dragged photo would go in before this one.
    pub insert_before: bool,
}

/// What the light table shows for one group.
pub struct GroupView {
    /// The path of the group's first photo, which identifies its row.
    pub key: String,
    pub gi: usize,
    /// The group's number, counting from one.
    pub index_label: String,
    /// The badge line (`group_meta`).
    pub meta: String,
    pub selected: bool,
    pub drag_source: bool,
    /// A dragged group would merge into this one.
    pub merge_target: bool,
    /// A dragged photo would be appended to this group.
    pub append_active: bool,
    /// A drop would land in the gap above this group.
    pub gap_above_active: bool,
    pub photos: Vec<PhotoView>,
}

/// The name shown for a photo: its file name, or the whole path when it
/// has none.
pub open spec fn shown_name(path: Seq<char>) -> Seq<char> {
    match file_name_of(path) {
        Some(n) => n,
        None => path,
    }
}

/// At least one.
pub open spec fn at_least_one(n: u32) -> nat {
    if n == 0 { 1 } else { n as nat }
}

/// The view of photo `pi` of group `gi`.
pub open spec fn photo_view_ok(v: PhotoView, p: Photo, gi: usize, pi: usize, thumb_base: Seq<char>,
    selection: Seq<Sel>, hover: Option<Hover>, dragging: Option<Sel>) -> bool
{
    &&& v.key@ == p.path@
    &&& v.gi == gi && v.pi == pi
    &&& v.src@ == thumb_base + "/"@ + thumb_url_text(p.path@)
    &&& v.name@ == shown_name(p.path@)
    &&& v.aspect@ == "aspect-ratio: "@ + decimal(at_least_one(p.width)) + " / "@ + decimal(at_least_one(p.height))
    &&& v.selected == selection.contains(Sel::Photo(gi, pi))
    &&& v.drag_source == (dragging == Some(Sel::Photo(gi, pi)))
    &&& v.insert_before == (hover == Some(Hover::Slot(gi, pi)))
}

/// The view of group `gi`.
pub open spec fn group_view_ok(v: GroupView, photos: Seq<Photo>, gi: usize, bw: Seq<Seq<char>>, thumb_base: Seq<char>,
    selection: Seq<Sel>, hover: Option<Hover>, dragging: Option<Sel>) -> bool
{
    &&& v.key@ == photos[0].path@
    &&& v.gi == gi
    &&& v.index_label@ == decimal(gi as nat + 1)
    &&& v.meta@ == badge(photos, bw)
    &&& v.selected == selection.contains(Sel::Group(gi))
    &&& v.drag_source == (dragging == Some(Sel::Group(gi)))
    &&& v.merge_target == (hover == Some(Hover::OnGroup(gi)))
    &&& v.append_active == (hover == Some(Hover::Slot(gi, usize::MAX)))
    &&& v.gap_above_active == (hover == Some(Hover::Gap(gi)))
    &&& v.photos@.len() == photos.len()
    &&& forall|k: int| 0 <= k < photos.len() ==> photo_view_ok(#[trigger] v.photos@[k], photos[k], gi, k as usize,
            thumb_base, selection, hover, dragging)
}

fn contains_sel(selection: &[Sel], item: Sel) -> (r: bool)
    ensures
        r == selection@.contains(item),
{
    let mut i: usize = 0;
    while i < selection.len()
        invariant
            i <= selection.len(),
            forall|j: int| 0 <= j < i ==> selection@[j] != item,
        decreases selection.len() - i,
    {
        if selection[i] == item {
            assert(selection@[i as int] == item);
            return true;
        }
        i = i + 1;
    }
    false
}

fn photo_view(p: &Photo, gi: usize, pi: usize, thumb_base: &str, selection: &[Sel], hover: Option<Hover>,
    dragging: Option<Sel>) -> (v: PhotoView)
    ensures
        photo_view_ok(v, *p, gi, pi, thumb_base@, selection@, hover, dragging),
{
    let mut src = thumb_base.to_owned();
    src.append("/");
    let url = thumb_url_name(p.path.as_str());
    src.append(url.as_str());
    let name = match path_file_name(p.path.as_str()) {
        Some(n) => n,
        None => p.path.clone(),
    };
    let mut aspect = "aspect-ratio: ".to_owned();
    push_decimal(&mut aspect, if p.width == 0 { 1 } else { p.width as usize });
    aspect.append(" / ");
    push_decimal(&mut aspect, if p.height == 0 { 1 } else { p.height as usize });
    proof {
        reveal_strlit("/");
        reveal_strlit("aspect-ratio: ");
        reveal_strlit(" / ");
        assert(src@ =~= thumb_base@ + "/"@ + thumb_url_text(p.path@));
        assert(aspect@ =~= "aspect-ratio: "@ + decimal(at_least_one(p.width)) + " / "@ + decimal(at_least_one(p.height)));
    }
    PhotoView {
        key: p.path.clone(),
        gi,
        pi,
        src,
        name,
        aspect,
        selected: contains_sel(selection, Sel::Photo(gi, pi)),
        drag_source: dragging == Some(Sel::Photo(gi, pi)),
        insert_before: hover == Some(Hover::Slot(gi, pi)),
    }
}

/// The rows of the light table: one view per group, in order, each with a
/// view per photo. `bw` lists the paths found to be black and white,
/// `thumb_base` is the URL prefix the thumbnails are served under.
pub fn build_views(arr: &Arrangement, bw: &[String], thumb_base: &str, selection: &[Sel], hover: Option<Hover>,
    dragging: Option<Sel>) -> (r: Vec<GroupView>)
    requires
        crate::arrange::no_empty_groups(arr@),
    ensures
        r@.len() == arr@.len(),
        forall|g: int| 0 <= g < arr@.len() ==> group_view_ok(#[trigger] r@[g], arr@[g], g as usize,
            bw@.map_values(|s: String| s@), thumb_base@, selection@, hover, dragging),
{
    let ghost bws = bw@.map_values(|s: String| s@);
    let mut rows: Vec<GroupView> = Vec::new();
    let mut gi: usize = 0;
    while gi < arr.groups.len()
        invariant
            gi <= arr.groups.len(),
            crate::arrange::no_empty_groups(arr@),
            bws == bw@.map_values(|s: String| s@),
            rows@.len() == gi,
            forall|g: int| 0 <= g < gi ==> group_view_ok(#[trigger] rows@[g], arr@[g], g as usize, bws,
                thumb_base@, selection@, hover, dragging),
        decreases arr.groups.len() - gi,
    {
        let group = &arr.groups[gi];
        assert(group.photos@ == arr@[gi as int]);
        assert(arr@[gi as int].len() > 0);
        let mut photos: Vec<PhotoView> = Vec::new();
        let mut pi: usize = 0;
        while pi < group.photos.len()
            invariant
                gi < arr.groups.len(),
                group.photos@ == arr@[gi as int],
                pi <= group.photos.len(),
                photos@.len() == pi,
                forall|k: int| 0 <= k < pi ==> photo_view_ok(#[trigger] photos@[k], arr@[gi as int][k], gi, k as usize,
                    thumb_base@, selection@, hover, dragging),
            decreases group.photos.len() - pi,
        {
            let v = photo_view(&group.photos[pi], gi, pi, thumb_base, selection, hover, dragging);
            photos.push(v);
            pi = pi + 1;
        }
        assert(arr@.len() == arr.groups@.len());
        let mut label = String::new();
        push_decimal(&mut label, gi + 1);
        let row = GroupView {
            key: group.photos[0].path.clone(),
            gi,
            index_label: label,
            meta: group_meta(group, bw),
            selected: contains_sel(selection, Sel::Group(gi)),
            drag_source: dragging == Some(Sel::Group(gi)),
            merge_target: hover == Some(Hover::OnGroup(gi)),
            append_active: hover == Some(Hover::Slot(gi, usize::MAX)),
            gap_above_active: hover == Some(Hover::Gap(gi)),
            photos,
        };
        rows.push(row);
        proof {
            assert(label@ =~= decimal(gi as nat + 1));
        }
        gi = gi + 1;
    }
    rows
}

} // verus!
