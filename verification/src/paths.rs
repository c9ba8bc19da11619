//! Path handling. Paths are UTF-8 strings; the operations that depend on
//! how the standard library splits a path into components are delegated to
//! `std::path` and described here by what they return.
use vstd::prelude::*;

verus! {

/// The path separator.
pub open spec fn sep() -> char {
    '/'
}

/// `base` joined with `rest` as `Path::join` does on Unix: an absolute
/// `rest` replaces `base`; otherwise a separator is inserted unless `base`
/// is empty or already ends with one.
pub open spec fn joined_path(base: Seq<char>, rest: Seq<char>) -> Seq<char> {
    if rest.len() > 0 && rest[0] == sep() {
        rest
    } else if base.len() > 0 && base.last() != sep() {
        base + seq![sep()] + rest
    } else {
        base + rest
    }
}

/// Joins two paths with `std::path::Path::join`; the contract restates the
/// documented Unix behaviour of `PathBuf::push` (absolute `rest` replaces,
/// otherwise one separator between the parts).
#[verifier::external_body]
pub(crate) fn path_join(base: &str, rest: &str) -> (r: String)
    ensures
        r@ == joined_path(base@, rest@),
{
    std::path::Path::new(base).join(rest).to_string_lossy().into_owned()
}

/// The final component of a path as `Path::file_name` reports it (`None`
/// for a path ending in `..`, for the root, and for the empty path).
pub uninterp spec fn file_name_of(path: Seq<char>) -> Option<Seq<char>>;

/// Calls `std::path::Path::file_name`; the result is named by
/// `file_name_of`, a function of the path text alone.
#[verifier::external_body]
pub(crate) fn path_file_name(path: &str) -> (r: Option<String>)
    ensures
        r matches Some(n) ==> file_name_of(path@) == Some(n@),
        r is None ==> file_name_of(path@) is None,
{
    std::path::Path::new(path).file_name().map(|n| n.to_string_lossy().into_owned())
}

/// The extension of a path as `Path::extension` reports it (the part of the
/// file name after its last dot, if that dot is not the first character).
pub uninterp spec fn extension_of(path: Seq<char>) -> Option<Seq<char>>;

/// Calls `std::path::Path::extension`; the result is named by
/// `extension_of`, a function of the path text alone.
#[verifier::external_body]
pub(crate) fn path_extension(path: &str) -> (r: Option<String>)
    ensures
        r matches Some(e) ==> extension_of(path@) == Some(e@),
        r is None ==> extension_of(path@) is None,
{
    std::path::Path::new(path).extension().map(|e| e.to_string_lossy().into_owned())
}

/// The text split at every `/` (empty parts included; one part for a text
/// without `/`).
pub open spec fn slash_parts(s: Seq<char>) -> Seq<Seq<char>>
    decreases s.len(),
{
    if s.len() == 0 {
        seq![Seq::empty()]
    } else if s.last() == sep() {
        slash_parts(s.drop_last()).push(Seq::empty())
    } else {
        let p = slash_parts(s.drop_last());
        p.update(p.len() - 1, p.last().push(s.last()))
    }
}

/// A part that names something: neither empty nor `.`.
pub open spec fn named_part(p: Seq<char>) -> bool {
    p.len() > 0 && p != seq!['.']
}

/// The components of a Unix path as `Path::components` yields them: the
/// root `/` when the path starts with one, or `.` when a relative path
/// starts with a `.` part; then every part that is neither empty nor `.`
/// (repeated and trailing separators, and interior `.`, are normalised
/// away; `..` stays).
pub open spec fn components(s: Seq<char>) -> Seq<Seq<char>> {
    let head: Seq<Seq<char>> = if s.len() > 0 && s[0] == sep() {
        seq![seq![sep()]]
    } else if slash_parts(s)[0] == seq!['.'] {
        seq![seq!['.']]
    } else {
        Seq::empty()
    };
    head + slash_parts(s).filter(|p: Seq<char>| named_part(p))
}

/// Whether two paths are equal as `std::path::Path` values, which compare
/// their components (so `a//b`, `a/./b/` and `a/b` are the same path).
pub open spec fn same_path(a: Seq<char>, b: Seq<char>) -> bool {
    components(a) == components(b)
}

/// Calls `<Path as PartialEq>::eq`, which compares the two paths'
/// `components()`; the contract states that comparison (`same_path`).
#[verifier::external_body]
pub(crate) fn path_eq(a: &str, b: &str) -> (r: bool)
    ensures
        r == same_path(a@, b@),
{
    std::path::Path::new(a) == std::path::Path::new(b)
}

/// Whether `a` sorts strictly before `b` in the component-wise order of
/// `std::path::Path`.
pub uninterp spec fn path_precedes(a: Seq<char>, b: Seq<char>) -> bool;

/// Calls `<Path as PartialOrd>::lt`. `Path`'s order is a total order (as its
/// `Ord` implementation documents), so `a < b` rules out `b < a`; the
/// contract states that much and names the rest `path_precedes`.
#[verifier::external_body]
pub(crate) fn path_lt(a: &str, b: &str) -> (r: bool)
    ensures
        r == path_precedes(a@, b@),
        r ==> !path_precedes(b@, a@),
{
    std::path::Path::new(a) < std::path::Path::new(b)
}

/// ASCII lower-case of a character (other characters unchanged).
pub open spec fn ascii_lower(c: char) -> char {
    if 'A' <= c <= 'Z' { ((c as u32) + 32) as char } else { c }
}

/// The texts are equal up to ASCII case, as `str::eq_ignore_ascii_case`
/// compares them.
pub open spec fn same_ignoring_ascii_case(a: Seq<char>, b: Seq<char>) -> bool {
    a.len() == b.len() && forall|i: int| 0 <= i < a.len() ==> ascii_lower(#[trigger] a[i]) == ascii_lower(b[i])
}

fn lower_char(c: char) -> (r: char)
    ensures
        r == ascii_lower(c),
{
    if 'A' <= c && c <= 'Z' {
        ((c as u32) + 32) as u8 as char
    } else {
        c
    }
}

/// Whether two texts are equal up to ASCII case.
pub fn eq_ignore_ascii_case(a: &str, b: &str) -> (r: bool)
    ensures
        r == same_ignoring_ascii_case(a@, b@),
{
    let n = a.unicode_len();
    if n != b.unicode_len() {
        return false;
    }
    let mut i: usize = 0;
    while i < n
        invariant
            n == a@.len(),
            n == b@.len(),
            i <= n,
            forall|j: int| 0 <= j < i ==> ascii_lower(#[trigger] a@[j]) == ascii_lower(b@[j]),
        decreases n - i,
    {
        if lower_char(a.get_char(i)) != lower_char(b.get_char(i)) {
            return false;
        }
        i = i + 1;
    }
    true
}

/// The path has an extension equal, up to ASCII case, to one of `allowed`.
pub open spec fn extension_among(path: Seq<char>, allowed: Seq<Seq<char>>) -> bool {
    extension_of(path) matches Some(e)
        && exists|i: int| 0 <= i < allowed.len() && same_ignoring_ascii_case(e, #[trigger] allowed[i])
}

/// Case-insensitive extension test: the single place file types are
/// matched.
pub fn has_extension(path: &str, allowed: &[&str]) -> (r: bool)
    ensures
        r == extension_among(path@, allowed@.map_values(|a: &str| a@)),
{
    let ghost al = allowed@.map_values(|a: &str| a@);
    match path_extension(path) {
        None => false,
        Some(ext) => {
            let mut i: usize = 0;
            while i < allowed.len()
                invariant
                    al == allowed@.map_values(|a: &str| a@),
                    i <= allowed@.len(),
                    extension_of(path@) == Some(ext@),
                    forall|j: int| 0 <= j < i ==> !same_ignoring_ascii_case(ext@, #[trigger] al[j]),
                decreases allowed@.len() - i,
            {
                if eq_ignore_ascii_case(ext.as_str(), allowed[i]) {
                    assert(same_ignoring_ascii_case(ext@, al[i as int]));
                    return true;
                }
                i = i + 1;
            }
            false
        },
    }
}

/// A photo file: extension `jpg`, `jpeg` or `png`, any case.
pub fn is_photo_path(path: &str) -> (r: bool)
    ensures
        r == extension_among(path@, seq!["jpg"@, "jpeg"@, "png"@]),
{
    let allowed = ["jpg", "jpeg", "png"];
    let r = has_extension(path, allowed.as_slice());
    proof {
        assert(allowed@.map_values(|a: &str| a@) =~= seq!["jpg"@, "jpeg"@, "png"@]);
    }
    r
}

/// A JPEG file: extension `jpg` or `jpeg`, any case (the files a scaled
/// decode can handle).
pub fn is_jpeg_path(path: &str) -> (r: bool)
    ensures
        r == extension_among(path@, seq!["jpg"@, "jpeg"@]),
{
    let allowed = ["jpg", "jpeg"];
    let r = has_extension(path, allowed.as_slice());
    proof {
        assert(allowed@.map_values(|a: &str| a@) =~= seq!["jpg"@, "jpeg"@]);
    }
    r
}

/// The photo files among directory entries, sorted by path (a stable
/// insertion sort by `Path` order).
pub fn select_photo_paths(entries: &Vec<String>) -> (r: Vec<String>)
    ensures
        r@.map_values(|s: String| s@).to_multiset()
            =~= entries@.map_values(|s: String| s@).filter(|p: Seq<char>| extension_among(p, seq!["jpg"@, "jpeg"@, "png"@])).to_multiset(),
        forall|k: int| 0 <= k < r@.len() - 1 ==> !path_precedes(#[trigger] r@[k + 1]@, r@[k]@),
{
    let ghost pred = |p: Seq<char>| extension_among(p, seq!["jpg"@, "jpeg"@, "png"@]);
    let ghost ev = entries@.map_values(|s: String| s@);
    let mut out: Vec<String> = Vec::new();
    let mut i: usize = 0;
    proof {
        assert(ev.take(0) =~= Seq::<Seq<char>>::empty());
        reveal_with_fuel(Seq::filter, 1);
        assert(ev.take(0).filter(pred) =~= Seq::<Seq<char>>::empty());
        assert(out@.map_values(|s: String| s@) =~= Seq::<Seq<char>>::empty());
    }
    while i < entries.len()
        invariant
            i <= entries@.len(),
            ev == entries@.map_values(|s: String| s@),
            pred == (|p: Seq<char>| extension_among(p, seq!["jpg"@, "jpeg"@, "png"@])),
            out@.map_values(|s: String| s@).to_multiset() =~= ev.take(i as int).filter(pred).to_multiset(),
            forall|k: int| 0 <= k < out@.len() - 1 ==> !path_precedes(#[trigger] out@[k + 1]@, out@[k]@),
        decreases entries@.len() - i,
    {
        proof {
            assert(ev.take(i + 1) =~= ev.take(i as int).push(ev[i as int]));
            ev.take(i as int).lemma_filter_push(ev[i as int], pred);
        }
        if is_photo_path(entries[i].as_str()) {
            let item = entries[i].clone();
            let mut p = out.len();
            while p > 0 && path_lt(item.as_str(), out[p - 1].as_str())
                invariant
                    p <= out@.len(),
                    forall|q: int| p <= q < out@.len() ==> path_precedes(item@, #[trigger] out@[q]@)
                        && !path_precedes(out@[q]@, item@),
                decreases p,
            {
                p = p - 1;
            }
            let ghost before = out@;
            let ghost iv = item@;
            out.insert(p, item);
            proof {
                before.insert_ensures(p as int, out@[p as int]);
                let bv = before.map_values(|s: String| s@);
                assert(out@.map_values(|s: String| s@) =~= bv.insert(p as int, iv));
                vstd::seq_lib::to_multiset_insert(bv, p as int, iv);
                vstd::seq_lib::to_multiset_build(ev.take(i as int).filter(pred), iv);
                assert forall|k: int| 0 <= k < out@.len() - 1 implies !path_precedes(#[trigger] out@[k + 1]@, out@[k]@) by {
                    if k + 1 < p {
                        assert(out@[k] == before[k] && out@[k + 1] == before[k + 1]);
                    } else if k + 1 == p {
                        assert(out@[k] == before[k]);
                    } else if k == p {
                        assert(out@[k + 1] == before[k]);
                    } else {
                        assert(out@[k] == before[k - 1] && out@[k + 1] == before[k]);
                    }
                }
            }
        }
        i = i + 1;
    }
    proof {
        assert(ev.take(i as int) =~= ev);
    }
    out
}

} // verus!
