//! Capture-time writing: the decisions around it. Reading and writing the
//! EXIF block itself is done by the caller, which hands each result back.
use vstd::prelude::*;
use crate::timeline::TimedPhoto;

verus! {

#[verifier::external_type_specification]
#[verifier::external_body]
pub struct ExIoError(std::io::Error);

/// `needle` occurs in `hay` at position `i`.
pub open spec fn occurs_at(hay: Seq<char>, needle: Seq<char>, i: int) -> bool {
    0 <= i && i + needle.len() <= hay.len() && hay.subrange(i, i + needle.len()) == needle
}

/// `needle` occurs somewhere in `hay`.
pub open spec fn contains_text(hay: Seq<char>, needle: Seq<char>) -> bool {
    exists|i: int| #[trigger] occurs_at(hay, needle, i)
}

/// Whether `needle` occurs in `hay`.
pub fn text_contains(hay: &str, needle: &str) -> (r: bool)
    ensures
        r == contains_text(hay@, needle@),
{
    let n = hay.unicode_len();
    let m = needle.unicode_len();
    if m > n {
        proof {
            assert forall|i: int| !#[trigger] occurs_at(hay@, needle@, i) by {}
        }
        return false;
    }
    let mut i: usize = 0;
    while i <= n - m
        invariant
            n == hay@.len(),
            m == needle@.len(),
            m <= n,
            i <= n - m + 1,
            forall|j: int| 0 <= j < i ==> !#[trigger] occurs_at(hay@, needle@, j),
        decreases n - m + 1 - i,
    {
        let mut k: usize = 0;
        let mut same = true;
        assert(hay@.subrange(i as int, i as int) =~= needle@.take(0));
        while k < m
            invariant
                n == hay@.len(),
                m == needle@.len(),
                i + m <= n,
                k <= m,
                same == (hay@.subrange(i as int, i + k) == needle@.take(k as int)),
            decreases m - k,
        {
            if same {
                let c = hay.get_char(i + k);
                let d = needle.get_char(k);
                proof {
                    assert(hay@.subrange(i as int, i + k + 1) =~= hay@.subrange(i as int, i + k).push(c));
                    assert(needle@.take(k + 1) =~= needle@.take(k as int).push(d));
                }
                if c != d {
                    proof {
                        assert(hay@.subrange(i as int, i + k + 1).last() != needle@.take(k + 1).last());
                    }
                    same = false;
                }
            } else {
                proof {
                    assert(hay@.subrange(i as int, i + k + 1).take(k as int) =~= hay@.subrange(i as int, i + k));
                    assert(needle@.take(k + 1).take(k as int) =~= needle@.take(k as int));
                }
            }
            k = k + 1;
        }
        proof {
            assert(needle@.take(m as int) =~= needle@);
        }
        if same {
            assert(occurs_at(hay@, needle@, i as int));
            return true;
        }
        if i == n - m {
            proof {
                assert forall|j: int| !#[trigger] occurs_at(hay@, needle@, j) by {
                    if 0 <= j <= i {
                        if j == i {
                            assert(hay@.subrange(i as int, i + m) != needle@);
                        }
                    }
                }
            }
            return false;
        }
        i = i + 1;
    }
    proof {
        assert forall|j: int| !#[trigger] occurs_at(hay@, needle@, j) by {
            if 0 <= j < i {
            }
        }
    }
    false
}

/// Whether an EXIF read error message says the file simply has no EXIF
/// data (JPEG: "No EXIF data found", PNG: "No metadata found"); only then
/// may a fresh EXIF block replace the old one.
pub fn mentions_missing_exif(msg: &str) -> (r: bool)
    ensures
        r == (contains_text(msg@, "No EXIF data found"@) || contains_text(msg@, "No metadata found"@)),
{
    text_contains(msg, "No EXIF data found") || text_contains(msg, "No metadata found")
}

/// Does this read error mean "the file has no EXIF"? Decided from its
/// message (`to_string`), as `mentions_missing_exif` states; the message
/// text itself comes from the standard library.
pub fn is_no_exif_error(e: &std::io::Error) -> (r: bool)
    ensures
        exists|msg: String| vstd::string::to_string_from_display_ensures::<std::io::Error>(e, msg)
            && r == mentions_missing_exif_spec(msg@),
{
    let msg = e.to_string();
    mentions_missing_exif(msg.as_str())
}

/// The rule of `mentions_missing_exif`.
pub open spec fn mentions_missing_exif_spec(msg: Seq<char>) -> bool {
    contains_text(msg, "No EXIF data found"@) || contains_text(msg, "No metadata found"@)
}

/// The failures among `outcomes` of writing `timed`: each photo whose write
/// failed, with the failure message, in order.
pub open spec fn failures_of(timed: Seq<TimedPhoto>, outcomes: Seq<Result<(), String>>) -> Seq<(Seq<char>, Seq<char>)>
    decreases timed.len(),
{
    if timed.len() == 0 || outcomes.len() == 0 {
        Seq::empty()
    } else {
        let rest = failures_of(timed.drop_last(), outcomes.drop_last());
        match outcomes.last() {
            Ok(_) => rest,
            Err(msg) => rest.push((timed.last().path@, msg@)),
        }
    }
}

/// The text pairs of a failure list.
pub open spec fn failure_texts(f: Seq<(String, String)>) -> Seq<(Seq<char>, Seq<char>)> {
    f.map_values(|p: (String, String)| (p.0@, p.1@))
}

/// Write every timestamp with `write` (one call per photo, in order, each
/// made whatever the earlier ones returned) and return the photos that
/// failed, with their messages.
pub fn write_all<F: Fn(&TimedPhoto) -> Result<(), String>>(timed: &[TimedPhoto], write: F) -> (failures: Vec<(String, String)>)
    requires
        forall|k: int| 0 <= k < timed@.len() ==> call_requires(write, (&timed@[k],)),
    ensures
        exists|outcomes: Seq<Result<(), String>>| {
            &&& outcomes.len() == timed@.len()
            &&& forall|k: int| 0 <= k < timed@.len() ==> call_ensures(write, (&timed@[k],), #[trigger] outcomes[k])
            &&& failure_texts(failures@) == failures_of(timed@, outcomes)
        },
{
    let mut failures: Vec<(String, String)> = Vec::new();
    let ghost mut outcomes: Seq<Result<(), String>> = Seq::empty();
    let mut k: usize = 0;
    while k < timed.len()
        invariant
            k <= timed@.len(),
            forall|j: int| 0 <= j < timed@.len() ==> call_requires(write, (&timed@[j],)),
            outcomes.len() == k,
            forall|j: int| 0 <= j < k ==> call_ensures(write, (&timed@[j],), #[trigger] outcomes[j]),
            failure_texts(failures@) == failures_of(timed@.take(k as int), outcomes),
        decreases timed@.len() - k,
    {
        let t = &timed[k];
        let result = write(t);
        proof {
            assert(timed@.take(k + 1).drop_last() =~= timed@.take(k as int));
            assert(outcomes.push(result).drop_last() =~= outcomes);
        }
        match &result {
            Ok(_) => {},
            Err(msg) => {
                let ghost before = failures@;
                failures.push((t.path.clone(), msg.clone()));
                proof {
                    assert(failure_texts(failures@) =~= failure_texts(before).push((t.path@, msg@)));
                }
            },
        }
        proof {
            outcomes = outcomes.push(result);
        }
        k = k + 1;
    }
    proof {
        assert(timed@.take(k as int) =~= timed@);
    }
    failures
}

/// The text without its trailing NUL characters (read-back values may be
/// NUL-padded).
pub open spec fn without_trailing_nul(v: Seq<char>) -> Seq<char>
    decreases v.len(),
{
    if v.len() > 0 && v.last() == '\0' { without_trailing_nul(v.drop_last()) } else { v }
}

/// Strip trailing NUL padding from an EXIF text value.
pub fn trim_trailing_nul(v: &str) -> (r: String)
    ensures
        r@ == without_trailing_nul(v@),
{
    let n = v.unicode_len();
    let mut k = n;
    proof {
        assert(v@.take(n as int) =~= v@);
    }
    while k > 0 && v.get_char(k - 1) == '\0'
        invariant
            n == v@.len(),
            k <= n,
            without_trailing_nul(v@) == without_trailing_nul(v@.take(k as int)),
        decreases k,
    {
        proof {
            assert(v@.take(k as int).drop_last() =~= v@.take(k - 1));
        }
        k = k - 1;
    }
    proof {
        if k > 0 {
            assert(v@.take(k as int).last() == v@[k - 1]);
        }
    }
    v.substring_char(0, k).to_owned()
}

} // verus!
