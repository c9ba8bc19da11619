//! Assign sequential capture times to an ordered arrangement.
//!
//! Instants are whole seconds on the naive (time-zone-free) clock, counted
//! from 1970-01-01 00:00:00. Calendar formatting is delegated to `chrono`.
use vstd::prelude::*;
use std::fmt::Write;
use crate::{Arrangement, Photo};
use crate::arrange::no_empty_groups;

verus! {

/// Spacing between assigned times: groups a minute apart, variants ten
/// seconds apart within a group by default.
#[derive(Debug, Clone, Copy, PartialEq, Eq, Structural)]
pub struct Spacing {
    pub between_groups_secs: i64,
    pub within_group_secs: i64,
}

impl Default for Spacing {
    fn default() -> (s: Self)
        ensures
            s.between_groups_secs == 60,
            s.within_group_secs == 10,
    {
        Spacing { between_groups_secs: 60, within_group_secs: 10 }
    }
}

/// One photo with its assigned capture time.
#[derive(Debug, Clone, PartialEq, Eq)]
pub struct TimedPhoto {
    pub path: String,
    /// EXIF-format timestamp, e.g. "2026:07:18 10:03:20".
    pub exif_datetime: String,
}

/// The layout of EXIF date-time values, e.g. `2026:07:18 10:03:20`.
pub const EXIF_LAYOUT: &'static str = "%Y:%m:%d %H:%M:%S";

/// The text `chrono` writes in a `strftime` layout for the instant `secs`
/// seconds and `nanos` nanoseconds after 1970-01-01 00:00:00 (nanoseconds
/// from 10^9 on mark a leap second, written as second 60), or `None` when
/// `chrono` has no such instant or cannot write the layout.
pub uninterp spec fn instant_text(secs: i64, nanos: u32, layout: Seq<char>) -> Option<Seq<char>>;

/// The EXIF text of an instant (`EXIF_LAYOUT`).
pub open spec fn exif_text(secs: i64) -> Option<Seq<char>> {
    instant_text(secs, 0, EXIF_LAYOUT@)
}

/// The EXIF text of the leap second that follows second `secs` (which ends
/// a minute), written as second 60.
pub open spec fn leap_exif_text(secs: i64) -> Option<Seq<char>> {
    instant_text(secs, 1_000_000_000, EXIF_LAYOUT@)
}

/// A point on the naive clock: whole seconds after 1970-01-01 00:00:00,
/// or the leap second that follows second `secs`.
#[derive(Debug, Clone, Copy, PartialEq, Eq, Structural)]
pub struct Instant {
    pub secs: i64,
    pub leap: bool,
}

/// Formats an instant: `chrono::DateTime::from_timestamp(secs, nanos)`
/// (`None` outside chrono's range, or for a leap second not ending a
/// minute), then its naive date-time written with `format(layout)` (`None`
/// when writing fails on a bad layout). The text is named `instant_text`.
#[verifier::external_body]
pub(crate) fn format_instant(secs: i64, nanos: u32, layout: &str) -> (r: Option<String>)
    ensures
        match r {
            Some(s) => instant_text(secs, nanos, layout@) == Some(s@),
            None => instant_text(secs, nanos, layout@) is None,
        },
{
    match chrono::DateTime::from_timestamp(secs, nanos) {
        Some(dt) => {
            let mut s = String::new();
            match write!(s, "{}", dt.naive_utc().format(layout)) {
                Ok(()) => Some(s),
                Err(_) => None,
            }
        },
        None => None,
    }
}

/// A step of this many seconds can be made into a `chrono` duration.
pub open spec fn step_ok(secs: int) -> bool {
    -(i64::MAX / 1000) <= secs <= i64::MAX / 1000
}

/// An instant `chrono` can represent.
pub open spec fn instant_ok(t: int) -> bool {
    i64::MIN <= t <= i64::MAX && exif_text(t as i64) is Some
}

/// The times of a group of `len` photos starting at `t`, `within` apart,
/// and the instant after its last photo; `None` when a step leaves the
/// representable range.
pub open spec fn group_times(len: nat, t: int, within: int) -> Option<(Seq<int>, int)>
    decreases len,
{
    if len == 0 {
        Some((Seq::empty(), t))
    } else if !step_ok(within) || !instant_ok(t + within) {
        None
    } else {
        match group_times((len - 1) as nat, t + within, within) {
            Some(rest) => Some((seq![t] + rest.0, rest.1)),
            None => None,
        }
    }
}

/// The times of every photo of groups with the given sizes: each group
/// starts `between - within` after the instant following the previous
/// group's last photo, i.e. `between` after that last photo.
pub open spec fn schedule(lens: Seq<nat>, start: int, sp: Spacing) -> Option<Seq<int>>
    decreases lens.len(),
{
    if lens.len() == 0 {
        Some(Seq::empty())
    } else {
        match group_times(lens[0], start, sp.within_group_secs as int) {
            None => None,
            Some(g) => {
                let gap = sp.between_groups_secs - sp.within_group_secs;
                if !(i64::MIN <= gap <= i64::MAX) || !step_ok(gap) || !instant_ok(g.1 + gap) {
                    None
                } else {
                    match schedule(lens.drop_first(), g.1 + gap, sp) {
                        Some(rest) => Some(g.0 + rest),
                        None => None,
                    }
                }
            },
        }
    }
}

/// The group sizes of an arrangement.
pub open spec fn group_sizes(s: Seq<Seq<Photo>>) -> Seq<nat> {
    s.map_values(|g: Seq<Photo>| g.len())
}

/// `out` pairs each photo of `photos` with the EXIF text of its time.
pub open spec fn timed_as(out: Seq<TimedPhoto>, photos: Seq<Photo>, times: Seq<int>) -> bool {
    &&& out.len() == photos.len()
    &&& times.len() == photos.len()
    &&& forall|k: int| 0 <= k < out.len() ==> (#[trigger] out[k]).path@ == photos[k].path@
        && exif_text(times[k] as i64) == Some(out[k].exif_datetime@)
}

/// Walk the arrangement in order and assign a timestamp to every photo;
/// `None` when some instant of the walk falls outside the representable
/// range or a spacing is out of bounds for a duration.
pub fn try_assign_times(arrangement: &Arrangement, start: i64, spacing: Spacing) -> (r: Option<Vec<TimedPhoto>>)
    ensures
        r is Some <==> instant_ok(start as int) && schedule(group_sizes(arrangement@), start as int, spacing) is Some,
        r matches Some(out) ==> timed_as(out@, arrangement@.flatten(),
            schedule(group_sizes(arrangement@), start as int, spacing)->Some_0),
{
    let ghost s = arrangement@;
    let ghost lens = group_sizes(s);
    let within = spacing.within_group_secs;
    let mut text = match format_instant(start, 0, EXIF_LAYOUT) {
        Some(t) => t,
        None => {
            return None;
        },
    };
    let mut out: Vec<TimedPhoto> = Vec::new();
    let mut group_start = start;
    let ghost mut done: Seq<int> = Seq::empty();
    let mut gi: usize = 0;
    let ng = arrangement.groups.len();
    proof {
        assert(lens.skip(0) =~= lens);
        assert(s.take(0).flatten() =~= Seq::<Photo>::empty());
    }
    while gi < ng
        invariant
            s == arrangement@,
            lens == group_sizes(s),
            ng == s.len(),
            within == spacing.within_group_secs,
            gi <= ng,
            exif_text(group_start) == Some(text@),
            schedule(lens, start as int, spacing) == (match schedule(lens.skip(gi as int), group_start as int, spacing) {
                Some(rest) => Some(done + rest),
                None => None::<Seq<int>>,
            }),
            timed_as(out@, s.take(gi as int).flatten(), done),
        decreases ng - gi,
    {
        let photos = &arrangement.groups[gi].photos;
        let ghost len = lens[gi as int];
        let mut t = group_start;
        let ghost mut gdone: Seq<int> = Seq::empty();
        let mut p: usize = 0;
        proof {
            assert(photos@ == s[gi as int]);
            assert(len == photos@.len());
            assert(lens.skip(gi as int)[0] == lens[gi as int]);
            assert(group_times((len - 0) as nat, group_start as int, within as int) == group_times(len, group_start as int, within as int));
            assert forall|x: Seq<int>| Seq::<int>::empty() + x =~= x by {}
        }
        while p < photos.len()
            invariant
                s == arrangement@,
                lens == group_sizes(s),
                ng == s.len(),
                gi < ng,
                within == spacing.within_group_secs,
                photos@ == s[gi as int],
                len == photos@.len(),
                lens.skip(gi as int).len() > 0,
                lens.skip(gi as int)[0] == len,
                schedule(lens, start as int, spacing) == (match schedule(lens.skip(gi as int), group_start as int, spacing) {
                    Some(rest) => Some(done + rest),
                    None => None::<Seq<int>>,
                }),
                p <= photos@.len(),
                exif_text(t) == Some(text@),
                group_times(len, group_start as int, within as int) == (match group_times((len - p) as nat, t as int, within as int) {
                    Some(rest) => Some((gdone + rest.0, rest.1)),
                    None => None::<(Seq<int>, int)>,
                }),
                timed_as(out@, s.take(gi as int).flatten() + photos@.take(p as int), done + gdone),
            decreases photos@.len() - p,
        {
            let ghost old_out = out@;
            let ghost prefix = s.take(gi as int).flatten() + photos@.take(p as int);
            let path = photos[p].path.clone();
            out.push(TimedPhoto { path, exif_datetime: text });
            proof {
                let np = s.take(gi as int).flatten() + photos@.take(p + 1);
                assert(photos@.take(p + 1) =~= photos@.take(p as int).push(photos@[p as int]));
                assert(np =~= prefix.push(photos@[p as int]));
                assert forall|k: int| 0 <= k < out@.len() implies (#[trigger] out@[k]).path@ == np[k].path@
                    && exif_text((done + gdone.push(t as int))[k] as i64) == Some(out@[k].exif_datetime@) by {
                    if k < old_out.len() {
                        assert(out@[k] == old_out[k]);
                        assert((done + gdone.push(t as int))[k] == (done + gdone)[k]);
                    }
                }
                assert(done + gdone.push(t as int) =~= (done + gdone).push(t as int));
            }
            if within < -(i64::MAX / 1000) || within > i64::MAX / 1000 {
                proof {
                    assert(group_times(len, group_start as int, within as int) is None);
                }
                return None;
            }
            let next = match t.checked_add(within) {
                Some(v) => v,
                None => {
                    proof {
                        assert(group_times(len, group_start as int, within as int) is None);
                    }
                    return None;
                },
            };
            text = match format_instant(next, 0, EXIF_LAYOUT) {
                Some(x) => x,
                None => {
                    proof {
                        assert(group_times(len, group_start as int, within as int) is None);
                    }
                    return None;
                },
            };
            proof {
                assert(seq![t as int] + group_times((len - p - 1) as nat, next as int, within as int)->Some_0.0
                    == seq![t as int] + group_times((len - p - 1) as nat, next as int, within as int)->Some_0.0);
                assert forall|x: Seq<int>| gdone + (seq![t as int] + x) =~= gdone.push(t as int) + x by {}
            }
            proof {
                gdone = gdone.push(t as int);
            }
            t = next;
            p = p + 1;
        }
        proof {
            assert(photos@.take(p as int) =~= photos@);
            assert(s.take(gi + 1) =~= s.take(gi as int).push(s[gi as int]));
            s.take(gi as int).lemma_flatten_push(s[gi as int]);
            assert(lens.skip(gi as int)[0] == len);
            assert(lens.skip(gi as int).drop_first() =~= lens.skip(gi + 1));
            assert forall|x: Seq<int>| done + (gdone + x) =~= (done + gdone) + x by {}
        }
        let gap = match spacing.between_groups_secs.checked_sub(within) {
            Some(g) => g,
            None => {
                return None;
            },
        };
        if gap < -(i64::MAX / 1000) || gap > i64::MAX / 1000 {
            return None;
        }
        group_start = match t.checked_add(gap) {
            Some(v) => v,
            None => {
                return None;
            },
        };
        text = match format_instant(group_start, 0, EXIF_LAYOUT) {
            Some(x) => x,
            None => {
                return None;
            },
        };
        proof {
            done = done + gdone;
        }
        gi = gi + 1;
    }
    proof {
        assert(s.take(ng as int) =~= s);
        assert(lens.skip(ng as int).len() == 0);
        assert(done + Seq::<int>::empty() =~= done);
    }
    Some(out)
}

/// The number of groups before the first one with photos.
pub open spec fn leading_empty(s: Seq<Seq<Photo>>) -> nat
    decreases s.len(),
{
    if s.len() > 0 && s[0].len() == 0 { 1 + leading_empty(s.drop_first()) } else { 0 }
}

/// The first step of the walk that is not zero (0 when there is none).
/// The walk steps `within` after each photo and `between - within` after
/// each group; before the first photo only groups without photos step.
pub open spec fn first_step(s: Seq<Seq<Photo>>, sp: Spacing) -> int {
    let e = leading_empty(s);
    let d = sp.between_groups_secs - sp.within_group_secs;
    if e > 0 && d != 0 {
        d
    } else if e >= s.len() {
        0
    } else if sp.within_group_secs != 0 {
        sp.within_group_secs as int
    } else {
        d
    }
}

/// How many photos a walk from a leap second stamps with that leap second:
/// those reached before the first step that is not zero (a step of zero
/// stays on the leap second, as `chrono` does).
pub open spec fn leap_photos(s: Seq<Seq<Photo>>, sp: Spacing) -> nat {
    let e = leading_empty(s);
    let d = sp.between_groups_secs - sp.within_group_secs;
    if (e > 0 && d != 0) || e >= s.len() {
        0
    } else if sp.within_group_secs != 0 {
        1
    } else if d != 0 {
        s[e as int].len()
    } else {
        s.flatten().len()
    }
}

/// The second the rest of the walk counts from: a clock on a leap second
/// steps forward as from the second before it and backward as from the
/// minute after it.
pub open spec fn start_base(s: Seq<Seq<Photo>>, start: Instant, sp: Spacing) -> int {
    if start.leap && first_step(s, sp) < 0 { start.secs + 1 } else { start.secs as int }
}

/// The photos stamped with the start's leap second.
pub open spec fn at_leap(s: Seq<Seq<Photo>>, start: Instant, sp: Spacing) -> nat {
    if start.leap { leap_photos(s, sp) } else { 0 }
}

/// Every time of the walk from `start` can be written.
pub open spec fn assignable_at(s: Seq<Seq<Photo>>, start: Instant, sp: Spacing) -> bool {
    &&& instant_ok(start_base(s, start, sp))
    &&& schedule(group_sizes(s), start_base(s, start, sp), sp) is Some
    &&& at_leap(s, start, sp) > 0 ==> leap_exif_text(start.secs) is Some
}

/// `out` pairs each photo of the arrangement with its time from `start`:
/// the leap second for the first `at_leap` photos, the schedule from
/// `start_base` for the others.
pub open spec fn stamped_as(out: Seq<TimedPhoto>, s: Seq<Seq<Photo>>, start: Instant, sp: Spacing) -> bool {
    let times = schedule(group_sizes(s), start_base(s, start, sp), sp)->Some_0;
    let photos = s.flatten();
    &&& out.len() == photos.len()
    &&& forall|k: int| 0 <= k < out.len() ==> (#[trigger] out[k]).path@ == photos[k].path@
        && (if k < at_leap(s, start, sp) {
            leap_exif_text(start.secs) == Some(out[k].exif_datetime@)
        } else {
            exif_text(times[k] as i64) == Some(out[k].exif_datetime@)
        })
}

proof fn lemma_leading_empty(s: Seq<Seq<Photo>>, e: int)
    requires
        0 <= e <= s.len(),
        forall|g: int| 0 <= g < e ==> (#[trigger] s[g]).len() == 0,
        e == s.len() || s[e].len() > 0,
    ensures
        leading_empty(s) == e,
        e == s.len() ==> s.flatten().len() == 0,
    decreases e,
{
    if e > 0 {
        let t = s.drop_first();
        assert forall|g: int| 0 <= g < e - 1 implies (#[trigger] t[g]).len() == 0 by {
            assert(t[g] == s[g + 1]);
        }
        lemma_leading_empty(t, e - 1);
        assert(s.first().len() == 0);
    } else if e == s.len() {
        assert(s =~= Seq::<Seq<Photo>>::empty());
    }
}

/// Walk the arrangement from an instant that may be a leap second, as
/// `chrono` steps from one (see `stamped_as`); `None` when some time
/// cannot be written. From a whole second this is `try_assign_times`.
pub fn try_assign_times_at(arrangement: &Arrangement, start: Instant, spacing: Spacing) -> (r: Option<Vec<TimedPhoto>>)
    ensures
        r is Some <==> assignable_at(arrangement@, start, spacing),
        r matches Some(out) ==> stamped_as(out@, arrangement@, start, spacing),
{
    let ghost s = arrangement@;
    let mut e: usize = 0;
    while e < arrangement.groups.len() && arrangement.groups[e].photos.len() == 0
        invariant
            e <= s.len(),
            s == arrangement@,
            s.len() == arrangement.groups@.len(),
            forall|g: int| 0 <= g < e ==> (#[trigger] s[g]).len() == 0,
        decreases arrangement.groups.len() - e,
    {
        e = e + 1;
    }
    proof {
        lemma_leading_empty(s, e as int);
    }
    let w = spacing.within_group_secs;
    let b = spacing.between_groups_secs;
    let no_photos = e >= arrangement.groups.len();
    // The sign of the first step that is not zero, and the leap-stamped count.
    let first_negative = if e > 0 && b != w {
        b < w
    } else if no_photos {
        false
    } else if w != 0 {
        w < 0
    } else {
        b < w
    };
    let none_at_leap = !start.leap || (e > 0 && b != w) || no_photos;
    let all_at_leap = !none_at_leap && w == 0 && b == w;
    let n_first: usize = if none_at_leap {
        0
    } else if w != 0 {
        1
    } else {
        arrangement.groups[e].photos.len()
    };
    let base = if start.leap && first_negative {
        match start.secs.checked_add(1) {
            Some(v) => v,
            None => {
                return None;
            },
        }
    } else {
        start.secs
    };
    assert(base == start_base(s, start, spacing));
    let timed = match try_assign_times(arrangement, base, spacing) {
        Some(t) => t,
        None => {
            return None;
        },
    };
    let n = if all_at_leap { timed.len() } else { n_first };
    assert(n == at_leap(s, start, spacing));
    if n == 0 {
        return Some(timed);
    }
    let text = match format_instant(start.secs, 1_000_000_000, EXIF_LAYOUT) {
        Some(t) => t,
        None => {
            return None;
        },
    };
    let mut out: Vec<TimedPhoto> = Vec::new();
    let mut k: usize = 0;
    while k < timed.len()
        invariant
            k <= timed@.len(),
            out@.len() == k,
            forall|j: int| 0 <= j < k ==> (#[trigger] out@[j]).path@ == timed@[j].path@
                && out@[j].exif_datetime@ == (if j < n { text@ } else { timed@[j].exif_datetime@ }),
        decreases timed@.len() - k,
    {
        let t = &timed[k];
        let stamp = if k < n { text.clone() } else { t.exif_datetime.clone() };
        out.push(TimedPhoto { path: t.path.clone(), exif_datetime: stamp });
        k = k + 1;
    }
    Some(out)
}

/// Walk the arrangement in order and assign a timestamp to every photo.
/// The first photo of the first group gets exactly `start`; photos of a
/// group are `within_group_secs` apart, and each group starts
/// `between_groups_secs` after the previous group's last photo.
pub fn assign_times(arrangement: &Arrangement, start: i64, spacing: Spacing) -> (out: Vec<TimedPhoto>)
    requires
        instant_ok(start as int),
        schedule(group_sizes(arrangement@), start as int, spacing) is Some,
    ensures
        timed_as(out@, arrangement@.flatten(), schedule(group_sizes(arrangement@), start as int, spacing)->Some_0),
{
    match try_assign_times(arrangement, start, spacing) {
        Some(out) => out,
        None => Vec::new(),
    }
}

/// Each time is earlier than every later one.
pub open spec fn strictly_increasing(ts: Seq<int>) -> bool {
    forall|i: int, j: int| 0 <= i < j < ts.len() ==> ts[i] < ts[j]
}

proof fn lemma_group_times_increasing(len: nat, t: int, w: int)
    requires
        group_times(len, t, w) is Some,
        w > 0,
    ensures
        strictly_increasing(group_times(len, t, w)->Some_0.0),
        forall|k: int| 0 <= k < len ==> t <= #[trigger] group_times(len, t, w)->Some_0.0[k]
            && group_times(len, t, w)->Some_0.0[k] <= group_times(len, t, w)->Some_0.1 - w,
{
    lemma_group_times(len, t, w);
    let ts = group_times(len, t, w)->Some_0.0;
    assert forall|i: int, j: int| 0 <= i < j < ts.len() implies ts[i] < ts[j] by {
        assert(ts[i] == t + i * w);
        assert(ts[j] == t + j * w);
        assert(i * w < j * w) by (nonlinear_arith) requires i < j, w > 0;
    }
    assert forall|k: int| 0 <= k < len implies t <= #[trigger] ts[k] && ts[k] <= t + len * w - w by {
        assert(ts[k] == t + k * w);
        assert(0 <= k * w) by (nonlinear_arith) requires k >= 0, w > 0;
        assert(k * w <= len * w - w) by (nonlinear_arith) requires k + 1 <= len, w > 0;
    }
}

proof fn lemma_schedule_increasing_from(lens: Seq<nat>, start: int, sp: Spacing)
    requires
        schedule(lens, start, sp) is Some,
        forall|g: int| 0 <= g < lens.len() ==> #[trigger] lens[g] > 0,
        sp.within_group_secs > 0,
        sp.between_groups_secs > 0,
    ensures
        strictly_increasing(schedule(lens, start, sp)->Some_0),
        forall|k: int| 0 <= k < schedule(lens, start, sp)->Some_0.len() ==> start <= #[trigger] schedule(lens, start, sp)->Some_0[k],
    decreases lens.len(),
{
    if lens.len() > 0 {
        let w = sp.within_group_secs as int;
        let g = group_times(lens[0], start, w)->Some_0;
        let gap = sp.between_groups_secs - sp.within_group_secs;
        let next = g.1 + gap;
        let rest_lens = lens.drop_first();
        assert forall|h: int| 0 <= h < rest_lens.len() implies #[trigger] rest_lens[h] > 0 by {
            assert(rest_lens[h] == lens[h + 1]);
        }
        lemma_group_times_increasing(lens[0], start, w);
        lemma_schedule_increasing_from(rest_lens, next, sp);
        lemma_group_times(lens[0], start, w);
        let rest = schedule(rest_lens, next, sp)->Some_0;
        let ts = schedule(lens, start, sp)->Some_0;
        assert(ts == g.0 + rest);
        let n0 = g.0.len() as int;
        assert forall|i: int, j: int| 0 <= i < j < ts.len() implies ts[i] < ts[j] by {
            if j < n0 {
                assert(ts[i] == g.0[i] && ts[j] == g.0[j]);
            } else if i >= n0 {
                assert(ts[i] == rest[i - n0] && ts[j] == rest[j - n0]);
            } else {
                assert(ts[i] == g.0[i]);
                assert(ts[j] == rest[j - n0]);
                assert(g.0[i] <= g.1 - w);
                assert(next <= rest[j - n0]);
            }
        }
        assert forall|k: int| 0 <= k < ts.len() implies start <= #[trigger] ts[k] by {
            if k < n0 {
                assert(ts[k] == g.0[k]);
            } else {
                assert(ts[k] == rest[k - n0]);
                assert(next <= rest[k - n0]);
                assert(g.1 == start + lens[0] * w);
                assert(lens[0] * w >= w) by (nonlinear_arith) requires lens[0] >= 1, w > 0;
            }
        }
    }
}

/// With positive spacings and no empty group, the assigned times strictly
/// increase in arrangement order: a library that sorts by capture time shows
/// the photos exactly in the arranged order.
pub proof fn lemma_times_follow_the_arrangement(s: Seq<Seq<Photo>>, start: int, sp: Spacing)
    requires
        no_empty_groups(s),
        sp.within_group_secs > 0,
        sp.between_groups_secs > 0,
        schedule(group_sizes(s), start, sp) is Some,
    ensures
        strictly_increasing(schedule(group_sizes(s), start, sp)->Some_0),
{
    let lens = group_sizes(s);
    assert forall|g: int| 0 <= g < lens.len() implies #[trigger] lens[g] > 0 by {
        assert(s[g].len() > 0);
    }
    lemma_schedule_increasing_from(lens, start, sp);
}

/// The absolute value.
pub open spec fn magnitude(x: int) -> int {
    if x < 0 { -x } else { x }
}

proof fn lemma_group_times_total(len: nat, t: int, w: int, a: int)
    requires
        len > 0 ==> step_ok(w),
        magnitude(w) <= a,
        forall|u: int| t - len * a <= u <= t + len * a ==> #[trigger] instant_ok(u),
    ensures
        group_times(len, t, w) is Some,
    decreases len,
{
    if len > 0 {
        assert(len * a >= a) by (nonlinear_arith) requires len >= 1, a >= 0;
        assert(instant_ok(t + w));
        let l1 = (len - 1) as nat;
        assert forall|u: int| (t + w) - l1 * a <= u <= (t + w) + l1 * a implies #[trigger] instant_ok(u) by {
            assert(l1 * a + a == len * a) by (nonlinear_arith) requires l1 + 1 == len;
        }
        lemma_group_times_total(l1, t + w, w, a);
    }
}

/// Times are assigned to every arrangement, however many groups and photos
/// it has, as long as the walk stays where `chrono` can write instants: the
/// steps fit a duration, and every instant within `(photos + groups) * a`
/// seconds of the start can be written, `a` bounding both steps.
pub proof fn lemma_schedule_total(lens: Seq<nat>, start: int, sp: Spacing, a: int)
    requires
        step_ok(sp.within_group_secs as int),
        step_ok(sp.between_groups_secs - sp.within_group_secs),
        i64::MIN <= sp.between_groups_secs - sp.within_group_secs <= i64::MAX,
        magnitude(sp.within_group_secs as int) <= a,
        magnitude(sp.between_groups_secs - sp.within_group_secs) <= a,
        forall|u: int| start - (sum_sizes(lens) + lens.len()) * a <= u <= start + (sum_sizes(lens) + lens.len()) * a
            ==> #[trigger] instant_ok(u),
    ensures
        schedule(lens, start, sp) is Some,
        schedule(lens, start, sp)->Some_0.len() == sum_sizes(lens),
    decreases lens.len(),
{
    if lens.len() > 0 {
        let w = sp.within_group_secs as int;
        let d = sp.between_groups_secs - sp.within_group_secs;
        let n0 = lens[0];
        let rest = lens.drop_first();
        let span = (sum_sizes(lens) + lens.len()) * a;
        let span1 = (sum_sizes(rest) + rest.len()) * a;
        assert(sum_sizes(lens) == n0 + sum_sizes(rest));
        assert(span == n0 * a + a + span1) by (nonlinear_arith)
            requires span == (sum_sizes(lens) + lens.len()) * a, span1 == (sum_sizes(rest) + rest.len()) * a,
                sum_sizes(lens) == n0 + sum_sizes(rest), lens.len() == rest.len() + 1;
        assert(span1 >= 0) by (nonlinear_arith) requires a >= 0, span1 == (sum_sizes(rest) + rest.len()) * a;
        assert(n0 * a >= 0) by (nonlinear_arith) requires a >= 0;
        assert forall|u: int| start - n0 * a <= u <= start + n0 * a implies #[trigger] instant_ok(u) by {}
        lemma_group_times_total(n0, start, w, a);
        lemma_group_times(n0, start, w);
        let g = group_times(n0, start, w)->Some_0;
        assert(magnitude(n0 * w) <= n0 * a) by (nonlinear_arith)
            requires magnitude(w) <= a, n0 >= 0;
        let next = g.1 + d;
        assert(instant_ok(next));
        assert forall|u: int| next - span1 <= u <= next + span1 implies #[trigger] instant_ok(u) by {}
        lemma_schedule_total(rest, next, sp, a);
        assert(n0 == group_times(n0, start, w)->Some_0.0.len());
    }
}

/// Whatever the number of groups, an arrangement gets a time for each of
/// its photos whenever its walk stays where instants can be written (see
/// `lemma_schedule_total`); then `try_assign_times` answers `Some`.
pub proof fn lemma_times_always_assigned(s: Seq<Seq<Photo>>, start: int, sp: Spacing, a: int)
    requires
        step_ok(sp.within_group_secs as int),
        step_ok(sp.between_groups_secs - sp.within_group_secs),
        i64::MIN <= sp.between_groups_secs - sp.within_group_secs <= i64::MAX,
        magnitude(sp.within_group_secs as int) <= a,
        magnitude(sp.between_groups_secs - sp.within_group_secs) <= a,
        forall|u: int| start - (sum_sizes(group_sizes(s)) + s.len()) * a <= u
            <= start + (sum_sizes(group_sizes(s)) + s.len()) * a ==> #[trigger] instant_ok(u),
    ensures
        instant_ok(start),
        schedule(group_sizes(s), start, sp) is Some,
        schedule(group_sizes(s), start, sp)->Some_0.len() == s.flatten().len(),
{
    let lens = group_sizes(s);
    assert((sum_sizes(lens) + s.len()) * a >= 0) by (nonlinear_arith) requires a >= 0;
    assert(instant_ok(start));
    lemma_schedule_total(lens, start, sp, a);
    lemma_sum_sizes_flatten(s);
}

proof fn lemma_sum_sizes_flatten(s: Seq<Seq<Photo>>)
    ensures
        sum_sizes(group_sizes(s)) == s.flatten().len(),
    decreases s.len(),
{
    if s.len() > 0 {
        lemma_sum_sizes_flatten(s.drop_first());
        assert(group_sizes(s).drop_first() =~= group_sizes(s.drop_first()));
    }
}

} // verus!

verus! {

// ---------------------------------------------------------------------------
// Laws
// ---------------------------------------------------------------------------

/// Total of the first group sizes.
pub open spec fn sum_sizes(lens: Seq<nat>) -> nat
    decreases lens.len(),
{
    if lens.len() == 0 { 0 } else { lens[0] + sum_sizes(lens.drop_first()) }
}

/// Position, in the flattened arrangement, of photo `p` of group `g`.
pub open spec fn slot(lens: Seq<nat>, g: int, p: int) -> int {
    sum_sizes(lens.take(g)) + p
}

/// Start instant of group `g` in the schedule.
pub open spec fn group_start_time(lens: Seq<nat>, start: int, sp: Spacing, g: int) -> int
    decreases g,
{
    if g <= 0 || lens.len() == 0 {
        start
    } else {
        group_start_time(
            lens.drop_first(),
            start + lens[0] * sp.within_group_secs + (sp.between_groups_secs - sp.within_group_secs),
            sp,
            g - 1,
        )
    }
}

proof fn lemma_group_times(len: nat, t: int, w: int)
    requires
        group_times(len, t, w) is Some,
    ensures
        group_times(len, t, w)->Some_0.0.len() == len,
        group_times(len, t, w)->Some_0.1 == t + len * w,
        forall|p: int| 0 <= p < len ==> #[trigger] group_times(len, t, w)->Some_0.0[p] == t + p * w,
    decreases len,
{
    if len > 0 {
        lemma_group_times((len - 1) as nat, t + w, w);
        let rest = group_times((len - 1) as nat, t + w, w)->Some_0;
        let ts = group_times(len, t, w)->Some_0.0;
        assert(ts == seq![t] + rest.0);
        assert forall|p: int| 0 <= p < len implies #[trigger] ts[p] == t + p * w by {
            if p > 0 {
                assert(ts[p] == rest.0[p - 1]);
                assert(t + w + (p - 1) * w == t + p * w) by (nonlinear_arith);
            }
        }
        assert(t + w + (len - 1) * w == t + len * w) by (nonlinear_arith);
    }
}

proof fn lemma_sum_sizes_take(lens: Seq<nat>, g: int)
    requires
        0 < g <= lens.len(),
    ensures
        sum_sizes(lens.take(g)) == lens[0] + sum_sizes(lens.drop_first().take(g - 1)),
        sum_sizes(lens.take(g)) <= sum_sizes(lens),
    decreases lens.len(),
{
    assert(lens.take(g).drop_first() =~= lens.drop_first().take(g - 1));
    if g < lens.len() && g > 1 {
        lemma_sum_sizes_take(lens.drop_first(), g - 1);
    } else if g == lens.len() {
        assert(lens.take(g) =~= lens);
    } else {
        assert(lens.drop_first().take(0) =~= Seq::<nat>::empty());
    }
}

proof fn lemma_slot_bound(lens: Seq<nat>, g: int)
    requires
        0 <= g < lens.len(),
    ensures
        sum_sizes(lens.take(g)) + lens[g] <= sum_sizes(lens),
    decreases g,
{
    if g == 0 {
        assert(lens.take(0) =~= Seq::<nat>::empty());
    } else {
        lemma_sum_sizes_take(lens, g);
        lemma_slot_bound(lens.drop_first(), g - 1);
        assert(lens.drop_first()[g - 1] == lens[g]);
    }
}

/// The schedule gives photo `p` of group `g` the time
/// `group_start_time(g) + p * within`.
pub proof fn lemma_schedule_times(lens: Seq<nat>, start: int, sp: Spacing)
    requires
        schedule(lens, start, sp) is Some,
    ensures
        schedule(lens, start, sp)->Some_0.len() == sum_sizes(lens),
        forall|g: int, p: int| 0 <= g < lens.len() && 0 <= p < lens[g] ==>
            schedule(lens, start, sp)->Some_0[#[trigger] slot(lens, g, p)]
                == group_start_time(lens, start, sp, g) + p * sp.within_group_secs,
    decreases lens.len(),
{
    if lens.len() > 0 {
        let w = sp.within_group_secs as int;
        let gap = sp.between_groups_secs - sp.within_group_secs;
        let g0 = group_times(lens[0], start, w)->Some_0;
        lemma_group_times(lens[0], start, w);
        let next = g0.1 + gap;
        lemma_schedule_times(lens.drop_first(), next, sp);
        let ts = schedule(lens, start, sp)->Some_0;
        let rest = schedule(lens.drop_first(), next, sp)->Some_0;
        assert(ts == g0.0 + rest);
        assert forall|g: int, p: int| 0 <= g < lens.len() && 0 <= p < lens[g] implies
            ts[#[trigger] slot(lens, g, p)] == group_start_time(lens, start, sp, g) + p * w by {
            if g == 0 {
                assert(lens.take(0) =~= Seq::<nat>::empty());
                assert(slot(lens, g, p) == p);
            } else {
                lemma_sum_sizes_take(lens, g);
                lemma_slot_bound(lens.drop_first(), g - 1);
                assert(slot(lens, g, p) == lens[0] + slot(lens.drop_first(), g - 1, p));
                assert(lens.drop_first()[g - 1] == lens[g]);
                assert(ts[slot(lens, g, p)] == rest[slot(lens.drop_first(), g - 1, p)]);
                assert(next == start + lens[0] * w + gap);
            }
        }
    }
}

/// Assigned times follow the promised spacing: the first photo gets exactly
/// `start`, photos of a group are `within_group_secs` apart, and the first
/// photo of a group comes `between_groups_secs` after the last photo of the
/// group before it (when neither group is empty).
pub proof fn lemma_schedule_spacing(lens: Seq<nat>, start: int, sp: Spacing)
    requires
        schedule(lens, start, sp) is Some,
    ensures
        lens.len() > 0 && lens[0] > 0 ==> schedule(lens, start, sp)->Some_0[0] == start,
        forall|g: int, p: int| 0 <= g < lens.len() && 0 <= p && p + 1 < lens[g] ==>
            schedule(lens, start, sp)->Some_0[#[trigger] slot(lens, g, p + 1)]
                == schedule(lens, start, sp)->Some_0[slot(lens, g, p)] + sp.within_group_secs,
        forall|g: int| 0 <= g && g + 1 < lens.len() && lens[g] > 0 && lens[g + 1] > 0 ==>
            schedule(lens, start, sp)->Some_0[#[trigger] slot(lens, g + 1, 0)]
                == schedule(lens, start, sp)->Some_0[slot(lens, g, lens[g] - 1)] + sp.between_groups_secs,
{
    lemma_schedule_times(lens, start, sp);
    let ts = schedule(lens, start, sp)->Some_0;
    let w = sp.within_group_secs as int;
    if lens.len() > 0 && lens[0] > 0 {
        assert(lens.take(0) =~= Seq::<nat>::empty());
        assert(slot(lens, 0, 0) == 0);
        assert(ts[slot(lens, 0, 0)] == group_start_time(lens, start, sp, 0) + 0 * w);
    }
    assert forall|g: int, p: int| 0 <= g < lens.len() && 0 <= p && p + 1 < lens[g] implies
        ts[#[trigger] slot(lens, g, p + 1)] == ts[slot(lens, g, p)] + w by {
        assert(ts[slot(lens, g, p + 1)] == group_start_time(lens, start, sp, g) + (p + 1) * w);
        assert(ts[slot(lens, g, p)] == group_start_time(lens, start, sp, g) + p * w);
        assert((p + 1) * w == p * w + w) by (nonlinear_arith);
    }
    assert forall|g: int| 0 <= g && g + 1 < lens.len() && lens[g] > 0 && lens[g + 1] > 0 implies
        ts[#[trigger] slot(lens, g + 1, 0)] == ts[slot(lens, g, lens[g] - 1)] + sp.between_groups_secs by {
        lemma_group_start_step(lens, start, sp, g);
        assert(ts[slot(lens, g + 1, 0)] == group_start_time(lens, start, sp, g + 1) + 0 * w);
        assert(ts[slot(lens, g, lens[g] - 1)] == group_start_time(lens, start, sp, g) + (lens[g] - 1) * w);
        assert(lens[g] * w == (lens[g] - 1) * w + w) by (nonlinear_arith);
    }
}

proof fn lemma_group_start_step(lens: Seq<nat>, start: int, sp: Spacing, g: int)
    requires
        0 <= g,
        g + 1 < lens.len(),
    ensures
        group_start_time(lens, start, sp, g + 1) == group_start_time(lens, start, sp, g)
            + lens[g] * sp.within_group_secs + (sp.between_groups_secs - sp.within_group_secs),
    decreases g,
{
    reveal_with_fuel(group_start_time, 2);
    if g > 0 {
        let next = start + lens[0] * sp.within_group_secs + (sp.between_groups_secs - sp.within_group_secs);
        lemma_group_start_step(lens.drop_first(), next, sp, g - 1);
        assert(lens.drop_first()[g - 1] == lens[g]);
    }
}

} // verus!
