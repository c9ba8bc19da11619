//! Editing-session rules: keyboard stepping through photos and the bounded
//! undo/redo history.
use vstd::prelude::*;
use crate::hashing::{all_decimal, decimal_number, trim_text, trimmed};
use crate::timeline::{Instant, Spacing};

verus! {

/// A selectable thing, addressed by current indices.
#[derive(Debug, Clone, Copy, PartialEq, Eq, Structural)]
pub enum Sel {
    Photo(usize, usize),
    Group(usize),
}

/// The photo after (or before) photo `pi` of group `gi`, walking across
/// group boundaries; `None` past either end. `counts[g]` is the number of
/// photos of group `g`.
pub open spec fn stepped(counts: Seq<usize>, gi: int, pi: int, forward: bool) -> Option<Sel> {
    if forward {
        if pi + 1 < counts[gi] {
            Some(Sel::Photo(gi as usize, (pi + 1) as usize))
        } else if gi + 1 < counts.len() {
            Some(Sel::Photo((gi + 1) as usize, 0))
        } else {
            None
        }
    } else if pi > 0 {
        Some(Sel::Photo(gi as usize, (pi - 1) as usize))
    } else if gi > 0 && counts[gi - 1] > 0 {
        Some(Sel::Photo((gi - 1) as usize, (counts[gi - 1] - 1) as usize))
    } else {
        None
    }
}

/// The indices a step reads exist and its arithmetic stays in range: a step
/// forward reads the count of group `gi`, a step back from a group's first
/// photo reads the count of the group before.
pub open spec fn step_ok(counts: Seq<usize>, gi: int, pi: int, forward: bool) -> bool {
    if forward {
        gi < counts.len() && pi < usize::MAX
    } else {
        pi == 0 && gi > 0 ==> gi - 1 < counts.len()
    }
}

/// Arrow-key stepping through photos across group boundaries.
pub fn step_photo(counts: &[usize], gi: usize, pi: usize, forward: bool) -> (r: Option<Sel>)
    requires
        step_ok(counts@, gi as int, pi as int, forward),
    ensures
        r == stepped(counts@, gi as int, pi as int, forward),
{
    if forward {
        if pi + 1 < counts[gi] {
            Some(Sel::Photo(gi, pi + 1))
        } else if gi + 1 < counts.len() {
            Some(Sel::Photo(gi + 1, 0))
        } else {
            None
        }
    } else if pi > 0 {
        Some(Sel::Photo(gi, pi - 1))
    } else if gi > 0 {
        match counts[gi - 1].checked_sub(1) {
            Some(last) => Some(Sel::Photo(gi - 1, last)),
            None => None,
        }
    } else {
        None
    }
}

/// Depth of the undo history kept by `record`.
pub const UNDO_CAP: usize = 100;

/// Undo and redo stacks of snapshots (the most recent last).
pub struct History<T> {
    undo: Vec<T>,
    redo: Vec<T>,
}

/// The stacks after recording `before` as an undo step: the oldest step
/// drops out at the cap, and the redo stack empties.
pub open spec fn recorded<T>(undo: Seq<T>, before: T) -> (Seq<T>, Seq<T>) {
    (if undo.len() >= UNDO_CAP { undo.drop_first() } else { undo }.push(before), Seq::empty())
}

/// Stepping back from `st` with `current` on screen: the last undo step
/// comes out and `current` becomes the newest redo step (no change when
/// there is nothing to undo).
pub open spec fn undone<T>(st: (Seq<T>, Seq<T>), current: T) -> (Option<T>, (Seq<T>, Seq<T>)) {
    if st.0.len() == 0 {
        (None, st)
    } else {
        (Some(st.0.last()), (st.0.drop_last(), st.1.push(current)))
    }
}

/// Stepping forward from `st` with `current` on screen: the newest redo
/// step comes back and `current` goes back on the undo stack (no change
/// when there is nothing to redo).
pub open spec fn redone<T>(st: (Seq<T>, Seq<T>), current: T) -> (Option<T>, (Seq<T>, Seq<T>)) {
    if st.1.len() == 0 {
        (None, st)
    } else {
        (Some(st.1.last()), (st.0.push(current), st.1.drop_last()))
    }
}

impl<T> History<T> {
    /// The undo stack and the redo stack.
    pub closed spec fn stacks(&self) -> (Seq<T>, Seq<T>) {
        (self.undo@, self.redo@)
    }

    /// An empty history.
    pub fn new() -> (h: Self)
        ensures
            h.stacks() == (Seq::<T>::empty(), Seq::<T>::empty()),
    {
        History { undo: Vec::new(), redo: Vec::new() }
    }

    /// Number of undo steps.
    pub fn undo_len(&self) -> (n: usize)
        ensures
            n == self.stacks().0.len(),
    {
        self.undo.len()
    }

    /// Number of redo steps.
    pub fn redo_len(&self) -> (n: usize)
        ensures
            n == self.stacks().1.len(),
    {
        self.redo.len()
    }

    /// Record the state before an edit.
    pub fn record(&mut self, before: T)
        ensures
            final(self).stacks() == recorded(old(self).stacks().0, before),
    {
        if self.undo.len() >= UNDO_CAP {
            self.undo.remove(0);
        }
        self.undo.push(before);
        self.redo.clear();
        proof {
            assert(self.stacks().0 =~= recorded(old(self).stacks().0, before).0);
            assert(self.stacks().1 =~= recorded(old(self).stacks().0, before).1);
        }
    }

    /// Step back: the last recorded state comes out, and `current` becomes
    /// the first redo step. Nothing changes when there is nothing to undo.
    pub fn undo(&mut self, current: T) -> (r: Option<T>)
        ensures
            (r, final(self).stacks()) == undone(old(self).stacks(), current),
    {
        match self.undo.pop() {
            None => None,
            Some(prev) => {
                self.redo.push(current);
                proof {
                    assert(self.stacks().0 =~= old(self).stacks().0.drop_last());
                }
                Some(prev)
            },
        }
    }

    /// Step forward: the last undone state comes back, and `current` goes
    /// back on the undo stack. Nothing changes when there is nothing to redo.
    pub fn redo(&mut self, current: T) -> (r: Option<T>)
        ensures
            (r, final(self).stacks()) == redone(old(self).stacks(), current),
    {
        match self.redo.pop() {
            None => None,
            Some(next) => {
                self.undo.push(current);
                proof {
                    assert(self.stacks().1 =~= old(self).stacks().1.drop_last());
                }
                Some(next)
            },
        }
    }
}

/// Undo gives back the state recorded before an edit; a redo right after
/// gives back the state that was undone and restores the history exactly.
pub proof fn lemma_undo_redo_round_trip<T>(undo: Seq<T>, before: T, after: T)
    ensures
        undone(recorded(undo, before), after).0 == Some(before),
        redone(undone(recorded(undo, before), after).1, before).0 == Some(after),
        redone(undone(recorded(undo, before), after).1, before).1 == recorded(undo, before),
{
    let s1 = recorded(undo, before);
    assert(s1.0.drop_last().push(before) =~= s1.0);
    assert(s1.1.push(after).drop_last() =~= s1.1);
}

/// Any state with something to undo comes back by an undo followed by a
/// redo (the redo returns what was on screen at the undo).
pub proof fn lemma_undo_then_redo<T>(st: (Seq<T>, Seq<T>), current: T)
    requires
        st.0.len() > 0,
    ensures
        redone(undone(st, current).1, undone(st, current).0->Some_0) == (Some(current), st),
{
    assert(st.0.drop_last().push(st.0.last()) =~= st.0);
    assert(st.1.push(current).drop_last() =~= st.1);
}

/// Recording never lets the undo history grow past `UNDO_CAP`.
pub proof fn lemma_history_bounded<T>(undo: Seq<T>, before: T)
    requires
        undo.len() <= UNDO_CAP,
    ensures
        recorded(undo, before).0.len() <= UNDO_CAP,
{
}

// ---------------------------------------------------------------------------
// Time-bar inputs
// ---------------------------------------------------------------------------

/// The instant (seconds on the naive clock) of midnight of the date that
/// `NaiveDate::parse_from_str(text, fmt)` reads, if it reads one.
pub uninterp spec fn date_midnight(text: Seq<char>, fmt: Seq<char>) -> Option<i64>;

/// Calls `chrono::NaiveDate::parse_from_str` and gives the date's midnight
/// as seconds (named `date_midnight`). Chrono's dates lie within about
/// 262,000 years of 1970, which bounds the result.
#[verifier::external_body]
fn parse_day(text: &str, fmt: &str) -> (r: Option<i64>)
    ensures
        r == date_midnight(text@, fmt@),
        r matches Some(v) ==> -10_000_000_000_000 < v < 10_000_000_000_000,
{
    chrono::NaiveDate::parse_from_str(text, fmt).ok().map(|d| d.and_time(chrono::NaiveTime::MIN).and_utc().timestamp())
}

/// The time of day that `NaiveTime::parse_from_str(text, fmt)` reads, if it
/// reads one, as non-leap seconds past midnight and the nanoseconds after
/// that second (from 10^9 on for a leap second).
pub uninterp spec fn clock_reading(text: Seq<char>, fmt: Seq<char>) -> Option<(u32, u32)>;

/// Calls `chrono::NaiveTime::parse_from_str` and gives the time as
/// `num_seconds_from_midnight` (below 86400) and `nanosecond` (below
/// 2 * 10^9), as chrono documents them; the pair is named `clock_reading`.
#[verifier::external_body]
fn parse_clock(text: &str, fmt: &str) -> (r: Option<(u32, u32)>)
    ensures
        r == clock_reading(text@, fmt@),
        r matches Some(v) ==> v.0 < 86400 && v.1 < 2_000_000_000,
{
    match chrono::NaiveTime::parse_from_str(text, fmt) {
        Ok(t) => Some((chrono::Timelike::num_seconds_from_midnight(&t), chrono::Timelike::nanosecond(&t))),
        Err(_) => None,
    }
}

/// What `str::parse::<i64>` gives: an optional leading `+` or `-`, then at
/// least one decimal digit, the signed value fitting in `i64`.
pub open spec fn parsed_i64(s: Seq<char>) -> Option<i64> {
    let negative = s.len() > 0 && s[0] == '-';
    let digits = if s.len() > 0 && (s[0] == '+' || s[0] == '-') { s.drop_first() } else { s };
    let v = decimal_number(digits) as int;
    if !all_decimal(digits) {
        None
    } else if negative {
        if v <= 0x8000_0000_0000_0000 { Some((-v) as i64) } else { None }
    } else {
        if v <= i64::MAX { Some(v as i64) } else { None }
    }
}

/// Calls `str::parse::<i64>` (`from_str_radix` in base ten, as the standard
/// library documents it: `parsed_i64`).
#[verifier::external_body]
fn parse_i64(s: &str) -> (r: Option<i64>)
    ensures
        r == parsed_i64(s@),
{
    s.parse::<i64>().ok()
}

/// The time of day of the input: `HH:MM`, else `HH:MM:SS`.
pub open spec fn clock_of(time: Seq<char>) -> Option<(u32, u32)> {
    match clock_reading(time, "%H:%M"@) {
        Some(v) => Some(v),
        None => clock_reading(time, "%H:%M:%S"@),
    }
}

/// A usable gap: whole seconds from 1 to a day.
pub open spec fn gap_of(text: Seq<char>) -> Option<i64> {
    match parsed_i64(trimmed(text)) {
        Some(v) => if 1 <= v <= 86400 { Some(v) } else { None },
        None => None,
    }
}

/// The start instant and spacing the time-bar inputs denote, if all are
/// valid. A time read as a leap second (second 60) starts at that leap
/// second.
pub open spec fn write_inputs(date: Seq<char>, time: Seq<char>, gap_groups: Seq<char>, gap_within: Seq<char>) -> Option<(Instant, Spacing)> {
    match (date_midnight(date, "%Y-%m-%d"@), clock_of(time), gap_of(gap_groups), gap_of(gap_within)) {
        (Some(d), Some(t), Some(b), Some(w)) => Some((
            Instant { secs: (d + t.0) as i64, leap: t.1 >= 1_000_000_000 },
            Spacing { between_groups_secs: b, within_group_secs: w },
        )),
        _ => None,
    }
}

/// Parse the time-bar inputs: `YYYY-MM-DD` date, `HH:MM[:SS]` time, and two
/// gap-seconds fields (1 to 86400 each, surrounding whitespace allowed).
/// `None` = invalid.
pub fn parse_write_inputs(date: &str, time: &str, gap_groups: &str, gap_within: &str) -> (r: Option<(Instant, Spacing)>)
    ensures
        r == write_inputs(date@, time@, gap_groups@, gap_within@),
{
    let day = parse_day(date, "%Y-%m-%d");
    let clock = match parse_clock(time, "%H:%M") {
        Some(v) => Some(v),
        None => parse_clock(time, "%H:%M:%S"),
    };
    let between = parse_i64(trim_text(gap_groups));
    let within = parse_i64(trim_text(gap_within));
    proof {
        reveal_strlit("%Y-%m-%d");
        reveal_strlit("%H:%M");
        reveal_strlit("%H:%M:%S");
    }
    match (day, clock, between, within) {
        (Some(d), Some(t), Some(b), Some(w)) => {
            if b < 1 || b > 86400 || w < 1 || w > 86400 {
                return None;
            }
            Some((
                Instant { secs: d + t.0 as i64, leap: t.1 >= 1_000_000_000 },
                Spacing { between_groups_secs: b, within_group_secs: w },
            ))
        },
        _ => None,
    }
}

} // verus!
