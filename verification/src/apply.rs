//! Applying a timeline to disk: the rules the writer follows. The caller
//! performs the file operations (copying, stamping, reading back) and asks
//! this module where each photo goes, which names are already taken, which
//! photos to read back, and what to report.
use vstd::prelude::*;
use crate::paths::{path_file_name, path_join, file_name_of, joined_path};
use crate::Arrangement;
use crate::editor::{parse_write_inputs, write_inputs};
use crate::timeline::{assignable_at, stamped_as, try_assign_times_at, TimedPhoto};

verus! {

/// Name of the copies folder created inside the delivery folder.
pub const OUTPUT_DIR_NAME: &'static str = "sequin-output";

/// Where stamped photos end up.
#[derive(Debug, Clone, Copy, PartialEq, Eq, Structural)]
pub enum Destination {
    /// Copy each photo into `<folder>/sequin-output/` and stamp the copy;
    /// the source files are never touched. The default.
    CopyToOutput,
    /// Stamp the source files themselves (each write is still atomic
    /// temp+rename).
    InPlace,
}

/// Outcome of applying a timeline.
#[derive(Debug, Clone)]
pub struct ApplyReport {
    /// Photos whose final file carries the new timestamp.
    pub written: usize,
    /// Per-file write failures (source path, error).
    pub failures: Vec<(String, String)>,
    /// Sampled read-back checks that matched.
    pub verified: usize,
    /// Sampled read-back checks that did not match (path, detail).
    pub verify_failures: Vec<(String, String)>,
    /// The output folder, when copies were made.
    pub output_dir: Option<String>,
}

/// The output folder for a destination: `<folder>/sequin-output` for
/// copies, none for in-place stamping.
pub fn output_dir_for(folder: &str, dest: Destination) -> (r: Option<String>)
    ensures
        match dest {
            Destination::CopyToOutput => r matches Some(d) && d@ == joined_path(folder@, OUTPUT_DIR_NAME@),
            Destination::InPlace => r is None,
        },
{
    match dest {
        Destination::CopyToOutput => Some(path_join(folder, OUTPUT_DIR_NAME)),
        Destination::InPlace => None,
    }
}

/// Why a photo cannot be copied into the output folder.
#[derive(Debug, Clone, PartialEq, Eq)]
pub enum CopyRefusal {
    /// The source path has no file name.
    NoFileName,
    /// The copy would land on the source itself.
    AlreadyInOutput,
    /// An earlier photo already took this file name in the flat output
    /// folder.
    DuplicateName(String),
}

/// The output folder's file name for `source` and the copy's path:
/// `<out_dir>/<file name of source>`; refused with `NoFileName` when the
/// source has no file name.
pub fn copy_target(out_dir: &str, source: &str) -> (r: Result<(String, String), CopyRefusal>)
    ensures
        match r {
            Ok((name, dest)) => file_name_of(source@) == Some(name@) && dest@ == joined_path(out_dir@, name@),
            Err(e) => e is NoFileName && file_name_of(source@) is None,
        },
{
    match path_file_name(source) {
        Some(name) => {
            let dest = path_join(out_dir, name.as_str());
            Ok((name, dest))
        },
        None => Err(CopyRefusal::NoFileName),
    }
}

/// The file names already used in the output folder.
pub struct OutputNames {
    used: Vec<String>,
}

impl View for OutputNames {
    type V = Seq<Seq<char>>;

    closed spec fn view(&self) -> Seq<Seq<char>> {
        self.used@.map_values(|s: String| s@)
    }
}

impl OutputNames {
    /// No name used yet.
    pub fn new() -> (r: Self)
        ensures
            r@ == Seq::<Seq<char>>::empty(),
            r@.no_duplicates(),
    {
        OutputNames { used: Vec::new() }
    }

    /// Take `name` for a copy: true (and the name is recorded) when no
    /// earlier copy used it, false (and nothing changes) otherwise.
    pub fn claim(&mut self, name: &str) -> (fresh: bool)
        ensures
            fresh == !old(self)@.contains(name@),
            final(self)@ == if fresh { old(self)@.push(name@) } else { old(self)@ },
            old(self)@.no_duplicates() ==> final(self)@.no_duplicates(),
    {
        let owned = name.to_owned();
        let mut i: usize = 0;
        while i < self.used.len()
            invariant
                i <= self.used@.len(),
                self@ == old(self)@,
                owned@ == name@,
                forall|j: int| 0 <= j < i ==> self@[j] != name@,
            decreases self.used@.len() - i,
        {
            if self.used[i] == owned {
                assert(self@[i as int] == name@);
                return false;
            }
            i = i + 1;
        }
        self.used.push(owned);
        proof {
            assert(self@ =~= old(self)@.push(name@));
            assert(!old(self)@.contains(name@));
        }
        true
    }
}

/// Decide whether a copy named `name` may be made, once its path is known:
/// refused when it would land on the source itself (`lands_on_source`, as
/// the file system resolves both paths), or when an earlier copy already
/// took the name in the flat output folder. An admitted name is recorded;
/// a refused copy changes nothing.
pub fn admit_copy(names: &mut OutputNames, name: &str, lands_on_source: bool) -> (r: Result<(), CopyRefusal>)
    ensures
        lands_on_source ==> r == Err::<(), CopyRefusal>(CopyRefusal::AlreadyInOutput) && final(names)@ == old(names)@,
        !lands_on_source && old(names)@.contains(name@) ==> (r matches Err(CopyRefusal::DuplicateName(n)) && n@ == name@)
            && final(names)@ == old(names)@,
        !lands_on_source && !old(names)@.contains(name@) ==> r is Ok && final(names)@ == old(names)@.push(name@),
{
    if lands_on_source {
        return Err(CopyRefusal::AlreadyInOutput);
    }
    if names.claim(name) {
        Ok(())
    } else {
        Err(CopyRefusal::DuplicateName(name.to_owned()))
    }
}

/// The read-back sample: first, middle and last of `n` written photos,
/// without repeats (ascending).
pub open spec fn sample_of(n: nat) -> Seq<nat> {
    if n == 0 {
        Seq::empty()
    } else if n == 1 {
        seq![0]
    } else if n == 2 {
        seq![0, 1]
    } else {
        seq![0, n / 2, (n - 1) as nat]
    }
}

/// Indices of the written photos to read back: first, middle and last,
/// duplicates collapsed.
pub fn verification_sample(n: usize) -> (r: Vec<usize>)
    ensures
        r@.map_values(|i: usize| i as nat) == sample_of(n as nat),
{
    let mut r: Vec<usize> = Vec::new();
    if n == 0 {
        proof {
            assert(r@.map_values(|i: usize| i as nat) =~= sample_of(0));
        }
        return r;
    }
    let candidates = [0usize, n / 2, n - 1];
    let mut k: usize = 0;
    while k < 3
        invariant
            n > 0,
            candidates@ == seq![0usize, n / 2, (n - 1) as usize],
            k <= 3,
            r@.len() <= k,
            r@.len() > 0 ==> r@.last() == candidates@[k - 1],
            r@ == (if k == 0 { Seq::<usize>::empty() } else if k == 1 { seq![0usize] } else if k == 2 {
                if n / 2 == 0 { seq![0usize] } else { seq![0usize, n / 2] }
            } else {
                if n / 2 == 0 {
                    if n - 1 == 0 { seq![0usize] } else { seq![0usize, (n - 1) as usize] }
                } else if n / 2 == n - 1 {
                    seq![0usize, n / 2]
                } else {
                    seq![0usize, n / 2, (n - 1) as usize]
                }
            }),
        decreases 3 - k,
    {
        let c = candidates[k];
        if r.len() == 0 || r[r.len() - 1] != c {
            r.push(c);
        }
        k = k + 1;
    }
    proof {
        assert(r@.map_values(|i: usize| i as nat) =~= sample_of(n as nat));
    }
    r
}

/// Default shoot start: 10:00 on the first photo's modification day, or on
/// `today` when that day is unknown. Days count from 1970-01-01; the result
/// is in seconds on the same naive clock.
pub fn default_start(file_day: Option<i64>, today: i64) -> (r: i64)
    requires
        file_day matches Some(d) ==> -(i64::MAX / 86400) < d < i64::MAX / 86400,
        -(i64::MAX / 86400) < today < i64::MAX / 86400,
    ensures
        r == match file_day {
            Some(d) => d * 86400 + 36000,
            None => today * 86400 + 36000,
        },
{
    let day = match file_day {
        Some(d) => d,
        None => today,
    };
    day * 86400 + 36000
}

/// What a confirmed write will do: the timestamp of every photo, and where
/// the stamped files go.
pub struct WritePlan {
    pub timed: Vec<TimedPhoto>,
    pub dest: Destination,
}

/// Plan a write from the time-bar inputs. Nothing is planned while a write
/// is already running (a second click must not start a racing one), when
/// an input is invalid, or when some time falls outside the calendar; the
/// destination is the output folder in copy mode, the photos themselves
/// otherwise. The times are those of `try_assign_times_at`.
pub fn plan_write(writing: bool, date: &str, time: &str, gap_groups: &str, gap_within: &str, copy_mode: bool,
    arr: &Arrangement) -> (r: Option<WritePlan>)
    ensures
        r is Some <==> (!writing && (write_inputs(date@, time@, gap_groups@, gap_within@) matches Some(i)
            && assignable_at(arr@, i.0, i.1))),
        r matches Some(plan) ==> {
            let i = write_inputs(date@, time@, gap_groups@, gap_within@)->Some_0;
            &&& plan.dest == (if copy_mode { Destination::CopyToOutput } else { Destination::InPlace })
            &&& stamped_as(plan.timed@, arr@, i.0, i.1)
        },
{
    if writing {
        return None;
    }
    let (start, spacing) = match parse_write_inputs(date, time, gap_groups, gap_within) {
        Some(inputs) => inputs,
        None => {
            return None;
        },
    };
    let timed = match try_assign_times_at(arr, start, spacing) {
        Some(t) => t,
        None => {
            return None;
        },
    };
    let dest = if copy_mode { Destination::CopyToOutput } else { Destination::InPlace };
    Some(WritePlan { timed, dest })
}

/// What reading a stamped photo's capture time back gave.
pub enum ReadBack {
    /// The file was read; the capture time, if it has one.
    Read(Option<String>),
    /// Reading failed, with this message.
    Failed(String),
}

/// A read-back confirms a write when it found exactly the written text.
pub open spec fn confirms(rb: ReadBack, written: Seq<char>) -> bool {
    rb matches ReadBack::Read(Some(v)) && v@ == written
}

/// The positions, in the read-back sample, of the reads that do not confirm
/// their photo's write.
pub open spec fn misses(stamped: Seq<TimedPhoto>, sample: Seq<usize>, reads: Seq<ReadBack>) -> Seq<usize>
    decreases reads.len(),
{
    if reads.len() == 0 {
        Seq::empty()
    } else {
        let k = reads.len() - 1;
        let rest = misses(stamped, sample, reads.drop_last());
        if confirms(reads[k], stamped[sample[k] as int].exif_datetime@) {
            rest
        } else {
            rest.push(k as usize)
        }
    }
}

/// Tally the read-back of a sample of the stamped photos: `reads[k]` is
/// what reading photo `sample[k]` back gave. Returns how many confirmed
/// their write and the sample positions of those that did not.
pub fn tally_read_back(stamped: &[TimedPhoto], sample: &[usize], reads: &[ReadBack]) -> (r: (usize, Vec<usize>))
    requires
        sample@.len() == reads@.len(),
        forall|k: int| 0 <= k < sample@.len() ==> (#[trigger] sample@[k]) < stamped@.len(),
    ensures
        r.1@ == misses(stamped@, sample@, reads@),
        r.0 == reads@.len() - r.1@.len(),
{
    let mut verified: usize = 0;
    let mut failed: Vec<usize> = Vec::new();
    let mut k: usize = 0;
    while k < reads.len()
        invariant
            k <= reads@.len(),
            sample@.len() == reads@.len(),
            forall|j: int| 0 <= j < sample@.len() ==> (#[trigger] sample@[j]) < stamped@.len(),
            failed@ == misses(stamped@, sample@, reads@.take(k as int)),
            verified + failed@.len() == k,
        decreases reads@.len() - k,
    {
        proof {
            assert(reads@.take(k + 1).drop_last() =~= reads@.take(k as int));
            assert(reads@.take(k + 1)[k as int] == reads@[k as int]);
        }
        let expected = &stamped[sample[k]].exif_datetime;
        let ok = match &reads[k] {
            ReadBack::Read(Some(v)) => *v == *expected,
            _ => false,
        };
        if ok {
            verified = verified + 1;
        } else {
            failed.push(k);
        }
        k = k + 1;
    }
    proof {
        assert(reads@.take(k as int) =~= reads@);
    }
    (verified, failed)
}

} // verus!
