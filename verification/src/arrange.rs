//! Arrangement editing operations.
//!
//! Every edit is a total function: out-of-range indices are clamped or make
//! the edit a no-op, so the interactive layer can stay thin. Each operation
//! is specified over the arrangement's view (a sequence of groups, each a
//! sequence of photos), and the laws at the end of the file state what every
//! edit keeps: the photos themselves, and the absence of empty groups.
use vstd::prelude::*;
use vstd::seq_lib::*;
use vstd::multiset::*;
use crate::{Arrangement, Group, Photo, total_photos};
use crate::paths::{path_join, joined_path, path_eq, same_path};
use crate::grouping::{cluster, clusters_of, decode_error};
use crate::hashing::HexError;

verus! {


/// File name of the sidecar arrangement in a delivery folder.
pub const SIDECAR_NAME: &'static str = "arrangement.json";

/// The sidecar file of a delivery folder: `<folder>/arrangement.json`.
pub fn sidecar_path(folder: &str) -> (r: String)
    ensures
        r@ == joined_path(folder@, SIDECAR_NAME@),
{
    path_join(folder, SIDECAR_NAME)
}

/// A prefix of an arrangement holds no more photos than the whole.
pub proof fn lemma_total_prefix_le(s: Seq<Seq<Photo>>, k: int)
    requires
        0 <= k <= s.len(),
    ensures
        total_photos(s.take(k)) <= total_photos(s),
    decreases s.len(),
{
    if k < s.len() {
        assert(s.drop_last().take(k) =~= s.take(k));
        lemma_total_prefix_le(s.drop_last(), k);
    } else {
        assert(s.take(k) =~= s);
    }
}

// ---------------------------------------------------------------------------
// Specifications of the edits
// ---------------------------------------------------------------------------

/// Moving group `from` to index `to` (clamped to the end).
pub open spec fn moved_group(s: Seq<Seq<Photo>>, from: int, to: int) -> Seq<Seq<Photo>> {
    if s.len() == 0 || from < 0 || from >= s.len() {
        s
    } else {
        let rest = s.remove(from);
        let to = if to < rest.len() { to } else { rest.len() as int };
        rest.insert(to, s[from])
    }
}

/// Moving photo `fp` of group `fg` into group `tg` before index `tp`
/// (indices before removal, clamped); a group left empty disappears.
pub open spec fn moved_photo(s: Seq<Seq<Photo>>, fg: int, fp: int, tg: int, tp: int) -> Seq<Seq<Photo>> {
    if fg < 0 || fg >= s.len() || fp < 0 || fp >= s[fg].len() || tg < 0 || tg >= s.len() {
        s
    } else {
        let photo = s[fg][fp];
        let s1 = s.update(fg, s[fg].remove(fp));
        let tp1 = if tg == fg && tp > fp { tp - 1 } else { tp };
        let tp2 = if tp1 < s1[tg].len() { tp1 } else { s1[tg].len() as int };
        let s2 = s1.update(tg, s1[tg].insert(tp2, photo));
        if s2[fg].len() == 0 { s2.remove(fg) } else { s2 }
    }
}

/// Taking photo `fp` of group `fg` out into a new singleton group placed at
/// group index `dest` (clamped); a photo alone in its group just moves the
/// group.
pub open spec fn split_off(s: Seq<Seq<Photo>>, fg: int, fp: int, dest: int) -> Seq<Seq<Photo>> {
    if fg < 0 || fg >= s.len() || fp < 0 || fp >= s[fg].len() {
        s
    } else if s[fg].len() == 1 {
        let last = s.len() - 1;
        moved_group(s, fg, if dest < last { dest } else { last })
    } else {
        let s1 = s.update(fg, s[fg].remove(fp));
        let d = if dest < s.len() { dest } else { s.len() as int };
        s1.insert(d, seq![s[fg][fp]])
    }
}

/// Appending the photos of group `source` to group `target` and removing
/// `source`.
pub open spec fn merged(s: Seq<Seq<Photo>>, target: int, source: int) -> Seq<Seq<Photo>> {
    if target == source || target < 0 || target >= s.len() || source < 0 || source >= s.len() {
        s
    } else {
        s.update(target, s[target] + s[source]).remove(source)
    }
}

/// All photos of an arrangement, counted with multiplicity.
pub open spec fn photo_bag(s: Seq<Seq<Photo>>) -> Multiset<Photo> {
    s.flatten().to_multiset()
}

/// No group of the arrangement is empty.
pub open spec fn no_empty_groups(s: Seq<Seq<Photo>>) -> bool {
    forall|g: int| 0 <= g < s.len() ==> #[trigger] s[g].len() > 0
}

// ---------------------------------------------------------------------------
// Edits
// ---------------------------------------------------------------------------

/// Move the group at `from` so it ends up at index `to`. Out-of-range
/// targets are clamped to the end; an out-of-range source is a no-op.
pub fn move_group(arr: &mut Arrangement, from: usize, to: usize)
    ensures
        final(arr)@ == moved_group(old(arr)@, from as int, to as int),
{
    if arr.groups.len() == 0 || from >= arr.groups.len() {
        return;
    }
    let ghost s = arr@;
    let group = arr.groups.remove(from);
    let to = if to < arr.groups.len() { to } else { arr.groups.len() };
    arr.groups.insert(to, group);
    proof {
        assert(arr@ =~= moved_group(s, from as int, to as int));
    }
}

/// Move one photo from `(from_group, from_photo)` into group `to_group`,
/// inserted at photo index `to_photo` (clamped). Indices refer to the state
/// before removal; a group left empty by the move is removed.
pub fn move_photo(arr: &mut Arrangement, from: (usize, usize), to_group: usize, to_photo: usize)
    ensures
        final(arr)@ == moved_photo(old(arr)@, from.0 as int, from.1 as int, to_group as int, to_photo as int),
{
    let (fg, fp) = from;
    if fg >= arr.groups.len() || fp >= arr.groups[fg].photos.len() || to_group >= arr.groups.len() {
        return;
    }
    let ghost s = arr@;
    let mut source = arr.groups.remove(fg);
    let photo = source.photos.remove(fp);
    arr.groups.insert(fg, source);
    let ghost s1 = arr@;
    proof {
        assert(s1 =~= s.update(fg as int, s[fg as int].remove(fp as int)));
    }
    let mut tp = to_photo;
    if to_group == fg && to_photo > fp {
        tp = tp - 1;
    }
    let mut target = arr.groups.remove(to_group);
    let tp = if tp < target.photos.len() { tp } else { target.photos.len() };
    target.photos.insert(tp, photo);
    arr.groups.insert(to_group, target);
    let ghost s2 = arr@;
    proof {
        assert(s2 =~= s1.update(to_group as int, s1[to_group as int].insert(tp as int, s[fg as int][fp as int])));
    }
    if arr.groups[fg].photos.len() == 0 {
        arr.groups.remove(fg);
        proof {
            assert(arr@ =~= s2.remove(fg as int));
        }
    }
}

/// Take one photo out of its group and make it a new singleton group placed
/// at group index `dest_group` (clamped; indices refer to the state before
/// removal). Splitting a photo that is already alone in its group just
/// relocates that group.
pub fn split_photo(arr: &mut Arrangement, from: (usize, usize), dest_group: usize)
    ensures
        final(arr)@ == split_off(old(arr)@, from.0 as int, from.1 as int, dest_group as int),
{
    let (fg, fp) = from;
    if fg >= arr.groups.len() || fp >= arr.groups[fg].photos.len() {
        return;
    }
    if arr.groups[fg].photos.len() == 1 {
        let last = arr.groups.len() - 1;
        let dest = if dest_group < last { dest_group } else { last };
        move_group(arr, fg, dest);
        return;
    }
    let ghost s = arr@;
    let mut source = arr.groups.remove(fg);
    let photo = source.photos.remove(fp);
    arr.groups.insert(fg, source);
    let ghost s1 = arr@;
    proof {
        assert(s1 =~= s.update(fg as int, s[fg as int].remove(fp as int)));
    }
    let dest = if dest_group < arr.groups.len() { dest_group } else { arr.groups.len() };
    let mut photos: Vec<Photo> = Vec::new();
    photos.push(photo);
    arr.groups.insert(dest, Group { photos });
    proof {
        assert(arr@ =~= s1.insert(dest as int, seq![s[fg as int][fp as int]]));
    }
}

/// Merge the photos of `source` onto the end of `target`; `source` is
/// removed. Indices refer to the state before the merge; a self-merge or an
/// out-of-range index is a no-op.
pub fn merge_groups(arr: &mut Arrangement, target: usize, source: usize)
    ensures
        final(arr)@ == merged(old(arr)@, target as int, source as int),
{
    if target == source || target >= arr.groups.len() || source >= arr.groups.len() {
        return;
    }
    let ghost s = arr@;
    let mut src = arr.groups.remove(source);
    let ghost s1 = arr@;
    let t = if target < source { target } else { target - 1 };
    let mut dst = arr.groups.remove(t);
    dst.photos.append(&mut src.photos);
    arr.groups.insert(t, dst);
    proof {
        assert(arr@ =~= s.update(target as int, s[target as int] + s[source as int]).remove(source as int));
    }
}

// ---------------------------------------------------------------------------
// Queries
// ---------------------------------------------------------------------------

/// Photo `p` of group `g` is the first photo at `path`, taking groups in
/// order and photos in order within a group.
pub open spec fn first_at(s: Seq<Seq<Photo>>, path: Seq<char>, g: int, p: int) -> bool {
    &&& 0 <= g < s.len()
    &&& 0 <= p < s[g].len()
    &&& same_path(s[g][p].path@, path)
    &&& forall|h: int, q: int| 0 <= h < s.len() && 0 <= q < s[h].len() && (h < g || (h == g && q < p))
            ==> !same_path(#[trigger] s[h][q].path@, path)
}

/// Where the first photo at `path` stands, if any photo is there.
pub open spec fn located(s: Seq<Seq<Photo>>, path: Seq<char>) -> Option<(int, int)> {
    if exists|g: int, p: int| first_at(s, path, g, p) {
        Some(choose|g: int, p: int| first_at(s, path, g, p))
    } else {
        None
    }
}

/// There is only one first photo at a path.
pub proof fn lemma_first_at_unique(s: Seq<Seq<Photo>>, path: Seq<char>, g1: int, p1: int, g2: int, p2: int)
    requires
        first_at(s, path, g1, p1),
        first_at(s, path, g2, p2),
    ensures
        g1 == g2 && p1 == p2,
{
    if g1 < g2 || (g1 == g2 && p1 < p2) {
        assert(!same_path(s[g1][p1].path@, path));
    } else if g2 < g1 || (g1 == g2 && p2 < p1) {
        assert(!same_path(s[g2][p2].path@, path));
    }
}

/// The first photo at `path` is what `located` gives.
pub proof fn lemma_located(s: Seq<Seq<Photo>>, path: Seq<char>, g: int, p: int)
    requires
        first_at(s, path, g, p),
    ensures
        located(s, path) == Some((g, p)),
{
    let (g2, p2) = choose|g: int, p: int| first_at(s, path, g, p);
    lemma_first_at_unique(s, path, g, p, g2, p2);
}

/// Locate a photo by path, returning `(group index, photo index)` of its
/// first occurrence (groups in order, photos in order). Edits shuffle
/// indices, so callers re-find photos by path after every mutation.
pub fn find_photo(arr: &Arrangement, path: &str) -> (r: Option<(usize, usize)>)
    ensures
        match r {
            Some((g, p)) => {
                &&& g < arr@.len()
                &&& p < arr@[g as int].len()
                &&& same_path(arr@[g as int][p as int].path@, path@)
                &&& forall|h: int, q: int| 0 <= h < arr@.len() && 0 <= q < arr@[h].len()
                        && (h < g || (h == g && q < p)) ==> !same_path(arr@[h][q].path@, path@)
            },
            None => forall|h: int, q: int| 0 <= h < arr@.len() && 0 <= q < arr@[h].len()
                ==> !same_path(arr@[h][q].path@, path@),
        },
        match r {
            Some((g, p)) => located(arr@, path@) == Some((g as int, p as int)),
            None => located(arr@, path@) is None,
        },
{
    let mut gi: usize = 0;
    while gi < arr.groups.len()
        invariant
            gi <= arr.groups.len(),
            forall|h: int, q: int| 0 <= h < gi && 0 <= q < arr@[h].len() ==> !same_path(arr@[h][q].path@, path@),
        decreases arr.groups.len() - gi,
    {
        let photos = &arr.groups[gi].photos;
        let mut pi: usize = 0;
        while pi < photos.len()
            invariant
                gi < arr.groups.len(),
                photos@ == arr@[gi as int],
                pi <= photos.len(),
                forall|h: int, q: int| 0 <= h < gi && 0 <= q < arr@[h].len() ==> !same_path(arr@[h][q].path@, path@),
                forall|q: int| 0 <= q < pi ==> !same_path(arr@[gi as int][q].path@, path@),
            decreases photos.len() - pi,
        {
            if path_eq(photos[pi].path.as_str(), path) {
                proof {
                    lemma_located(arr@, path@, gi as int, pi as int);
                }
                return Some((gi, pi));
            }
            pi = pi + 1;
        }
        gi = gi + 1;
    }
    None
}

/// Whether some photo of `photos` is at the same path as `path`.
pub open spec fn path_among(photos: Seq<Photo>, path: Seq<char>) -> bool {
    exists|j: int| 0 <= j < photos.len() && same_path(#[trigger] photos[j].path@, path)
}

/// The arrangement covers exactly the paths of `photos`: as many photos in
/// both, and the same set of paths (each path of one side is a path of the
/// other side).
pub open spec fn covers(s: Seq<Seq<Photo>>, photos: Seq<Photo>) -> bool {
    &&& total_photos(s) == photos.len()
    &&& forall|g: int, k: int| 0 <= g < s.len() && 0 <= k < s[g].len()
            ==> path_among(photos, #[trigger] s[g][k].path@)
    &&& forall|j: int| 0 <= j < photos.len() ==> path_in(s, #[trigger] photos[j].path@)
}

/// Whether some photo of the arrangement is at the same path as `path`.
pub open spec fn path_in(s: Seq<Seq<Photo>>, path: Seq<char>) -> bool {
    exists|g: int, k: int| 0 <= g < s.len() && 0 <= k < s[g].len() && same_path(#[trigger] s[g][k].path@, path)
}

/// Whether some photo of the arrangement is at the same path as `path`.
fn arrangement_has_path(arr: &Arrangement, path: &str) -> (r: bool)
    ensures
        r == path_in(arr@, path@),
{
    let mut gi: usize = 0;
    while gi < arr.groups.len()
        invariant
            gi <= arr.groups.len(),
            forall|h: int, q: int| 0 <= h < gi && 0 <= q < arr@[h].len() ==> !same_path(arr@[h][q].path@, path@),
        decreases arr.groups.len() - gi,
    {
        let photos = &arr.groups[gi].photos;
        let mut pi: usize = 0;
        while pi < photos.len()
            invariant
                gi < arr.groups.len(),
                photos@ == arr@[gi as int],
                pi <= photos.len(),
                forall|h: int, q: int| 0 <= h < gi && 0 <= q < arr@[h].len() ==> !same_path(arr@[h][q].path@, path@),
                forall|q: int| 0 <= q < pi ==> !same_path(arr@[gi as int][q].path@, path@),
            decreases photos.len() - pi,
        {
            if path_eq(photos[pi].path.as_str(), path) {
                assert(same_path(arr@[gi as int][pi as int].path@, path@));
                return true;
            }
            pi = pi + 1;
        }
        gi = gi + 1;
    }
    false
}

/// Whether some photo of `photos` is at the same path as `path`.
fn photos_have_path(photos: &[Photo], path: &str) -> (r: bool)
    ensures
        r == path_among(photos@, path@),
{
    let mut j: usize = 0;
    while j < photos.len()
        invariant
            j <= photos.len(),
            forall|i: int| 0 <= i < j ==> !same_path(photos@[i].path@, path@),
        decreases photos.len() - j,
    {
        if path_eq(photos[j].path.as_str(), path) {
            return true;
        }
        j = j + 1;
    }
    false
}

/// Whether the arrangement lists exactly the given photos' paths: the same
/// set, in any order, with as many entries. A saved arrangement is only
/// taken up again when this holds for the photos found in the folder; the
/// count keeps a repeated entry from standing in for a missing one.
pub fn covers_same_photos(arr: &Arrangement, photos: &[Photo]) -> (r: bool)
    ensures
        r == covers(arr@, photos@),
{
    // Count the arrangement's photos, giving up as soon as it exceeds the
    // scanned count.
    let mut count: usize = 0;
    let mut gi: usize = 0;
    while gi < arr.groups.len()
        invariant
            gi <= arr.groups.len(),
            count == total_photos(arr@.take(gi as int)),
            count <= photos.len(),
        decreases arr.groups.len() - gi,
    {
        proof {
            assert(arr@.take(gi + 1).drop_last() =~= arr@.take(gi as int));
        }
        let len = arr.groups[gi].photos.len();
        if len > photos.len() - count {
            proof {
                lemma_total_prefix_le(arr@, gi + 1);
            }
            return false;
        }
        count = count + len;
        gi = gi + 1;
    }
    proof {
        assert(arr@.take(gi as int) =~= arr@);
    }
    if count != photos.len() {
        return false;
    }
    // Every saved path is a scanned path.
    let mut gi: usize = 0;
    while gi < arr.groups.len()
        invariant
            gi <= arr.groups.len(),
            total_photos(arr@) == photos.len(),
            forall|h: int, q: int| 0 <= h < gi && 0 <= q < arr@[h].len() ==> path_among(photos@, #[trigger] arr@[h][q].path@),
        decreases arr.groups.len() - gi,
    {
        let group = &arr.groups[gi].photos;
        let mut pi: usize = 0;
        while pi < group.len()
            invariant
                gi < arr.groups.len(),
                group@ == arr@[gi as int],
                pi <= group.len(),
                total_photos(arr@) == photos.len(),
                forall|h: int, q: int| 0 <= h < gi && 0 <= q < arr@[h].len() ==> path_among(photos@, #[trigger] arr@[h][q].path@),
                forall|q: int| 0 <= q < pi ==> path_among(photos@, #[trigger] arr@[gi as int][q].path@),
            decreases group.len() - pi,
        {
            if !photos_have_path(photos, group[pi].path.as_str()) {
                return false;
            }
            pi = pi + 1;
        }
        gi = gi + 1;
    }
    // Every scanned path is a saved path.
    let mut j: usize = 0;
    while j < photos.len()
        invariant
            j <= photos.len(),
            total_photos(arr@) == photos.len(),
            forall|h: int, q: int| 0 <= h < arr@.len() && 0 <= q < arr@[h].len() ==> path_among(photos@, #[trigger] arr@[h][q].path@),
            forall|i: int| 0 <= i < j ==> path_in(arr@, #[trigger] photos@[i].path@),
        decreases photos.len() - j,
    {
        if !arrangement_has_path(arr, photos[j].path.as_str()) {
            return false;
        }
        j = j + 1;
    }
    true
}

/// The arrangement a scan opens with, and whether it was resumed: the saved
/// arrangement when it lists exactly the scanned photos, otherwise a fresh
/// clustering of them (which fails on the first hash that does not decode).
pub fn resume_or_cluster(saved: Option<Arrangement>, photos: &[Photo], threshold: u32) -> (r: Result<(Arrangement, bool), HexError>)
    ensures
        (saved matches Some(a) && covers(a@, photos@)) ==> r == Ok::<(Arrangement, bool), HexError>((saved->Some_0, true)),
        !(saved matches Some(a) && covers(a@, photos@)) ==> match r {
            Ok((a, resumed)) => {
                &&& !resumed
                &&& decode_error(photos@) is None
                &&& clusters_of(photos@, threshold as nat, a@)
            },
            Err(e) => decode_error(photos@) == Some(e),
        },
{
    match saved {
        Some(a) => {
            if covers_same_photos(&a, photos) {
                return Ok((a, true));
            }
        },
        None => {},
    }
    match cluster(photos, threshold) {
        Ok(groups) => {
            let a = Arrangement { groups };
            proof {
                assert(a@ == a.groups@.map_values(|g: Group| g.photos@));
            }
            Ok((a, false))
        },
        Err(e) => Err(e),
    }
}

/// The groups of `s` that hold at least one photo, in order.
pub open spec fn non_empty(s: Seq<Seq<Photo>>) -> Seq<Seq<Photo>> {
    s.filter(has_photos())
}

/// The predicate "the group holds at least one photo".
pub open spec fn has_photos() -> spec_fn(Seq<Photo>) -> bool {
    |g: Seq<Photo>| g.len() > 0
}

/// Remove empty groups (a hand-edited sidecar may contain some; consumers
/// assume every group has a first photo).
pub fn drop_empty_groups(arr: &mut Arrangement)
    ensures
        final(arr)@ == non_empty(old(arr)@),
{
    let ghost s = arr@;
    let mut kept: Vec<Group> = Vec::new();
    let mut rest: Vec<Group> = Vec::new();
    std::mem::swap(&mut rest, &mut arr.groups);
    let n = rest.len();
    let ghost orig = rest@;
    while rest.len() > 0
        invariant
            orig.map_values(|g: Group| g.photos@) == s,
            n == orig.len(),
            rest.len() <= n,
            rest@ == orig.skip(n - rest.len()),
            kept@.map_values(|g: Group| g.photos@) == non_empty(s.take(n - rest.len())),
        decreases rest.len(),
    {
        let ghost k = n - rest.len();
        let g = rest.remove(0);
        proof {
            assert(rest@ =~= orig.skip(k + 1));
            assert(s.take(k + 1) =~= s.take(k).push(s[k]));
            s.take(k).lemma_filter_push(s[k], has_photos());
        }
        if g.photos.len() > 0 {
            kept.push(g);
        }
        proof {
            assert(kept@.map_values(|g: Group| g.photos@) =~= non_empty(s.take(k + 1)));
        }
    }
    proof {
        assert(s.take(n as int) =~= s);
    }
    arr.groups = kept;
}

} // verus!

verus! {

// ---------------------------------------------------------------------------
// Laws
// ---------------------------------------------------------------------------

proof fn lemma_cancel(a: Multiset<Photo>, b: Multiset<Photo>, c: Multiset<Photo>)
    requires
        a.add(c) =~= b.add(c),
    ensures
        a =~= b,
{
    broadcast use vstd::multiset::group_multiset_axioms;
    assert forall|x: Photo| a.count(x) == b.count(x) by {
        assert(a.add(c).count(x) == b.add(c).count(x));
    }
}

proof fn lemma_empty_multiset(x: Seq<Photo>)
    requires
        x.len() == 0,
    ensures
        x.to_multiset() =~= Multiset::<Photo>::empty(),
{
    broadcast use vstd::multiset::group_multiset_axioms;
    assert forall|a: Photo| x.to_multiset().count(a) == 0 by {
        to_multiset_contains(x, a);
    }
}

proof fn lemma_single_multiset(p: Photo)
    ensures
        seq![p].to_multiset() =~= Multiset::<Photo>::empty().insert(p),
{
    assert(seq![p] =~= Seq::<Photo>::empty().push(p));
    to_multiset_build(Seq::<Photo>::empty(), p);
    lemma_empty_multiset(Seq::<Photo>::empty());
}

proof fn lemma_bag_concat(a: Seq<Seq<Photo>>, b: Seq<Seq<Photo>>)
    ensures
        photo_bag(a + b) =~= photo_bag(a).add(photo_bag(b)),
{
    lemma_flatten_concat(a, b);
    lemma_multiset_commutative(a.flatten(), b.flatten());
}

proof fn lemma_bag_single(g: Seq<Photo>)
    ensures
        photo_bag(seq![g]) =~= g.to_multiset(),
{
    seq![g].lemma_flatten_one_element();
}

/// The bag of an arrangement split around group `i`.
proof fn lemma_bag_split(s: Seq<Seq<Photo>>, i: int)
    requires
        0 <= i < s.len(),
    ensures
        photo_bag(s) =~= photo_bag(s.take(i)).add(s[i].to_multiset()).add(photo_bag(s.skip(i + 1))),
{
    assert(s =~= s.take(i) + seq![s[i]] + s.skip(i + 1));
    lemma_bag_concat(s.take(i) + seq![s[i]], s.skip(i + 1));
    lemma_bag_concat(s.take(i), seq![s[i]]);
    lemma_bag_single(s[i]);
}

proof fn lemma_bag_update(s: Seq<Seq<Photo>>, i: int, g: Seq<Photo>)
    requires
        0 <= i < s.len(),
    ensures
        photo_bag(s.update(i, g)).add(s[i].to_multiset()) =~= photo_bag(s).add(g.to_multiset()),
{
    broadcast use vstd::multiset::group_multiset_axioms;
    let t = s.update(i, g);
    lemma_bag_split(s, i);
    lemma_bag_split(t, i);
    assert(t.take(i) =~= s.take(i));
    assert(t.skip(i + 1) =~= s.skip(i + 1));
}

proof fn lemma_bag_remove(s: Seq<Seq<Photo>>, i: int)
    requires
        0 <= i < s.len(),
    ensures
        photo_bag(s.remove(i)).add(s[i].to_multiset()) =~= photo_bag(s),
{
    broadcast use vstd::multiset::group_multiset_axioms;
    lemma_bag_split(s, i);
    assert(s.remove(i) =~= s.take(i) + s.skip(i + 1));
    lemma_bag_concat(s.take(i), s.skip(i + 1));
}

proof fn lemma_bag_insert(s: Seq<Seq<Photo>>, i: int, g: Seq<Photo>)
    requires
        0 <= i <= s.len(),
    ensures
        photo_bag(s.insert(i, g)) =~= photo_bag(s).add(g.to_multiset()),
{
    broadcast use vstd::multiset::group_multiset_axioms;
    let t = s.insert(i, g);
    s.insert_ensures(i, g);
    lemma_bag_split(t, i);
    assert(t.take(i) =~= s.take(i));
    assert(t.skip(i + 1) =~= s.skip(i));
    assert(s =~= s.take(i) + s.skip(i));
    lemma_bag_concat(s.take(i), s.skip(i));
}

/// Removing photo `fp` from group `fg` leaves every other photo.
proof fn lemma_bag_take_photo(s: Seq<Seq<Photo>>, fg: int, fp: int)
    requires
        0 <= fg < s.len(),
        0 <= fp < s[fg].len(),
    ensures
        photo_bag(s.update(fg, s[fg].remove(fp))).insert(s[fg][fp]) =~= photo_bag(s),
{
    broadcast use vstd::multiset::group_multiset_axioms;
    let r = s[fg].remove(fp);
    let p = s[fg][fp];
    lemma_bag_update(s, fg, r);
    to_multiset_remove(s[fg], fp);
    to_multiset_contains(s[fg], p);
    assert(s[fg].contains(p));
    assert forall|x: Photo| s[fg].to_multiset().count(x) == r.to_multiset().insert(p).count(x) by {}
    assert(s[fg].to_multiset() =~= r.to_multiset().insert(p));
    let a = photo_bag(s.update(fg, r)).insert(p);
    let b = photo_bag(s);
    assert(a.add(r.to_multiset()) =~= b.add(r.to_multiset()));
    lemma_cancel(a, b, r.to_multiset());
}

/// Putting `photo` into group `tg` at index `tp` adds exactly that photo.
proof fn lemma_bag_put_photo(s: Seq<Seq<Photo>>, tg: int, tp: int, photo: Photo)
    requires
        0 <= tg < s.len(),
        0 <= tp <= s[tg].len(),
    ensures
        photo_bag(s.update(tg, s[tg].insert(tp, photo))) =~= photo_bag(s).insert(photo),
{
    broadcast use vstd::multiset::group_multiset_axioms;
    let g = s[tg].insert(tp, photo);
    lemma_bag_update(s, tg, g);
    to_multiset_insert(s[tg], tp, photo);
    let a = photo_bag(s.update(tg, g));
    let b = photo_bag(s).insert(photo);
    assert(a.add(s[tg].to_multiset()) =~= b.add(s[tg].to_multiset()));
    lemma_cancel(a, b, s[tg].to_multiset());
}

/// Moving a group keeps every photo of the arrangement, with its
/// multiplicity.
pub proof fn lemma_move_group_keeps_photos(s: Seq<Seq<Photo>>, from: int, to: int)
    requires
        to >= 0,
    ensures
        photo_bag(moved_group(s, from, to)) =~= photo_bag(s),
{
    if !(s.len() == 0 || from < 0 || from >= s.len()) {
        let rest = s.remove(from);
        let t = if to < rest.len() { to } else { rest.len() as int };
        lemma_bag_remove(s, from);
        lemma_bag_insert(rest, t, s[from]);
    }
}

/// Moving a photo keeps every photo of the arrangement, with its
/// multiplicity.
pub proof fn lemma_move_photo_keeps_photos(s: Seq<Seq<Photo>>, fg: int, fp: int, tg: int, tp: int)
    requires
        tp >= 0,
    ensures
        photo_bag(moved_photo(s, fg, fp, tg, tp)) =~= photo_bag(s),
{
    broadcast use vstd::multiset::group_multiset_axioms;
    if !(fg < 0 || fg >= s.len() || fp < 0 || fp >= s[fg].len() || tg < 0 || tg >= s.len()) {
        let photo = s[fg][fp];
        let s1 = s.update(fg, s[fg].remove(fp));
        let tp1 = if tg == fg && tp > fp { tp - 1 } else { tp };
        let tp2 = if tp1 < s1[tg].len() { tp1 } else { s1[tg].len() as int };
        let s2 = s1.update(tg, s1[tg].insert(tp2, photo));
        lemma_bag_take_photo(s, fg, fp);
        lemma_bag_put_photo(s1, tg, tp2, photo);
        if s2[fg].len() == 0 {
            lemma_bag_remove(s2, fg);
            lemma_empty_multiset(s2[fg]);
        }
    }
}

/// Splitting a photo out keeps every photo of the arrangement, with its
/// multiplicity.
pub proof fn lemma_split_photo_keeps_photos(s: Seq<Seq<Photo>>, fg: int, fp: int, dest: int)
    requires
        dest >= 0,
    ensures
        photo_bag(split_off(s, fg, fp, dest)) =~= photo_bag(s),
{
    broadcast use vstd::multiset::group_multiset_axioms;
    if !(fg < 0 || fg >= s.len() || fp < 0 || fp >= s[fg].len()) {
        if s[fg].len() == 1 {
            let last = s.len() - 1;
            lemma_move_group_keeps_photos(s, fg, if dest < last { dest } else { last });
        } else {
            let p = s[fg][fp];
            let s1 = s.update(fg, s[fg].remove(fp));
            let d = if dest < s.len() { dest } else { s.len() as int };
            lemma_bag_take_photo(s, fg, fp);
            lemma_bag_insert(s1, d, seq![p]);
            lemma_single_multiset(p);
        }
    }
}

/// Merging groups keeps every photo of the arrangement, with its
/// multiplicity.
pub proof fn lemma_merge_groups_keeps_photos(s: Seq<Seq<Photo>>, target: int, source: int)
    ensures
        photo_bag(merged(s, target, source)) =~= photo_bag(s),
{
    broadcast use vstd::multiset::group_multiset_axioms;
    if !(target == source || target < 0 || target >= s.len() || source < 0 || source >= s.len()) {
        let g = s[target] + s[source];
        let s1 = s.update(target, g);
        lemma_bag_update(s, target, g);
        lemma_multiset_commutative(s[target], s[source]);
        lemma_bag_remove(s1, source);
        assert(s1[source] == s[source]);
        let a = photo_bag(s1.remove(source));
        let b = photo_bag(s);
        assert(a.add(s[source].to_multiset()).add(s[target].to_multiset())
            =~= b.add(s[source].to_multiset()).add(s[target].to_multiset()));
        lemma_cancel(a.add(s[source].to_multiset()), b.add(s[source].to_multiset()), s[target].to_multiset());
        lemma_cancel(a, b, s[source].to_multiset());
    }
}

/// Moving a group keeps the arrangement free of empty groups.
pub proof fn lemma_move_group_keeps_groups_non_empty(s: Seq<Seq<Photo>>, from: int, to: int)
    requires
        no_empty_groups(s),
        to >= 0,
    ensures
        no_empty_groups(moved_group(s, from, to)),
{
    if !(s.len() == 0 || from < 0 || from >= s.len()) {
        let rest = s.remove(from);
        let t = if to < rest.len() { to } else { rest.len() as int };
        s.remove_ensures(from);
        rest.insert_ensures(t, s[from]);
        let r = moved_group(s, from, to);
        assert forall|g: int| 0 <= g < r.len() implies #[trigger] r[g].len() > 0 by {
            if g < t {
                assert(r[g] == rest[g]);
            } else if g > t {
                assert(r[g] == rest[g - 1]);
            }
            if g != t {
                let k = if g < t { g } else { g - 1 };
                if k < from {
                    assert(rest[k] == s[k]);
                } else {
                    assert(rest[k] == s[k + 1]);
                }
            }
        }
    }
}

/// Moving a photo keeps the arrangement free of empty groups: the group it
/// leaves disappears if it is left empty.
pub proof fn lemma_move_photo_keeps_groups_non_empty(s: Seq<Seq<Photo>>, fg: int, fp: int, tg: int, tp: int)
    requires
        no_empty_groups(s),
        tp >= 0,
    ensures
        no_empty_groups(moved_photo(s, fg, fp, tg, tp)),
{
    if !(fg < 0 || fg >= s.len() || fp < 0 || fp >= s[fg].len() || tg < 0 || tg >= s.len()) {
        let photo = s[fg][fp];
        let s1 = s.update(fg, s[fg].remove(fp));
        let tp1 = if tg == fg && tp > fp { tp - 1 } else { tp };
        let tp2 = if tp1 < s1[tg].len() { tp1 } else { s1[tg].len() as int };
        let s2 = s1.update(tg, s1[tg].insert(tp2, photo));
        s1[tg].insert_ensures(tp2, photo);
        assert forall|g: int| 0 <= g < s2.len() && g != fg implies #[trigger] s2[g].len() > 0 by {
            if g != tg {
                assert(s2[g] == s[g]);
            }
        }
        let r = moved_photo(s, fg, fp, tg, tp);
        if s2[fg].len() == 0 {
            s2.remove_ensures(fg);
            assert forall|g: int| 0 <= g < r.len() implies #[trigger] r[g].len() > 0 by {
                if g < fg {
                    assert(r[g] == s2[g]);
                } else {
                    assert(r[g] == s2[g + 1]);
                }
            }
        }
    }
}

/// Splitting a photo out keeps the arrangement free of empty groups.
pub proof fn lemma_split_photo_keeps_groups_non_empty(s: Seq<Seq<Photo>>, fg: int, fp: int, dest: int)
    requires
        no_empty_groups(s),
        dest >= 0,
    ensures
        no_empty_groups(split_off(s, fg, fp, dest)),
{
    if !(fg < 0 || fg >= s.len() || fp < 0 || fp >= s[fg].len()) {
        if s[fg].len() == 1 {
            let last = s.len() - 1;
            lemma_move_group_keeps_groups_non_empty(s, fg, if dest < last { dest } else { last });
        } else {
            let s1 = s.update(fg, s[fg].remove(fp));
            let d = if dest < s.len() { dest } else { s.len() as int };
            s1.insert_ensures(d, seq![s[fg][fp]]);
            let r = split_off(s, fg, fp, dest);
            assert forall|g: int| 0 <= g < r.len() implies #[trigger] r[g].len() > 0 by {
                if g < d {
                    assert(r[g] == s1[g]);
                } else if g > d {
                    assert(r[g] == s1[g - 1]);
                }
            }
        }
    }
}

/// Merging groups keeps the arrangement free of empty groups.
pub proof fn lemma_merge_groups_keeps_groups_non_empty(s: Seq<Seq<Photo>>, target: int, source: int)
    requires
        no_empty_groups(s),
    ensures
        no_empty_groups(merged(s, target, source)),
{
    if !(target == source || target < 0 || target >= s.len() || source < 0 || source >= s.len()) {
        let s1 = s.update(target, s[target] + s[source]);
        s1.remove_ensures(source);
        let r = merged(s, target, source);
        assert forall|g: int| 0 <= g < r.len() implies #[trigger] r[g].len() > 0 by {
            let k = if g < source { g } else { g + 1 };
            assert(r[g] == s1[k]);
        }
    }
}

/// Dropping empty groups leaves none and keeps every photo.
pub proof fn lemma_drop_empty_groups(s: Seq<Seq<Photo>>)
    ensures
        no_empty_groups(non_empty(s)),
        photo_bag(non_empty(s)) =~= photo_bag(s),
    decreases s.len(),
{
    broadcast use vstd::multiset::group_multiset_axioms;
    broadcast use vstd::seq_lib::group_filter_ensures;
    if s.len() > 0 {
        let init = s.drop_last();
        lemma_drop_empty_groups(init);
        assert(s =~= init.push(s.last()));
        init.lemma_filter_push(s.last(), has_photos());
        assert(init.push(s.last()) =~= init + seq![s.last()]);
        lemma_bag_concat(init, seq![s.last()]);
        lemma_bag_single(s.last());
        if s.last().len() > 0 {
            let f = non_empty(init);
            assert(f.push(s.last()) =~= f + seq![s.last()]);
            lemma_bag_concat(f, seq![s.last()]);
        } else {
            lemma_empty_multiset(s.last());
        }
    } else {
        assert(non_empty(s) =~= s);
    }
}

} // verus!

verus! {

// ---------------------------------------------------------------------------
// Where an edit puts things
// ---------------------------------------------------------------------------

/// Moving a photo later within its own group, before photo `tp` (counted
/// before the move): it ends up just before the photo that stood at `tp`,
/// the photos between close up behind it, and nothing else moves.
pub proof fn lemma_move_photo_later_in_group(s: Seq<Seq<Photo>>, g: int, fp: int, tp: int)
    requires
        0 <= g < s.len(),
        0 <= fp < tp <= s[g].len(),
    ensures
        moved_photo(s, g, fp, g, tp).len() == s.len(),
        forall|h: int| 0 <= h < s.len() && h != g ==> #[trigger] moved_photo(s, g, fp, g, tp)[h] == s[h],
        moved_photo(s, g, fp, g, tp)[g].len() == s[g].len(),
        moved_photo(s, g, fp, g, tp)[g][tp - 1] == s[g][fp],
        forall|k: int| 0 <= k < fp ==> #[trigger] moved_photo(s, g, fp, g, tp)[g][k] == s[g][k],
        forall|k: int| fp <= k < tp - 1 ==> #[trigger] moved_photo(s, g, fp, g, tp)[g][k] == s[g][k + 1],
        forall|k: int| tp <= k < s[g].len() ==> #[trigger] moved_photo(s, g, fp, g, tp)[g][k] == s[g][k],
{
    let r = moved_photo(s, g, fp, g, tp);
    let rest = s[g].remove(fp);
    let grp = rest.insert(tp - 1, s[g][fp]);
    assert(r == s.update(g, grp));
    assert forall|k: int| fp <= k < tp - 1 implies #[trigger] r[g][k] == s[g][k + 1] by {
        assert(grp[k] == rest[k]);
        assert(rest[k] == s[g][k + 1]);
    }
    assert forall|k: int| tp <= k < s[g].len() implies #[trigger] r[g][k] == s[g][k] by {
        assert(grp[k] == rest[k - 1]);
        assert(rest[k - 1] == s[g][k]);
    }
    assert forall|k: int| 0 <= k < fp implies #[trigger] r[g][k] == s[g][k] by {
        assert(grp[k] == rest[k]);
    }
}

/// Moving a photo earlier within its own group, before photo `tp`: it ends
/// up at `tp`, the photos from `tp` up to its old place move one on, and
/// nothing else moves.
pub proof fn lemma_move_photo_earlier_in_group(s: Seq<Seq<Photo>>, g: int, fp: int, tp: int)
    requires
        0 <= g < s.len(),
        0 <= tp <= fp < s[g].len(),
    ensures
        moved_photo(s, g, fp, g, tp).len() == s.len(),
        forall|h: int| 0 <= h < s.len() && h != g ==> #[trigger] moved_photo(s, g, fp, g, tp)[h] == s[h],
        moved_photo(s, g, fp, g, tp)[g].len() == s[g].len(),
        moved_photo(s, g, fp, g, tp)[g][tp] == s[g][fp],
        forall|k: int| 0 <= k < tp ==> #[trigger] moved_photo(s, g, fp, g, tp)[g][k] == s[g][k],
        forall|k: int| tp < k <= fp ==> #[trigger] moved_photo(s, g, fp, g, tp)[g][k] == s[g][k - 1],
        forall|k: int| fp < k < s[g].len() ==> #[trigger] moved_photo(s, g, fp, g, tp)[g][k] == s[g][k],
{
    let r = moved_photo(s, g, fp, g, tp);
    let rest = s[g].remove(fp);
    let grp = rest.insert(tp, s[g][fp]);
    assert(r == s.update(g, grp));
    assert forall|k: int| tp < k <= fp implies #[trigger] r[g][k] == s[g][k - 1] by {
        assert(grp[k] == rest[k - 1]);
    }
    assert forall|k: int| fp < k < s[g].len() implies #[trigger] r[g][k] == s[g][k] by {
        assert(grp[k] == rest[k - 1]);
        assert(rest[k - 1] == s[g][k]);
    }
    assert forall|k: int| 0 <= k < tp implies #[trigger] r[g][k] == s[g][k] by {
        assert(grp[k] == rest[k]);
    }
}

/// Moving a photo into another group, before photo `tp` (the end when `tp`
/// is past it): it stands there, the target's other photos keep their
/// order around it, and the source group closes up behind it, or
/// disappears when it held only that photo.
pub proof fn lemma_move_photo_to_other_group(s: Seq<Seq<Photo>>, fg: int, fp: int, tg: int, tp: int)
    requires
        0 <= fg < s.len(),
        0 <= tg < s.len(),
        fg != tg,
        0 <= fp < s[fg].len(),
        tp >= 0,
    ensures
        ({
            let r = moved_photo(s, fg, fp, tg, tp);
            let p = if tp < s[tg].len() { tp } else { s[tg].len() as int };
            let t = if s[fg].len() == 1 && tg > fg { tg - 1 } else { tg };
            &&& r.len() == (if s[fg].len() == 1 { s.len() - 1 } else { s.len() as int })
            &&& r[t].len() == s[tg].len() + 1
            &&& r[t][p] == s[fg][fp]
            &&& forall|k: int| 0 <= k < p ==> #[trigger] r[t][k] == s[tg][k]
            &&& forall|k: int| p < k <= s[tg].len() ==> #[trigger] r[t][k] == s[tg][k - 1]
            &&& s[fg].len() > 1 ==> r[fg].len() == s[fg].len() - 1
                && (forall|k: int| 0 <= k < fp ==> #[trigger] r[fg][k] == s[fg][k])
                && (forall|k: int| fp <= k < s[fg].len() - 1 ==> #[trigger] r[fg][k] == s[fg][k + 1])
        }),
{
    let r = moved_photo(s, fg, fp, tg, tp);
    let photo = s[fg][fp];
    let s1 = s.update(fg, s[fg].remove(fp));
    let p = if tp < s[tg].len() { tp } else { s[tg].len() as int };
    let grp = s[tg].insert(p, photo);
    let s2 = s1.update(tg, grp);
    assert(s1[tg] == s[tg]);
    assert forall|k: int| 0 <= k < p implies #[trigger] grp[k] == s[tg][k] by {}
    assert forall|k: int| p < k <= s[tg].len() implies #[trigger] grp[k] == s[tg][k - 1] by {}
    if s[fg].len() == 1 {
        assert(s2[fg].len() == 0);
        let t = if tg > fg { tg - 1 } else { tg };
        assert(r == s2.remove(fg));
        assert(r[t] == s2[tg]);
    } else {
        assert(r == s2);
        assert(r[tg] == grp);
    }
}

/// Splitting a photo out of a group of several: a new group holding just
/// that photo stands at `dest` (the end when past it), the source group
/// closes up behind the photo, and the other groups keep their order.
pub proof fn lemma_split_photo_places_it_alone(s: Seq<Seq<Photo>>, fg: int, fp: int, dest: int)
    requires
        0 <= fg < s.len(),
        0 <= fp < s[fg].len(),
        s[fg].len() > 1,
        dest >= 0,
    ensures
        ({
            let r = split_off(s, fg, fp, dest);
            let d = if dest < s.len() { dest } else { s.len() as int };
            &&& r.len() == s.len() + 1
            &&& r[d] == seq![s[fg][fp]]
            &&& r.remove(d) == s.update(fg, s[fg].remove(fp))
        }),
{
    let r = split_off(s, fg, fp, dest);
    let d = if dest < s.len() { dest } else { s.len() as int };
    let s1 = s.update(fg, s[fg].remove(fp));
    assert(r == s1.insert(d, seq![s[fg][fp]]));
    assert(r.remove(d) =~= s1);
}

/// Splitting the only photo of a group relocates the whole group: it stands
/// at `dest` (the last place when past it), and the other groups keep
/// their order.
pub proof fn lemma_split_lone_photo_moves_its_group(s: Seq<Seq<Photo>>, fg: int, dest: int)
    requires
        0 <= fg < s.len(),
        s[fg].len() == 1,
        dest >= 0,
    ensures
        ({
            let r = split_off(s, fg, 0, dest);
            let d = if dest < s.len() - 1 { dest } else { s.len() - 1 };
            &&& r.len() == s.len()
            &&& r[d] == s[fg]
            &&& r.remove(d) == s.remove(fg)
        }),
{
    let r = split_off(s, fg, 0, dest);
    let d = if dest < s.len() - 1 { dest } else { s.len() - 1 };
    let rest = s.remove(fg);
    assert(r == rest.insert(d, s[fg]));
    assert(r.remove(d) =~= rest);
}

} // verus!
