//! The light table's editing decisions: what a drop, a key press or a click
//! does to the arrangement and to the selection. Each decision is a function
//! of plain values (the photo count of each group, the selection, the event)
//! to the edit it makes, so the window code only performs it.
use vstd::prelude::*;
use crate::{Arrangement, Photo};
use crate::arrange::{find_photo, first_at, located, no_empty_groups, photo_bag,
    lemma_merge_groups_keeps_groups_non_empty, lemma_merge_groups_keeps_photos, lemma_move_group_keeps_groups_non_empty,
    lemma_move_group_keeps_photos, lemma_move_photo_keeps_groups_non_empty, lemma_move_photo_keeps_photos,
    lemma_split_photo_keeps_groups_non_empty, lemma_split_photo_keeps_photos, merge_groups, merged, move_group, moved_group, move_photo, moved_photo, split_off, split_photo};
use crate::editor::{History, Sel, UNDO_CAP, recorded, redone, step_ok, step_photo, stepped, undone};

verus! {

/// One edit of the arrangement, with its indices as they stand before it.
#[derive(Debug, Clone, Copy, PartialEq, Eq, Structural)]
pub enum Edit {
    /// Move group `.0` to index `.1`.
    MoveGroup(usize, usize),
    /// Move photo `.1` of group `.0` into group `.2`, before photo `.3`.
    MovePhoto(usize, usize, usize, usize),
    /// Split photo `.1` of group `.0` out into its own group at index `.2`.
    SplitPhoto(usize, usize, usize),
    /// Append the photos of group `.1` to group `.0`.
    MergeGroups(usize, usize),
}

/// The arrangement after an edit.
pub open spec fn edited(s: Seq<Seq<Photo>>, e: Edit) -> Seq<Seq<Photo>> {
    match e {
        Edit::MoveGroup(from, to) => moved_group(s, from as int, to as int),
        Edit::MovePhoto(fg, fp, tg, tp) => moved_photo(s, fg as int, fp as int, tg as int, tp as int),
        Edit::SplitPhoto(fg, fp, dest) => split_off(s, fg as int, fp as int, dest as int),
        Edit::MergeGroups(target, source) => merged(s, target as int, source as int),
    }
}

/// Perform an edit.
pub fn apply_edit(arr: &mut Arrangement, e: Edit)
    ensures
        final(arr)@ == edited(old(arr)@, e),
{
    match e {
        Edit::MoveGroup(from, to) => move_group(arr, from, to),
        Edit::MovePhoto(fg, fp, tg, tp) => move_photo(arr, (fg, fp), tg, tp),
        Edit::SplitPhoto(fg, fp, dest) => split_photo(arr, (fg, fp), dest),
        Edit::MergeGroups(target, source) => merge_groups(arr, target, source),
    }
}

/// Where a drag is hovering.
#[derive(Debug, Clone, Copy, PartialEq, Eq, Structural)]
pub enum Hover {
    /// Insert before photo `.1` of group `.0` (`usize::MAX` appends).
    Slot(usize, usize),
    /// The gap before group `.0` (the group count is the end).
    Gap(usize),
    /// Onto a group as a whole (the merge target of a group drag).
    OnGroup(usize),
}

/// What hovering over the head of group `gi` means: a dragged group merges
/// onto it; a dragged photo (or nothing) appends to its row.
pub fn head_target(drag: Option<Sel>, gi: usize) -> (r: Hover)
    ensures
        r == (if drag matches Some(Sel::Group(_)) { Hover::OnGroup(gi) } else { Hover::Slot(gi, usize::MAX) }),
{
    match drag {
        Some(Sel::Group(_)) => Hover::OnGroup(gi),
        _ => Hover::Slot(gi, usize::MAX),
    }
}

/// The photo count of group `g`, or 0 past the end.
pub open spec fn count_at(counts: Seq<usize>, g: int) -> usize {
    if 0 <= g < counts.len() { counts[g] } else { 0 }
}

/// The edit that dropping `payload` onto `target` makes, if any. A photo
/// dropped on a slot moves there (the append slot means after the last
/// photo); a photo dropped in a gap becomes its own group there, unless it
/// is alone in its group, which then moves as a whole, as a dragged group
/// does; a group dropped on a group merges into it. Dropping a photo on a
/// group head or a group on a slot does nothing.
pub open spec fn drop_edit(counts: Seq<usize>, payload: Sel, target: Hover) -> Option<Edit> {
    match (payload, target) {
        (Sel::Photo(fg, fp), Hover::Slot(tg, tp)) => {
            let tp = if tp == usize::MAX { count_at(counts, tg as int) } else { tp };
            Some(Edit::MovePhoto(fg, fp, tg, tp))
        },
        (Sel::Photo(fg, fp), Hover::Gap(g)) => {
            if count_at(counts, fg as int) == 1 {
                Some(Edit::MoveGroup(fg, if g > fg { (g - 1) as usize } else { g }))
            } else {
                Some(Edit::SplitPhoto(fg, fp, g))
            }
        },
        (Sel::Group(fg), Hover::Gap(g)) => Some(Edit::MoveGroup(fg, if g > fg { (g - 1) as usize } else { g })),
        (Sel::Group(fg), Hover::OnGroup(tg)) => Some(Edit::MergeGroups(tg, fg)),
        _ => None,
    }
}

/// Decide the edit of a drop (see `drop_edit`). After the drop the window
/// selects the dragged photo, or the dragged group, wherever it ended up.
pub fn drop_command(counts: &[usize], payload: Sel, target: Hover) -> (r: Option<Edit>)
    ensures
        r == drop_edit(counts@, payload, target),
{
    let count_of = |g: usize| -> (c: usize)
        ensures
            c == count_at(counts@, g as int),
        {
            if g < counts.len() {
                counts[g]
            } else {
                0
            }
        };
    match (payload, target) {
        (Sel::Photo(fg, fp), Hover::Slot(tg, tp)) => {
            let tp = if tp == usize::MAX { count_of(tg) } else { tp };
            Some(Edit::MovePhoto(fg, fp, tg, tp))
        },
        (Sel::Photo(fg, fp), Hover::Gap(g)) => {
            if count_of(fg) == 1 {
                Some(Edit::MoveGroup(fg, if g > fg { g - 1 } else { g }))
            } else {
                Some(Edit::SplitPhoto(fg, fp, g))
            }
        },
        (Sel::Group(fg), Hover::Gap(g)) => Some(Edit::MoveGroup(fg, if g > fg { g - 1 } else { g })),
        (Sel::Group(fg), Hover::OnGroup(tg)) => Some(Edit::MergeGroups(tg, fg)),
        _ => None,
    }
}

// ---------------------------------------------------------------------------
// Selection
// ---------------------------------------------------------------------------

/// Every selectable item but `item`.
pub open spec fn other_than(item: Sel) -> spec_fn(Sel) -> bool {
    |s: Sel| s != item
}

/// The selection after an arrow-key step to `next`: with shift, `next` is
/// added (taken out first if already there, so that it becomes the cursor,
/// the last item); without, it replaces the selection.
pub open spec fn extended(sel: Seq<Sel>, next: Sel, shift: bool) -> Seq<Sel> {
    if shift {
        sel.filter(other_than(next)).push(next)
    } else {
        seq![next]
    }
}

/// Arrow-key selection: shift extends, a plain step replaces.
pub fn extend_or_replace(selection: &mut Vec<Sel>, next: Sel, shift: bool)
    ensures
        final(selection)@ == extended(old(selection)@, next, shift),
{
    if !shift {
        let mut one: Vec<Sel> = Vec::new();
        one.push(next);
        *selection = one;
        proof {
            assert(selection@ =~= seq![next]);
        }
        return;
    }
    let ghost s = selection@;
    let mut kept: Vec<Sel> = Vec::new();
    let mut i: usize = 0;
    while i < selection.len()
        invariant
            i <= selection.len(),
            selection@ == s,
            kept@ == s.take(i as int).filter(other_than(next)),
        decreases selection.len() - i,
    {
        let item = selection[i];
        proof {
            assert(s.take(i + 1).drop_last() =~= s.take(i as int));
            reveal(Seq::filter);
        }
        if item != next {
            kept.push(item);
        }
        i = i + 1;
    }
    proof {
        assert(s.take(s.len() as int) =~= s);
    }
    kept.push(next);
    *selection = kept;
}

/// Total number of photos, given the photo count of each group.
pub open spec fn count_total(counts: Seq<usize>) -> nat
    decreases counts.len(),
{
    if counts.len() == 0 {
        0
    } else {
        count_total(counts.drop_last()) + counts.last() as nat
    }
}

/// Every photo in display order: the photos of each group in turn.
pub open spec fn flat(counts: Seq<usize>) -> Seq<Sel>
    decreases counts.len(),
{
    if counts.len() == 0 {
        Seq::empty()
    } else {
        flat(counts.drop_last()) + Seq::new(counts.last() as nat, |q: int| Sel::Photo((counts.len() - 1) as usize, q as usize))
    }
}

/// Photo `p` of group `g` exists.
pub open spec fn is_photo(counts: Seq<usize>, g: int, p: int) -> bool {
    0 <= g < counts.len() && 0 <= p < counts[g]
}

/// The place of photo `p` of group `g` in display order.
pub open spec fn flat_pos(counts: Seq<usize>, g: int, p: int) -> int {
    count_total(counts.take(g)) + p
}

/// The selection a shift-click from `cursor` to `to` makes: every group
/// between two groups, or every photo between two photos in display order
/// (across group boundaries), both ends included. `None` when the two are
/// not of one kind or a photo does not exist.
pub open spec fn range_between(counts: Seq<usize>, cursor: Option<Sel>, to: Sel) -> Option<Seq<Sel>> {
    match (cursor, to) {
        (Some(Sel::Group(a)), Sel::Group(b)) => {
            let lo = if a < b { a } else { b };
            let hi = if a < b { b } else { a };
            Some(Seq::new((hi - lo + 1) as nat, |i: int| Sel::Group((lo + i) as usize)))
        },
        (Some(Sel::Photo(g0, p0)), Sel::Photo(g1, p1)) => {
            if is_photo(counts, g0 as int, p0 as int) && is_photo(counts, g1 as int, p1 as int) {
                let a = flat_pos(counts, g0 as int, p0 as int);
                let b = flat_pos(counts, g1 as int, p1 as int);
                let lo = if a < b { a } else { b };
                let hi = if a < b { b } else { a };
                Some(flat(counts).subrange(lo, hi + 1))
            } else {
                None
            }
        },
        _ => None,
    }
}

proof fn lemma_flat_len(counts: Seq<usize>)
    ensures
        flat(counts).len() == count_total(counts),
    decreases counts.len(),
{
    if counts.len() > 0 {
        lemma_flat_len(counts.drop_last());
    }
}

proof fn lemma_total_take_mono(counts: Seq<usize>, i: int, j: int)
    requires
        0 <= i <= j <= counts.len(),
    ensures
        count_total(counts.take(i)) <= count_total(counts.take(j)),
    decreases j - i,
{
    if i < j {
        lemma_total_take_mono(counts, i, j - 1);
        assert(counts.take(j).drop_last() =~= counts.take(j - 1));
    }
}

/// One more group in a prefix adds its photo count, and a prefix holds no
/// more photos than the whole.
proof fn lemma_take_step(counts: Seq<usize>, g: int)
    requires
        0 <= g < counts.len(),
    ensures
        count_total(counts.take(g + 1)) == count_total(counts.take(g)) + counts[g],
        count_total(counts.take(g + 1)) <= count_total(counts),
        flat(counts.take(g)).len() == count_total(counts.take(g)),
        flat(counts.take(g + 1)) == flat(counts.take(g)) + Seq::new(counts[g] as nat, |q: int| Sel::Photo(g as usize, q as usize)),
{
    assert(counts.take(g + 1).drop_last() =~= counts.take(g));
    lemma_total_take_mono(counts, g + 1, counts.len() as int);
    assert(counts.take(counts.len() as int) =~= counts);
    lemma_flat_len(counts.take(g));
}

/// A photo's place in display order is within the photo total.
proof fn lemma_flat_pos_bound(counts: Seq<usize>, g: int, p: int)
    requires
        is_photo(counts, g, p),
    ensures
        flat_pos(counts, g, p) < count_total(counts),
{
    assert(counts.take(g + 1).drop_last() =~= counts.take(g));
    lemma_total_take_mono(counts, g + 1, counts.len() as int);
    assert(counts.take(counts.len() as int) =~= counts);
}

/// The photo at a photo's place in display order is that photo.
pub proof fn lemma_flat_at_pos(counts: Seq<usize>, g: int, p: int)
    requires
        is_photo(counts, g, p),
    ensures
        flat(counts)[flat_pos(counts, g, p)] == Sel::Photo(g as usize, p as usize),
    decreases counts.len(),
{
    let n = counts.len() - 1;
    assert(counts.drop_last().take(g) =~= counts.take(g));
    lemma_flat_len(counts.drop_last());
    if g < n {
        lemma_flat_pos_bound(counts.drop_last(), g, p);
        lemma_flat_at_pos(counts.drop_last(), g, p);
    } else {
        assert(counts.take(g) =~= counts.drop_last());
    }
}

/// The inclusive range between the cursor and a shift-clicked item.
pub fn selection_range(counts: &[usize], cursor: Option<Sel>, to: Sel) -> (r: Option<Vec<Sel>>)
    requires
        count_total(counts@) <= usize::MAX,
    ensures
        match r {
            Some(v) => range_between(counts@, cursor, to) == Some(v@),
            None => range_between(counts@, cursor, to) is None,
        },
{
    match (cursor, to) {
        (Some(Sel::Group(a)), Sel::Group(b)) => {
            let lo = if a < b { a } else { b };
            let hi = if a < b { b } else { a };
            let mut v: Vec<Sel> = Vec::new();
            let mut i: usize = lo;
            while i < hi
                invariant
                    lo <= i <= hi,
                    v@ =~= Seq::new((i - lo) as nat, |k: int| Sel::Group((lo + k) as usize)),
                decreases hi - i,
            {
                v.push(Sel::Group(i));
                i = i + 1;
            }
            v.push(Sel::Group(hi));
            Some(v)
        },
        (Some(Sel::Photo(g0, p0)), Sel::Photo(g1, p1)) => {
            if !(g0 < counts.len() && p0 < counts[g0] && g1 < counts.len() && p1 < counts[g1]) {
                return None;
            }
            // Every photo in display order, and the places of the two ends.
            let mut all: Vec<Sel> = Vec::new();
            let mut a: usize = 0;
            let mut b: usize = 0;
            let mut gi: usize = 0;
            proof {
                lemma_flat_len(counts@);
            }
            while gi < counts.len()
                invariant
                    gi <= counts.len(),
                    count_total(counts@) <= usize::MAX,
                    all@ == flat(counts@.take(gi as int)),
                    is_photo(counts@, g0 as int, p0 as int),
                    is_photo(counts@, g1 as int, p1 as int),
                    g0 < gi ==> a == flat_pos(counts@, g0 as int, p0 as int),
                    g1 < gi ==> b == flat_pos(counts@, g1 as int, p1 as int),
                decreases counts.len() - gi,
            {
                proof {
                    lemma_take_step(counts@, gi as int);
                }
                if gi == g0 {
                    a = all.len() + p0;
                }
                if gi == g1 {
                    b = all.len() + p1;
                }
                let n = counts[gi];
                let ghost base = all@;
                let mut pi: usize = 0;
                while pi < n
                    invariant
                        gi < counts.len(),
                        n == counts@[gi as int],
                        pi <= n,
                        base.len() + n <= usize::MAX,
                        all@ == base + Seq::new(pi as nat, |q: int| Sel::Photo(gi, q as usize)),
                    decreases n - pi,
                {
                    all.push(Sel::Photo(gi, pi));
                    proof {
                        assert(all@ =~= base + Seq::new((pi + 1) as nat, |q: int| Sel::Photo(gi, q as usize)));
                    }
                    pi = pi + 1;
                }
                proof {
                    assert(counts@.take(gi + 1).drop_last() =~= counts@.take(gi as int));
                    assert(all@ =~= flat(counts@.take(gi + 1)));
                }
                gi = gi + 1;
            }
            proof {
                assert(counts@.take(counts@.len() as int) =~= counts@);
                lemma_flat_pos_bound(counts@, g0 as int, p0 as int);
                lemma_flat_pos_bound(counts@, g1 as int, p1 as int);
            }
            let lo = if a < b { a } else { b };
            let hi = if a < b { b } else { a };
            let mut v: Vec<Sel> = Vec::new();
            let mut i: usize = lo;
            while i <= hi
                invariant
                    lo <= i <= hi + 1,
                    hi < all.len(),
                    v@ =~= all@.subrange(lo as int, i as int),
                decreases hi + 1 - i,
            {
                v.push(all[i]);
                i = i + 1;
            }
            Some(v)
        },
        _ => None,
    }
}


/// `sel` without the first occurrence of `item` (unchanged when absent).
pub open spec fn without_first(sel: Seq<Sel>, item: Sel) -> Seq<Sel>
    decreases sel.len(),
{
    if sel.len() == 0 {
        sel
    } else if sel[0] == item {
        sel.drop_first()
    } else {
        seq![sel[0]] + without_first(sel.drop_first(), item)
    }
}

/// The cursor: the last selected item.
pub open spec fn cursor_of(sel: Seq<Sel>) -> Option<Sel> {
    if sel.len() > 0 {
        Some(sel.last())
    } else {
        None
    }
}

/// The selection after a click on `item`: with shift, the range from the
/// cursor when there is one of the same kind; with the command key, `item`
/// toggles in or out; a plain click selects `item` alone.
pub open spec fn clicked(counts: Seq<usize>, sel: Seq<Sel>, item: Sel, meta: bool, shift: bool) -> Seq<Sel> {
    if shift && range_between(counts, cursor_of(sel), item) is Some {
        range_between(counts, cursor_of(sel), item)->Some_0
    } else if meta {
        if sel.contains(item) {
            without_first(sel, item)
        } else {
            sel.push(item)
        }
    } else {
        seq![item]
    }
}

proof fn lemma_without_first_prefix(s: Seq<Sel>, item: Sel, i: int)
    requires
        0 <= i <= s.len(),
        forall|j: int| 0 <= j < i ==> s[j] != item,
    ensures
        without_first(s, item) == s.take(i) + without_first(s.skip(i), item),
    decreases i,
{
    if i > 0 {
        lemma_without_first_prefix(s.drop_first(), item, i - 1);
        assert(s.drop_first().take(i - 1) =~= s.take(i).drop_first());
        assert(s.drop_first().skip(i - 1) =~= s.skip(i));
        assert(seq![s[0]] + s.take(i).drop_first() =~= s.take(i));
        assert(seq![s[0]] + (s.take(i).drop_first() + without_first(s.skip(i), item))
            =~= s.take(i) + without_first(s.skip(i), item));
    } else {
        assert(s.skip(0) =~= s);
        assert(s.take(0) + without_first(s, item) =~= without_first(s, item));
    }
}

/// Click selection: plain replaces, the command key toggles, shift selects
/// the range from the cursor (photos across groups, groups by index).
pub fn select_click(selection: &mut Vec<Sel>, counts: &[usize], item: Sel, meta: bool, shift: bool)
    requires
        count_total(counts@) <= usize::MAX,
    ensures
        final(selection)@ == clicked(counts@, old(selection)@, item, meta, shift),
{
    let cursor = if selection.len() > 0 { Some(selection[selection.len() - 1]) } else { None };
    assert(cursor == cursor_of(selection@));
    if shift {
        match selection_range(counts, cursor, item) {
            Some(range) => {
                *selection = range;
                return;
            },
            None => {},
        }
    }
    if meta {
        let ghost s = selection@;
        let mut i: usize = 0;
        while i < selection.len()
            invariant
                i <= selection.len(),
                selection@ == s,
                s == old(selection)@,
                meta,
                !(shift && range_between(counts@, cursor_of(s), item) is Some),
                forall|j: int| 0 <= j < i ==> s[j] != item,
            decreases selection.len() - i,
        {
            if selection[i] == item {
                proof {
                    lemma_without_first_prefix(s, item, i as int);
                    assert(s.skip(i as int).drop_first() =~= s.skip(i + 1));
                    assert(s.skip(i as int)[0] == item);
                    assert(without_first(s.skip(i as int), item) == s.skip(i as int).drop_first());
                    assert(s.contains(item));
                }
                selection.remove(i);
                proof {
                    assert(selection@ =~= s.take(i as int) + s.skip(i + 1));
                    assert(selection@ == without_first(s, item));
                }
                return;
            }
            i = i + 1;
        }
        proof {
            assert(!s.contains(item));
        }
        selection.push(item);
    } else {
        let mut one: Vec<Sel> = Vec::new();
        one.push(item);
        *selection = one;
        proof {
            assert(selection@ =~= seq![item]);
        }
    }
}

// ---------------------------------------------------------------------------
// Keyboard
// ---------------------------------------------------------------------------

/// A key the light table reacts to.
#[derive(Debug, Clone, Copy, PartialEq, Eq, Structural)]
pub enum Key {
    Escape,
    /// A key that types exactly this one character.
    Char(char),
    ArrowLeft,
    ArrowRight,
    ArrowUp,
    ArrowDown,
    /// Any other key.
    Other,
}

/// What a key press asks of the light table.
#[derive(Debug, Clone, Copy, PartialEq, Eq, Structural)]
pub enum Command {
    Nothing,
    ClearSelection,
    Undo,
    Redo,
    /// Merge the selected groups (`merge_selection`).
    MergeSelected,
    /// Split the selected photos out (`split_selection`).
    SplitSelected,
    /// Move the cursor to `.0`: added to the selection when `.1` (shift),
    /// else replacing it (`extend_or_replace`).
    Step(Sel, bool),
    /// Make the edit, then select `.1` when there is one.
    Edit(Edit, Option<Sel>),
    /// Make the edit, then select photo `.2` of group `.1` (as it stood
    /// before the edit) wherever it ended up.
    EditFollowing(Edit, usize, usize),
}

/// The group the cursor is on.
pub open spec fn cursor_group(cursor: Option<Sel>) -> Option<usize> {
    match cursor {
        Some(Sel::Photo(g, _)) => Some(g),
        Some(Sel::Group(g)) => Some(g),
        None => None,
    }
}

/// The arithmetic and indexing of a key press stay in range: stepping
/// through photos (see `step_ok`), moving a photo right, and going down a
/// group.
pub open spec fn key_ok(key: Key, meta: bool, cursor: Option<Sel>, counts: Seq<usize>) -> bool {
    &&& (key == Key::ArrowLeft || key == Key::ArrowRight) ==> match cursor {
        Some(Sel::Photo(g, p)) => if meta {
            key == Key::ArrowRight ==> p < usize::MAX
        } else {
            step_ok(counts, g as int, p as int, key == Key::ArrowRight)
        },
        _ => true,
    }
    &&& key == Key::ArrowDown ==> match cursor_group(cursor) {
        Some(g) => g < usize::MAX,
        None => true,
    }
}

/// What a key press does, and whether the key's default action in the
/// window is suppressed. Escape clears the selection; command-Z undoes
/// (with shift, redoes); M merges the selected groups and S splits the
/// selected photos out. The arrows move the cursor (left and right through
/// photos across groups, up and down through groups; with shift the
/// selection grows). With the command key the arrows move the photo under
/// the cursor within its group (left, right) or into the neighbouring group
/// (up, down, appended there), or the group under the cursor up or down.
pub open spec fn key_command(key: Key, meta: bool, shift: bool, cursor: Option<Sel>, counts: Seq<usize>) -> (Command, bool) {
    let n = counts.len();
    match key {
        Key::Escape => (Command::ClearSelection, false),
        Key::Char(c) => if meta && (c == 'z' || c == 'Z') {
            (if shift { Command::Redo } else { Command::Undo }, true)
        } else if !meta && (c == 'm' || c == 'M') {
            (Command::MergeSelected, true)
        } else if !meta && (c == 's' || c == 'S') {
            (Command::SplitSelected, true)
        } else {
            (Command::Nothing, false)
        },
        Key::ArrowLeft | Key::ArrowRight => {
            let right = key == Key::ArrowRight;
            if !meta {
                let next = match cursor {
                    Some(Sel::Photo(g, p)) => stepped(counts, g as int, p as int, right),
                    Some(Sel::Group(g)) => Some(Sel::Photo(g, 0)),
                    None => if n > 0 { Some(Sel::Photo(0, 0)) } else { None },
                };
                (match next { Some(s) => Command::Step(s, shift), None => Command::Nothing }, true)
            } else {
                (match cursor {
                    Some(Sel::Photo(g, p)) => {
                        let len = count_at(counts, g as int);
                        if right && p + 1 < len {
                            Command::Edit(Edit::MovePhoto(g, p, g, (p + 2) as usize), Some(Sel::Photo(g, (p + 1) as usize)))
                        } else if !right && p > 0 {
                            Command::Edit(Edit::MovePhoto(g, p, g, (p - 1) as usize), Some(Sel::Photo(g, (p - 1) as usize)))
                        } else {
                            Command::Nothing
                        }
                    },
                    _ => Command::Nothing,
                }, true)
            }
        },
        Key::ArrowUp | Key::ArrowDown => {
            let down = key == Key::ArrowDown;
            if !meta {
                let next = match cursor_group(cursor) {
                    Some(g) => if down && g + 1 < n {
                        Some(Sel::Group((g + 1) as usize))
                    } else if !down && g > 0 {
                        Some(Sel::Group((g - 1) as usize))
                    } else {
                        Some(Sel::Group(g))
                    },
                    None => if n > 0 { Some(Sel::Group(0)) } else { None },
                };
                (match next { Some(s) => Command::Step(s, shift), None => Command::Nothing }, true)
            } else {
                (match cursor {
                    Some(Sel::Group(g)) => if down && g + 1 < n {
                        Command::Edit(Edit::MoveGroup(g, (g + 1) as usize), Some(Sel::Group((g + 1) as usize)))
                    } else if !down && g > 0 {
                        Command::Edit(Edit::MoveGroup(g, (g - 1) as usize), Some(Sel::Group((g - 1) as usize)))
                    } else {
                        Command::Nothing
                    },
                    Some(Sel::Photo(g, p)) => {
                        let target: Option<usize> = if down {
                            if g + 1 < n { Some((g + 1) as usize) } else { None }
                        } else {
                            if g > 0 { Some((g - 1) as usize) } else { None }
                        };
                        match target {
                            Some(tg) => Command::EditFollowing(Edit::MovePhoto(g, p, tg, count_at(counts, tg as int)), g, p),
                            None => Command::Nothing,
                        }
                    },
                    None => Command::Nothing,
                }, true)
            }
        },
        Key::Other => (Command::Nothing, false),
    }
}

/// Decide what a key press does (see `key_command`); the cursor is the last
/// selected item and `counts` the photo count of each group.
pub fn key_action(key: Key, meta: bool, shift: bool, cursor: Option<Sel>, counts: &[usize]) -> (r: (Command, bool))
    requires
        key_ok(key, meta, cursor, counts@),
    ensures
        r == key_command(key, meta, shift, cursor, counts@),
{
    let n = counts.len();
    let count_of = |g: usize| -> (c: usize)
        ensures
            c == count_at(counts@, g as int),
        {
            if g < counts.len() {
                counts[g]
            } else {
                0
            }
        };
    match key {
        Key::Escape => (Command::ClearSelection, false),
        Key::Char(c) => if meta && (c == 'z' || c == 'Z') {
            (if shift { Command::Redo } else { Command::Undo }, true)
        } else if !meta && (c == 'm' || c == 'M') {
            (Command::MergeSelected, true)
        } else if !meta && (c == 's' || c == 'S') {
            (Command::SplitSelected, true)
        } else {
            (Command::Nothing, false)
        },
        Key::ArrowLeft | Key::ArrowRight => {
            let right = key == Key::ArrowRight;
            if !meta {
                let next = match cursor {
                    Some(Sel::Photo(g, p)) => step_photo(counts, g, p, right),
                    Some(Sel::Group(g)) => Some(Sel::Photo(g, 0)),
                    None => if n > 0 { Some(Sel::Photo(0, 0)) } else { None },
                };
                (match next { Some(s) => Command::Step(s, shift), None => Command::Nothing }, true)
            } else {
                (match cursor {
                    Some(Sel::Photo(g, p)) => {
                        let len = count_of(g);
                        if right && p + 1 < len {
                            Command::Edit(Edit::MovePhoto(g, p, g, p + 2), Some(Sel::Photo(g, p + 1)))
                        } else if !right && p > 0 {
                            Command::Edit(Edit::MovePhoto(g, p, g, p - 1), Some(Sel::Photo(g, p - 1)))
                        } else {
                            Command::Nothing
                        }
                    },
                    _ => Command::Nothing,
                }, true)
            }
        },
        Key::ArrowUp | Key::ArrowDown => {
            let down = key == Key::ArrowDown;
            if !meta {
                let current = match cursor {
                    Some(Sel::Photo(g, _)) => Some(g),
                    Some(Sel::Group(g)) => Some(g),
                    None => None,
                };
                let next = match current {
                    Some(g) => if down && g + 1 < n {
                        Some(Sel::Group(g + 1))
                    } else if !down && g > 0 {
                        Some(Sel::Group(g - 1))
                    } else {
                        Some(Sel::Group(g))
                    },
                    None => if n > 0 { Some(Sel::Group(0)) } else { None },
                };
                (match next { Some(s) => Command::Step(s, shift), None => Command::Nothing }, true)
            } else {
                (match cursor {
                    Some(Sel::Group(g)) => if down && g + 1 < n {
                        Command::Edit(Edit::MoveGroup(g, g + 1), Some(Sel::Group(g + 1)))
                    } else if !down && g > 0 {
                        Command::Edit(Edit::MoveGroup(g, g - 1), Some(Sel::Group(g - 1)))
                    } else {
                        Command::Nothing
                    },
                    Some(Sel::Photo(g, p)) => {
                        let target: Option<usize> = if down {
                            if g + 1 < n { Some(g + 1) } else { None }
                        } else {
                            if g > 0 { Some(g - 1) } else { None }
                        };
                        match target {
                            Some(tg) => Command::EditFollowing(Edit::MovePhoto(g, p, tg, count_of(tg)), g, p),
                            None => Command::Nothing,
                        }
                    },
                    None => Command::Nothing,
                }, true)
            }
        },
        Key::Other => (Command::Nothing, false),
    }
}

// ---------------------------------------------------------------------------
// Merging and splitting the selection
// ---------------------------------------------------------------------------

/// The selected groups' indices, in selection order.
pub open spec fn selected_groups(sel: Seq<Sel>) -> Seq<usize>
    decreases sel.len(),
{
    if sel.len() == 0 {
        Seq::empty()
    } else {
        let rest = selected_groups(sel.drop_last());
        match sel.last() {
            Sel::Group(g) => rest.push(g),
            Sel::Photo(_, _) => rest,
        }
    }
}

/// The path of the first photo of each listed group that exists and has
/// one, in list order.
pub open spec fn head_paths(s: Seq<Seq<Photo>>, gs: Seq<usize>) -> Seq<Seq<char>>
    decreases gs.len(),
{
    if gs.len() == 0 {
        Seq::empty()
    } else {
        let rest = head_paths(s, gs.drop_last());
        let g = gs.last() as int;
        if g < s.len() && s[g].len() > 0 {
            rest.push(s[g][0].path@)
        } else {
            rest
        }
    }
}

/// Merging the group of the photo at `source` into the group of the photo
/// at `target`, both found by path (nothing happens when either is gone).
pub open spec fn merge_step(s: Seq<Seq<Photo>>, target: Seq<char>, source: Seq<char>) -> Seq<Seq<Photo>> {
    match (located(s, target), located(s, source)) {
        (Some(t), Some(u)) => merged(s, t.0, u.0),
        _ => s,
    }
}

/// Merging, one after the other, the groups of the photos at `sources`
/// into the group of the photo at `target`.
pub open spec fn merged_into(s: Seq<Seq<Photo>>, target: Seq<char>, sources: Seq<Seq<char>>) -> Seq<Seq<Photo>>
    decreases sources.len(),
{
    if sources.len() == 0 {
        s
    } else {
        merge_step(merged_into(s, target, sources.drop_last()), target, sources.last())
    }
}

/// How merging the selection went.
#[derive(Debug)]
pub enum MergeOutcome {
    /// One group was selected and it is the last one.
    NoGroupBelow,
    /// Fewer than two groups were selected.
    TooFew,
    /// None of the selected groups is left to merge.
    Unchanged,
    /// `groups` groups were merged into the one whose first photo is at
    /// `target`.
    Merged { groups: usize, target: String },
}

/// The groups a merge takes: the selected groups, and with exactly one
/// selected, the group below it too (`None` when there is none below).
pub open spec fn merge_candidates(n: nat, sel: Seq<Sel>) -> Option<Seq<usize>> {
    let gs = selected_groups(sel);
    if gs.len() == 1 {
        if gs[0] + 1 < n {
            Some(gs.push((gs[0] + 1) as usize))
        } else {
            None
        }
    } else {
        Some(gs)
    }
}

/// What merging the selection gives: the outcome, and the arrangement
/// after. The groups are told apart by the paths of their first photos, so
/// that each merge finds its groups wherever the merges before left them.
pub open spec fn merge_result(s: Seq<Seq<Photo>>, sel: Seq<Sel>, outcome: MergeOutcome, after: Seq<Seq<Photo>>) -> bool {
    match merge_candidates(s.len(), sel) {
        None => outcome is NoGroupBelow && after == s,
        Some(gs) => if gs.len() < 2 {
            outcome is TooFew && after == s
        } else {
            let paths = head_paths(s, gs);
            if paths.len() == 0 {
                outcome is Unchanged && after == s
            } else {
                &&& outcome matches MergeOutcome::Merged { groups, target } && groups == paths.len() && target@ == paths[0]
                &&& after == merged_into(s, paths[0], paths.drop_first())
            }
        },
    }
}

/// Merge every selected group into the first selected one. With exactly one
/// group selected, the group below it merges into it.
pub fn merge_selection(arr: &mut Arrangement, selection: &[Sel]) -> (r: MergeOutcome)
    requires
        selected_groups(selection@).len() == 1 ==> selected_groups(selection@)[0] < usize::MAX,
    ensures
        merge_result(old(arr)@, selection@, r, final(arr)@),
{
    let ghost s0 = arr@;
    let mut groups: Vec<usize> = Vec::new();
    let mut i: usize = 0;
    while i < selection.len()
        invariant
            i <= selection.len(),
            groups@ == selected_groups(selection@.take(i as int)),
        decreases selection.len() - i,
    {
        proof {
            assert(selection@.take(i + 1).drop_last() =~= selection@.take(i as int));
        }
        match selection[i] {
            Sel::Group(g) => groups.push(g),
            Sel::Photo(_, _) => {},
        }
        i = i + 1;
    }
    proof {
        assert(selection@.take(selection@.len() as int) =~= selection@);
    }
    if groups.len() == 1 {
        let below = groups[0] + 1;
        if below >= arr.groups.len() {
            return MergeOutcome::NoGroupBelow;
        }
        groups.push(below);
    }
    if groups.len() < 2 {
        return MergeOutcome::TooFew;
    }
    let ghost gs = groups@;
    let mut paths: Vec<String> = Vec::new();
    let mut k: usize = 0;
    while k < groups.len()
        invariant
            k <= groups.len(),
            groups@ == gs,
            arr@ == s0,
            paths@.map_values(|p: String| p@) == head_paths(s0, gs.take(k as int)),
        decreases groups.len() - k,
    {
        proof {
            assert(gs.take(k + 1).drop_last() =~= gs.take(k as int));
        }
        let g = groups[k];
        if g < arr.groups.len() && arr.groups[g].photos.len() > 0 {
            let path = arr.groups[g].photos[0].path.clone();
            paths.push(path);
            proof {
                assert(paths@.map_values(|p: String| p@) =~= head_paths(s0, gs.take(k as int)).push(s0[g as int][0].path@));
            }
        }
        k = k + 1;
    }
    let ghost ps = paths@.map_values(|p: String| p@);
    proof {
        assert(gs.take(gs.len() as int) =~= gs);
    }
    if paths.len() == 0 {
        return MergeOutcome::Unchanged;
    }
    let target = paths[0].clone();
    let mut j: usize = 1;
    while j < paths.len()
        invariant
            1 <= j <= paths.len(),
            ps == paths@.map_values(|p: String| p@),
            target@ == ps[0],
            arr@ == merged_into(s0, ps[0], ps.subrange(1, j as int)),
        decreases paths.len() - j,
    {
        proof {
            assert(ps.subrange(1, j + 1).drop_last() =~= ps.subrange(1, j as int));
        }
        let t = find_photo(arr, target.as_str());
        let u = find_photo(arr, paths[j].as_str());
        match (t, u) {
            (Some((tg, _)), Some((ug, _))) => merge_groups(arr, tg, ug),
            _ => {},
        }
        j = j + 1;
    }
    proof {
        assert(ps.subrange(1, ps.len() as int) =~= ps.drop_first());
    }
    MergeOutcome::Merged { groups: paths.len(), target }
}

/// The paths of the selected photos that exist, in selection order.
pub open spec fn selected_photo_paths(s: Seq<Seq<Photo>>, sel: Seq<Sel>) -> Seq<Seq<char>>
    decreases sel.len(),
{
    if sel.len() == 0 {
        Seq::empty()
    } else {
        let rest = selected_photo_paths(s, sel.drop_last());
        match sel.last() {
            Sel::Photo(g, p) => if (g as int) < s.len() && (p as int) < s[g as int].len() {
                rest.push(s[g as int][p as int].path@)
            } else {
                rest
            },
            Sel::Group(_) => rest,
        }
    }
}

/// Splitting the photo at `path`, found by path, out into its own group
/// right after its group; a photo alone in its group, or one that is gone,
/// stays.
pub open spec fn split_step(s: Seq<Seq<Photo>>, path: Seq<char>) -> Seq<Seq<Photo>> {
    match located(s, path) {
        Some((g, p)) => if s[g].len() > 1 { split_off(s, g, p, g + 1) } else { s },
        None => s,
    }
}

/// Splitting out the photos at `paths`, one after the other.
pub open spec fn split_all(s: Seq<Seq<Photo>>, paths: Seq<Seq<char>>) -> Seq<Seq<Photo>>
    decreases paths.len(),
{
    if paths.len() == 0 {
        s
    } else {
        split_step(split_all(s, paths.drop_last()), paths.last())
    }
}

/// Where the photos at `paths` stand, as a selection (those that are gone
/// are left out).
pub open spec fn relocated(s: Seq<Seq<Photo>>, paths: Seq<Seq<char>>) -> Seq<Sel>
    decreases paths.len(),
{
    if paths.len() == 0 {
        Seq::empty()
    } else {
        let rest = relocated(s, paths.drop_last());
        match located(s, paths.last()) {
            Some((g, p)) => rest.push(Sel::Photo(g as usize, p as usize)),
            None => rest,
        }
    }
}

/// How splitting the selection went.
#[derive(Debug)]
pub enum SplitOutcome {
    /// No photo was selected.
    NothingSelected,
    /// `photos` photos were taken up; `reselect` is where they are now.
    Split { photos: usize, reselect: Vec<Sel> },
}

/// Split every selected photo out into its own group right after the group
/// it was in. The photos are found by path, one after the other, since each
/// split shifts the indices of the groups after it.
pub fn split_selection(arr: &mut Arrangement, selection: &[Sel]) -> (r: SplitOutcome)
    ensures
        selected_photo_paths(old(arr)@, selection@).len() == 0 ==> r is NothingSelected && final(arr)@ == old(arr)@,
        selected_photo_paths(old(arr)@, selection@).len() > 0 ==> {
            let paths = selected_photo_paths(old(arr)@, selection@);
            &&& final(arr)@ == split_all(old(arr)@, paths)
            &&& r matches SplitOutcome::Split { photos, reselect } && photos == paths.len()
                && reselect@ == relocated(final(arr)@, paths)
        },
{
    let ghost s0 = arr@;
    let mut paths: Vec<String> = Vec::new();
    let mut i: usize = 0;
    while i < selection.len()
        invariant
            i <= selection.len(),
            arr@ == s0,
            paths@.map_values(|p: String| p@) == selected_photo_paths(s0, selection@.take(i as int)),
        decreases selection.len() - i,
    {
        proof {
            assert(selection@.take(i + 1).drop_last() =~= selection@.take(i as int));
        }
        match selection[i] {
            Sel::Photo(g, p) => {
                if g < arr.groups.len() && p < arr.groups[g].photos.len() {
                    let path = arr.groups[g].photos[p].path.clone();
                    paths.push(path);
                    proof {
                        assert(paths@.map_values(|q: String| q@)
                            =~= selected_photo_paths(s0, selection@.take(i as int)).push(s0[g as int][p as int].path@));
                    }
                }
            },
            Sel::Group(_) => {},
        }
        i = i + 1;
    }
    let ghost ps = paths@.map_values(|p: String| p@);
    proof {
        assert(selection@.take(selection@.len() as int) =~= selection@);
    }
    if paths.len() == 0 {
        return SplitOutcome::NothingSelected;
    }
    let mut j: usize = 0;
    while j < paths.len()
        invariant
            j <= paths.len(),
            ps == paths@.map_values(|p: String| p@),
            arr@ == split_all(s0, ps.take(j as int)),
        decreases paths.len() - j,
    {
        proof {
            assert(ps.take(j + 1).drop_last() =~= ps.take(j as int));
        }
        match find_photo(arr, paths[j].as_str()) {
            Some((g, p)) => {
                assert(arr@.len() == arr.groups@.len());
                assert(g < arr.groups.len());
                if arr.groups[g].photos.len() > 1 {
                    split_photo(arr, (g, p), g + 1);
                }
            },
            None => {},
        }
        j = j + 1;
    }
    proof {
        assert(ps.take(ps.len() as int) =~= ps);
    }
    let ghost s1 = arr@;
    let mut reselect: Vec<Sel> = Vec::new();
    let mut k: usize = 0;
    while k < paths.len()
        invariant
            k <= paths.len(),
            ps == paths@.map_values(|p: String| p@),
            arr@ == s1,
            reselect@ == relocated(s1, ps.take(k as int)),
        decreases paths.len() - k,
    {
        proof {
            assert(ps.take(k + 1).drop_last() =~= ps.take(k as int));
        }
        match find_photo(arr, paths[k].as_str()) {
            Some((g, p)) => reselect.push(Sel::Photo(g, p)),
            None => {},
        }
        k = k + 1;
    }
    proof {
        assert(ps.take(ps.len() as int) =~= ps);
    }
    SplitOutcome::Split { photos: paths.len(), reselect }
}

// ---------------------------------------------------------------------------
// Laws
// ---------------------------------------------------------------------------

/// Every edit keeps the photos of the arrangement, each as many times as
/// before, and leaves no group empty when none was.
pub proof fn lemma_edit_keeps_photos(s: Seq<Seq<Photo>>, e: Edit)
    ensures
        photo_bag(edited(s, e)) =~= photo_bag(s),
        no_empty_groups(s) ==> no_empty_groups(edited(s, e)),
{
    match e {
        Edit::MoveGroup(from, to) => {
            lemma_move_group_keeps_photos(s, from as int, to as int);
            if no_empty_groups(s) {
                lemma_move_group_keeps_groups_non_empty(s, from as int, to as int);
            }
        },
        Edit::MovePhoto(fg, fp, tg, tp) => {
            lemma_move_photo_keeps_photos(s, fg as int, fp as int, tg as int, tp as int);
            if no_empty_groups(s) {
                lemma_move_photo_keeps_groups_non_empty(s, fg as int, fp as int, tg as int, tp as int);
            }
        },
        Edit::SplitPhoto(fg, fp, dest) => {
            lemma_split_photo_keeps_photos(s, fg as int, fp as int, dest as int);
            if no_empty_groups(s) {
                lemma_split_photo_keeps_groups_non_empty(s, fg as int, fp as int, dest as int);
            }
        },
        Edit::MergeGroups(target, source) => {
            lemma_merge_groups_keeps_photos(s, target as int, source as int);
            if no_empty_groups(s) {
                lemma_merge_groups_keeps_groups_non_empty(s, target as int, source as int);
            }
        },
    }
}

/// Dropping a group, or a photo alone in its group, into the gap before
/// group `g` (or after the last group) moves that group there: it then
/// stands right before the group that stood at `g`, or last, and the other
/// groups keep their order. Dropping it into the gap just above itself
/// leaves the arrangement as it was.
pub proof fn lemma_drop_in_gap_places_group(s: Seq<Seq<Photo>>, counts: Seq<usize>, payload: Sel, fg: usize, g: usize)
    requires
        counts.len() == s.len(),
        forall|i: int| 0 <= i < s.len() ==> #[trigger] counts[i] == s[i].len(),
        fg < s.len(),
        g <= s.len(),
        payload == Sel::Group(fg) || (payload matches Sel::Photo(f, _) && f == fg && s[fg as int].len() == 1),
    ensures
        drop_edit(counts, payload, Hover::Gap(g)) matches Some(Edit::MoveGroup(f, to)) && {
            let r = edited(s, Edit::MoveGroup(f, to));
            &&& f == fg
            &&& r.len() == s.len()
            &&& r[to as int] == s[fg as int]
            &&& r.remove(to as int) == s.remove(fg as int)
            &&& (g < s.len() && g != fg ==> r[to + 1] == s[g as int])
            &&& (g == s.len() ==> to == s.len() - 1)
            &&& (g == fg ==> r == s)
        },
{
    let e = drop_edit(counts, payload, Hover::Gap(g));
    let to: usize = if g > fg { (g - 1) as usize } else { g };
    assert(e == Some(Edit::MoveGroup(fg, to)));
    let rest = s.remove(fg as int);
    let r = edited(s, Edit::MoveGroup(fg, to));
    assert(to <= rest.len());
    assert(r == rest.insert(to as int, s[fg as int]));
    assert(r.remove(to as int) =~= rest);
    if g < s.len() && g != fg {
        assert(r[to + 1] == rest[to as int]);
    }
    if g == fg {
        assert(r =~= s);
    }
}

/// Command-clicking an unselected item twice leaves the selection as it
/// was: the first click adds it at the end, the second takes it out again.
pub proof fn lemma_toggle_twice(counts: Seq<usize>, sel: Seq<Sel>, item: Sel)
    requires
        !sel.contains(item),
    ensures
        clicked(counts, clicked(counts, sel, item, true, false), item, true, false) == sel,
{
    let once = sel.push(item);
    assert(once.contains(item)) by {
        assert(once[sel.len() as int] == item);
    }
    assert forall|j: int| 0 <= j < sel.len() implies once[j] != item by {
        assert(once[j] == sel[j]);
    }
    lemma_without_first_prefix(once, item, sel.len() as int);
    assert(once.take(sel.len() as int) =~= sel);
    assert(once.skip(sel.len() as int) =~= seq![item]);
    assert(without_first(seq![item], item) =~= Seq::<Sel>::empty());
    assert(sel + Seq::<Sel>::empty() =~= sel);
}

/// Merging the selected groups keeps every photo, each as many times as
/// before, and leaves no group empty when none was.
pub proof fn lemma_merge_selection_keeps_photos(s: Seq<Seq<Photo>>, target: Seq<char>, sources: Seq<Seq<char>>)
    ensures
        photo_bag(merged_into(s, target, sources)) =~= photo_bag(s),
        no_empty_groups(s) ==> no_empty_groups(merged_into(s, target, sources)),
    decreases sources.len(),
{
    if sources.len() > 0 {
        let prev = merged_into(s, target, sources.drop_last());
        lemma_merge_selection_keeps_photos(s, target, sources.drop_last());
        match (located(prev, target), located(prev, sources.last())) {
            (Some(t), Some(u)) => {
                lemma_merge_groups_keeps_photos(prev, t.0, u.0);
                if no_empty_groups(prev) {
                    lemma_merge_groups_keeps_groups_non_empty(prev, t.0, u.0);
                }
            },
            _ => {},
        }
    }
}

/// Where `located` points is the first photo at the path.
proof fn lemma_located_first(s: Seq<Seq<Photo>>, path: Seq<char>)
    requires
        located(s, path) is Some,
    ensures
        first_at(s, path, located(s, path)->Some_0.0, located(s, path)->Some_0.1),
{
}

/// Splitting the selected photos out keeps every photo, each as many times
/// as before, and leaves no group empty when none was.
pub proof fn lemma_split_selection_keeps_photos(s: Seq<Seq<Photo>>, paths: Seq<Seq<char>>)
    ensures
        photo_bag(split_all(s, paths)) =~= photo_bag(s),
        no_empty_groups(s) ==> no_empty_groups(split_all(s, paths)),
    decreases paths.len(),
{
    if paths.len() > 0 {
        let prev = split_all(s, paths.drop_last());
        lemma_split_selection_keeps_photos(s, paths.drop_last());
        match located(prev, paths.last()) {
            Some((g, p)) => {
                lemma_located_first(prev, paths.last());
                if prev[g].len() > 1 {
                    lemma_split_photo_keeps_photos(prev, g, p, g + 1);
                    if no_empty_groups(prev) {
                        lemma_split_photo_keeps_groups_non_empty(prev, g, p, g + 1);
                    }
                }
            },
            None => {},
        }
    }
}

// ---------------------------------------------------------------------------
// Edits through the undo history
// ---------------------------------------------------------------------------

/// Two photos agree field by field, texts compared character by character.
pub open spec fn same_photo(a: Photo, b: Photo) -> bool {
    &&& a.path@ == b.path@
    &&& a.hash_full@ == b.hash_full@
    &&& a.hash_cropped@ == b.hash_cropped@
    &&& a.border_fraction_bits == b.border_fraction_bits
    &&& a.width == b.width
    &&& a.height == b.height
}

/// Two arrangements agree group by group and photo by photo.
pub open spec fn same_groups(x: Seq<Seq<Photo>>, y: Seq<Seq<Photo>>) -> bool {
    &&& x.len() == y.len()
    &&& forall|g: int| 0 <= g < x.len() ==> (#[trigger] x[g]).len() == y[g].len()
    &&& forall|g: int, p: int| 0 <= g < x.len() && 0 <= p < x[g].len() ==> same_photo(#[trigger] x[g][p], y[g][p])
}

fn same_photo_exec(a: &Photo, b: &Photo) -> (r: bool)
    ensures
        r == same_photo(*a, *b),
{
    a.path == b.path && a.hash_full == b.hash_full && a.hash_cropped == b.hash_cropped
        && a.border_fraction_bits == b.border_fraction_bits && a.width == b.width && a.height == b.height
}

/// Whether two arrangements agree group by group and photo by photo.
pub fn arrangements_match(a: &Arrangement, b: &Arrangement) -> (r: bool)
    ensures
        r == same_groups(a@, b@),
{
    if a.groups.len() != b.groups.len() {
        return false;
    }
    let mut g: usize = 0;
    while g < a.groups.len()
        invariant
            g <= a.groups.len(),
            a@.len() == b@.len(),
            a.groups@.len() == b.groups@.len(),
            forall|h: int| 0 <= h < g ==> (#[trigger] a@[h]).len() == b@[h].len(),
            forall|h: int, p: int| 0 <= h < g && 0 <= p < a@[h].len() ==> same_photo(#[trigger] a@[h][p], b@[h][p]),
        decreases a.groups.len() - g,
    {
        let pa = &a.groups[g].photos;
        let pb = &b.groups[g].photos;
        assert(pa@ == a@[g as int] && pb@ == b@[g as int]);
        if pa.len() != pb.len() {
            return false;
        }
        let mut p: usize = 0;
        while p < pa.len()
            invariant
                g < a.groups.len(),
                pa@ == a@[g as int],
                pb@ == b@[g as int],
                pa@.len() == pb@.len(),
                p <= pa.len(),
                forall|q: int| 0 <= q < p ==> same_photo(#[trigger] a@[g as int][q], b@[g as int][q]),
            decreases pa.len() - p,
        {
            if !same_photo_exec(&pa[p], &pb[p]) {
                return false;
            }
            p = p + 1;
        }
        g = g + 1;
    }
    true
}

/// Make an edit through the undo history. When the edit changes the
/// arrangement, the state before it (the arrangement and the selection)
/// becomes the newest undo step, the oldest dropping out at the cap, the
/// redo steps are gone, and the selection becomes `select_after` when one
/// is given; an edit that changes nothing leaves the history and the
/// selection alone. The result says whether the arrangement changed, and so
/// whether it is owed a save.
pub fn commit_edit(arr: &mut Arrangement, selection: &mut Vec<Sel>, history: &mut History<(Arrangement, Vec<Sel>)>,
    e: Edit, select_after: Option<Sel>) -> (changed: bool)
    ensures
        final(arr)@ == edited(old(arr)@, e),
        changed == !same_groups(edited(old(arr)@, e), old(arr)@),
        !changed ==> final(history).stacks() == old(history).stacks() && final(selection)@ == old(selection)@,
        changed ==> {
            let u0 = old(history).stacks().0;
            let (u, r) = final(history).stacks();
            &&& u.drop_last() == (if u0.len() >= UNDO_CAP { u0.drop_first() } else { u0 })
            &&& u.len() > 0
            &&& u.last().0@ == old(arr)@
            &&& u.last().1@ == old(selection)@
            &&& r.len() == 0
            &&& final(selection)@ == match select_after {
                Some(s) => seq![s],
                None => old(selection)@,
            }
        },
        old(history).stacks().0.len() + old(history).stacks().1.len() <= UNDO_CAP
            ==> final(history).stacks().0.len() + final(history).stacks().1.len() <= UNDO_CAP,
{
    let before = arr.duplicate();
    apply_edit(arr, e);
    if arrangements_match(arr, &before) {
        return false;
    }
    let mut kept: Vec<Sel> = Vec::new();
    let mut i: usize = 0;
    while i < selection.len()
        invariant
            i <= selection.len(),
            kept@ == selection@.take(i as int),
        decreases selection.len() - i,
    {
        kept.push(selection[i]);
        proof {
            assert(kept@ =~= selection@.take(i + 1));
        }
        i = i + 1;
    }
    proof {
        assert(selection@.take(i as int) =~= selection@);
    }
    let ghost snap = (before, kept);
    history.record((before, kept));
    proof {
        let u0 = old(history).stacks().0;
        let base = if u0.len() >= UNDO_CAP { u0.drop_first() } else { u0 };
        assert(recorded(u0, snap).0 == base.push(snap));
        assert(base.push(snap).drop_last() =~= base);
    }
    match select_after {
        Some(s) => {
            let mut one: Vec<Sel> = Vec::new();
            one.push(s);
            *selection = one;
            proof {
                assert(selection@ =~= seq![s]);
            }
        },
        None => {},
    }
    true
}

/// Undo (`back`) or redo an edit: the arrangement and the selection of the
/// newest undo (redo) step come back, and the current ones become the
/// newest step on the other stack. With no step to take, nothing changes
/// and the result is false.
pub fn time_travel(arr: &mut Arrangement, selection: &mut Vec<Sel>, history: &mut History<(Arrangement, Vec<Sel>)>, back: bool) -> (moved: bool)
    ensures
        ({
            let st = old(history).stacks();
            let current = (*old(arr), *old(selection));
            let step = if back { undone(st, current) } else { redone(st, current) };
            &&& moved == step.0 is Some
            &&& moved ==> step.0 == Some((*final(arr), *final(selection))) && final(history).stacks() == step.1
            &&& !moved ==> *final(arr) == *old(arr) && *final(selection) == *old(selection)
                && final(history).stacks() == st
        }),
{
    let available = if back { history.undo_len() } else { history.redo_len() };
    if available == 0 {
        return false;
    }
    let mut current_arr = Arrangement { groups: Vec::new() };
    std::mem::swap(&mut current_arr, arr);
    let mut current_sel: Vec<Sel> = Vec::new();
    std::mem::swap(&mut current_sel, selection);
    let step = if back { history.undo((current_arr, current_sel)) } else { history.redo((current_arr, current_sel)) };
    match step {
        Some((a, s)) => {
            *arr = a;
            *selection = s;
            true
        },
        None => false,
    }
}

} // verus!
