use sequin_core::board::{
    apply_edit, arrangements_match, commit_edit, drop_command, time_travel, extend_or_replace, head_target, key_action, merge_selection,
    select_click, selection_range, split_selection, Command, Edit, Hover, Key, MergeOutcome,
    SplitOutcome,
};
use sequin_core::editor::{History, Sel};
use sequin_core::{Arrangement, Group, Photo};

fn photo(name: &str) -> Photo {
    Photo {
        path: format!("/d/{name}.jpg"),
        hash_full: String::new(),
        hash_cropped: String::new(),
        border_fraction_bits: 0,
        width: 100,
        height: 100,
    }
}

fn arr(spec: &[&[&str]]) -> Arrangement {
    Arrangement {
        groups: spec
            .iter()
            .map(|names| Group {
                photos: names.iter().map(|n| photo(n)).collect(),
            })
            .collect(),
    }
}

fn names(a: &Arrangement) -> Vec<Vec<String>> {
    a.groups
        .iter()
        .map(|g| {
            g.photos
                .iter()
                .map(|p| p.path.trim_start_matches("/d/").trim_end_matches(".jpg").to_string())
                .collect()
        })
        .collect()
}

#[test]
fn dropping_a_photo_on_a_slot_moves_it_and_the_append_slot_means_the_end() {
    let counts = [2, 3];
    assert_eq!(
        drop_command(&counts, Sel::Photo(0, 0), Hover::Slot(1, 1)),
        Some(Edit::MovePhoto(0, 0, 1, 1))
    );
    assert_eq!(
        drop_command(&counts, Sel::Photo(0, 1), Hover::Slot(1, usize::MAX)),
        Some(Edit::MovePhoto(0, 1, 1, 3))
    );
    // The append slot of a group that is not there appends at index 0.
    assert_eq!(
        drop_command(&counts, Sel::Photo(0, 1), Hover::Slot(7, usize::MAX)),
        Some(Edit::MovePhoto(0, 1, 7, 0))
    );
}

#[test]
fn dropping_in_a_gap_splits_a_photo_but_moves_a_lone_photo_or_a_group() {
    let counts = [2, 1, 4];
    assert_eq!(
        drop_command(&counts, Sel::Photo(0, 1), Hover::Gap(3)),
        Some(Edit::SplitPhoto(0, 1, 3))
    );
    // A lone photo is its group: the gap after the source shifts down by one.
    assert_eq!(
        drop_command(&counts, Sel::Photo(1, 0), Hover::Gap(3)),
        Some(Edit::MoveGroup(1, 2))
    );
    assert_eq!(drop_command(&counts, Sel::Group(2), Hover::Gap(0)), Some(Edit::MoveGroup(2, 0)));
    assert_eq!(drop_command(&counts, Sel::Group(0), Hover::Gap(2)), Some(Edit::MoveGroup(0, 1)));
}

#[test]
fn dropping_a_group_on_a_group_merges_and_mismatched_drops_do_nothing() {
    let counts = [2, 1];
    assert_eq!(
        drop_command(&counts, Sel::Group(1), Hover::OnGroup(0)),
        Some(Edit::MergeGroups(0, 1))
    );
    assert_eq!(drop_command(&counts, Sel::Photo(0, 0), Hover::OnGroup(1)), None);
    assert_eq!(drop_command(&counts, Sel::Group(0), Hover::Slot(1, 0)), None);
}

#[test]
fn a_group_head_is_a_merge_target_only_for_a_dragged_group() {
    assert_eq!(head_target(Some(Sel::Group(3)), 1), Hover::OnGroup(1));
    assert_eq!(head_target(Some(Sel::Photo(0, 0)), 1), Hover::Slot(1, usize::MAX));
    assert_eq!(head_target(None, 2), Hover::Slot(2, usize::MAX));
}

#[test]
fn edits_apply_to_the_arrangement() {
    let mut a = arr(&[&["a", "b"], &["c"]]);
    apply_edit(&mut a, Edit::MergeGroups(0, 1));
    assert_eq!(names(&a), vec![vec!["a", "b", "c"]]);
    apply_edit(&mut a, Edit::SplitPhoto(0, 1, 1));
    assert_eq!(names(&a), vec![vec!["a", "c"], vec!["b"]]);
    apply_edit(&mut a, Edit::MoveGroup(1, 0));
    assert_eq!(names(&a), vec![vec!["b"], vec!["a", "c"]]);
    apply_edit(&mut a, Edit::MovePhoto(1, 1, 0, 0));
    assert_eq!(names(&a), vec![vec!["c", "b"], vec!["a"]]);
}

#[test]
fn shift_extends_and_moves_the_cursor_to_the_end() {
    let mut sel = vec![Sel::Group(0), Sel::Group(1)];
    extend_or_replace(&mut sel, Sel::Group(0), true);
    assert_eq!(sel, vec![Sel::Group(1), Sel::Group(0)]);
    extend_or_replace(&mut sel, Sel::Group(2), true);
    assert_eq!(sel, vec![Sel::Group(1), Sel::Group(0), Sel::Group(2)]);
    extend_or_replace(&mut sel, Sel::Photo(0, 0), false);
    assert_eq!(sel, vec![Sel::Photo(0, 0)]);
}

#[test]
fn ranges_span_groups_by_index_and_photos_across_groups() {
    let counts = [2, 1, 2];
    assert_eq!(
        selection_range(&counts, Some(Sel::Group(2)), Sel::Group(0)),
        Some(vec![Sel::Group(0), Sel::Group(1), Sel::Group(2)])
    );
    assert_eq!(
        selection_range(&counts, Some(Sel::Photo(0, 1)), Sel::Photo(2, 0)),
        Some(vec![Sel::Photo(0, 1), Sel::Photo(1, 0), Sel::Photo(2, 0)])
    );
    assert_eq!(
        selection_range(&counts, Some(Sel::Photo(2, 1)), Sel::Photo(2, 1)),
        Some(vec![Sel::Photo(2, 1)])
    );
    // Mixed kinds, a missing cursor and a photo that is not there give none.
    assert_eq!(selection_range(&counts, Some(Sel::Group(0)), Sel::Photo(0, 0)), None);
    assert_eq!(selection_range(&counts, None, Sel::Photo(0, 0)), None);
    assert_eq!(selection_range(&counts, Some(Sel::Photo(1, 1)), Sel::Photo(0, 0)), None);
}

#[test]
fn clicks_replace_toggle_and_extend_the_selection() {
    let counts = [2, 2];
    let mut sel = vec![Sel::Photo(0, 0)];
    select_click(&mut sel, &counts, Sel::Photo(1, 0), false, true);
    assert_eq!(sel, vec![Sel::Photo(0, 0), Sel::Photo(0, 1), Sel::Photo(1, 0)]);
    select_click(&mut sel, &counts, Sel::Photo(0, 1), true, false);
    assert_eq!(sel, vec![Sel::Photo(0, 0), Sel::Photo(1, 0)]);
    select_click(&mut sel, &counts, Sel::Photo(1, 1), true, false);
    assert_eq!(sel, vec![Sel::Photo(0, 0), Sel::Photo(1, 0), Sel::Photo(1, 1)]);
    // Shift from a photo to a group is no range: the click selects alone.
    select_click(&mut sel, &counts, Sel::Group(1), false, true);
    assert_eq!(sel, vec![Sel::Group(1)]);
    select_click(&mut sel, &counts, Sel::Photo(0, 0), false, false);
    assert_eq!(sel, vec![Sel::Photo(0, 0)]);
}

#[test]
fn keys_map_to_commands() {
    let counts = [2, 1];
    let c = Some(Sel::Photo(0, 1));
    assert_eq!(key_action(Key::Escape, false, false, c, &counts), (Command::ClearSelection, false));
    assert_eq!(key_action(Key::Char('z'), true, false, c, &counts), (Command::Undo, true));
    assert_eq!(key_action(Key::Char('Z'), true, true, c, &counts), (Command::Redo, true));
    assert_eq!(key_action(Key::Char('m'), false, false, c, &counts), (Command::MergeSelected, true));
    assert_eq!(key_action(Key::Char('S'), false, false, c, &counts), (Command::SplitSelected, true));
    assert_eq!(key_action(Key::Char('m'), true, false, c, &counts), (Command::Nothing, false));
    assert_eq!(key_action(Key::Char('z'), false, false, c, &counts), (Command::Nothing, false));
    assert_eq!(key_action(Key::Other, false, false, c, &counts), (Command::Nothing, false));
}

#[test]
fn arrows_step_the_cursor() {
    let counts = [2, 1];
    let c = Some(Sel::Photo(0, 1));
    assert_eq!(
        key_action(Key::ArrowRight, false, true, c, &counts),
        (Command::Step(Sel::Photo(1, 0), true), true)
    );
    assert_eq!(
        key_action(Key::ArrowLeft, false, false, c, &counts),
        (Command::Step(Sel::Photo(0, 0), false), true)
    );
    assert_eq!(
        key_action(Key::ArrowRight, false, false, Some(Sel::Photo(1, 0)), &counts),
        (Command::Nothing, true)
    );
    assert_eq!(
        key_action(Key::ArrowRight, false, false, Some(Sel::Group(1)), &counts),
        (Command::Step(Sel::Photo(1, 0), false), true)
    );
    assert_eq!(
        key_action(Key::ArrowDown, false, false, None, &counts),
        (Command::Step(Sel::Group(0), false), true)
    );
    assert_eq!(
        key_action(Key::ArrowDown, false, false, c, &counts),
        (Command::Step(Sel::Group(1), false), true)
    );
    // At the last group the cursor stays on it.
    assert_eq!(
        key_action(Key::ArrowDown, false, false, Some(Sel::Group(1)), &counts),
        (Command::Step(Sel::Group(1), false), true)
    );
    assert_eq!(key_action(Key::ArrowLeft, false, false, None, &[]), (Command::Nothing, true));
}

#[test]
fn command_arrows_move_the_item_under_the_cursor() {
    let counts = [3, 1];
    assert_eq!(
        key_action(Key::ArrowRight, true, false, Some(Sel::Photo(0, 0)), &counts),
        (
            Command::Edit(Edit::MovePhoto(0, 0, 0, 2), Some(Sel::Photo(0, 1))),
            true
        )
    );
    assert_eq!(
        key_action(Key::ArrowLeft, true, false, Some(Sel::Photo(0, 2)), &counts),
        (
            Command::Edit(Edit::MovePhoto(0, 2, 0, 1), Some(Sel::Photo(0, 1))),
            true
        )
    );
    assert_eq!(
        key_action(Key::ArrowRight, true, false, Some(Sel::Photo(0, 2)), &counts),
        (Command::Nothing, true)
    );
    assert_eq!(
        key_action(Key::ArrowDown, true, false, Some(Sel::Group(0)), &counts),
        (
            Command::Edit(Edit::MoveGroup(0, 1), Some(Sel::Group(1))),
            true
        )
    );
    assert_eq!(
        key_action(Key::ArrowUp, true, false, Some(Sel::Group(0)), &counts),
        (Command::Nothing, true)
    );
    assert_eq!(
        key_action(Key::ArrowDown, true, false, Some(Sel::Photo(0, 1)), &counts),
        (Command::EditFollowing(Edit::MovePhoto(0, 1, 1, 1), 0, 1), true)
    );
    assert_eq!(
        key_action(Key::ArrowUp, true, false, Some(Sel::Photo(1, 0)), &counts),
        (Command::EditFollowing(Edit::MovePhoto(1, 0, 0, 3), 1, 0), true)
    );
}

#[test]
fn merging_the_selection_merges_into_the_first_selected_group() {
    let mut a = arr(&[&["a"], &["b", "c"], &["d"], &["e"]]);
    let out = merge_selection(&mut a, &[Sel::Group(2), Sel::Photo(0, 0), Sel::Group(0), Sel::Group(3)]);
    match out {
        MergeOutcome::Merged { groups, target } => {
            assert_eq!(groups, 3);
            assert_eq!(target, "/d/d.jpg");
        }
        other => panic!("unexpected {other:?}"),
    }
    assert_eq!(names(&a), vec![vec!["b", "c"], vec!["d", "a", "e"]]);
}

#[test]
fn merging_one_selected_group_takes_the_group_below() {
    let mut a = arr(&[&["a"], &["b"], &["c"]]);
    assert!(matches!(merge_selection(&mut a, &[Sel::Group(1)]), MergeOutcome::Merged { groups: 2, .. }));
    assert_eq!(names(&a), vec![vec!["a"], vec!["b", "c"]]);
    assert!(matches!(merge_selection(&mut a, &[Sel::Group(1)]), MergeOutcome::NoGroupBelow));
    assert!(matches!(merge_selection(&mut a, &[Sel::Photo(0, 0)]), MergeOutcome::TooFew));
    assert!(matches!(merge_selection(&mut a, &[Sel::Group(5), Sel::Group(6)]), MergeOutcome::Unchanged));
    assert_eq!(names(&a), vec![vec!["a"], vec!["b", "c"]]);
}

#[test]
fn splitting_the_selection_gives_each_photo_its_own_group() {
    let mut a = arr(&[&["a", "b", "c"], &["d"]]);
    let out = split_selection(&mut a, &[Sel::Photo(0, 0), Sel::Photo(0, 2), Sel::Photo(1, 0), Sel::Group(0)]);
    assert_eq!(names(&a), vec![vec!["b"], vec!["c"], vec!["a"], vec!["d"]]);
    match out {
        SplitOutcome::Split { photos, reselect } => {
            assert_eq!(photos, 3);
            assert_eq!(reselect, vec![Sel::Photo(2, 0), Sel::Photo(1, 0), Sel::Photo(3, 0)]);
        }
        other => panic!("unexpected {other:?}"),
    }
    assert!(matches!(split_selection(&mut a, &[Sel::Group(0)]), SplitOutcome::NothingSelected));
}

#[test]
fn only_edits_that_change_something_are_recorded_for_undo() {
    let mut a = arr(&[&["a", "b"], &["c"]]);
    let mut history: History<(Arrangement, Vec<Sel>)> = History::new();
    let mut sel = vec![Sel::Group(0)];
    // Moving a group onto its own place changes nothing, selection included.
    assert!(!commit_edit(&mut a, &mut sel, &mut history, Edit::MoveGroup(0, 0), Some(Sel::Group(1))));
    assert_eq!(history.undo_len(), 0);
    assert_eq!(sel, vec![Sel::Group(0)]);
    assert!(commit_edit(&mut a, &mut sel, &mut history, Edit::MoveGroup(0, 1), Some(Sel::Group(1))));
    assert_eq!(names(&a), vec![vec!["c"], vec!["a", "b"]]);
    assert_eq!(sel, vec![Sel::Group(1)]);
    let sel = vec![Sel::Group(0)];
    assert_eq!(history.undo_len(), 1);
    let (before, before_sel) = history.undo((a.duplicate(), vec![])).unwrap();
    assert_eq!(names(&before), vec![vec!["a", "b"], vec!["c"]]);
    assert_eq!(before_sel, sel);
    assert_eq!(history.redo_len(), 1);
    assert!(arrangements_match(&before, &arr(&[&["a", "b"], &["c"]])));
    assert!(!arrangements_match(&before, &a));
}

#[test]
fn undo_and_redo_bring_back_the_arrangement_and_selection() {
    let mut a = arr(&[&["a"], &["b"]]);
    let mut sel = vec![Sel::Group(1)];
    let mut history: History<(Arrangement, Vec<Sel>)> = History::new();
    assert!(!time_travel(&mut a, &mut sel, &mut history, true));
    assert!(commit_edit(&mut a, &mut sel, &mut history, Edit::MergeGroups(0, 1), None));
    assert_eq!(sel, vec![Sel::Group(1)]);
    sel = vec![Sel::Group(0)];
    assert_eq!(names(&a), vec![vec!["a", "b"]]);
    assert!(time_travel(&mut a, &mut sel, &mut history, true));
    assert_eq!(names(&a), vec![vec!["a"], vec!["b"]]);
    assert_eq!(sel, vec![Sel::Group(1)]);
    assert!(!time_travel(&mut a, &mut sel, &mut history, true));
    assert!(time_travel(&mut a, &mut sel, &mut history, false));
    assert_eq!(names(&a), vec![vec!["a", "b"]]);
    assert_eq!(sel, vec![Sel::Group(0)]);
    assert!(!time_travel(&mut a, &mut sel, &mut history, false));
}

#[test]
fn command_clicking_twice_restores_the_selection() {
    let counts = [3];
    let mut sel = vec![Sel::Photo(0, 2), Sel::Photo(0, 0)];
    let before = sel.clone();
    select_click(&mut sel, &counts, Sel::Photo(0, 1), true, false);
    assert_eq!(sel, vec![Sel::Photo(0, 2), Sel::Photo(0, 0), Sel::Photo(0, 1)]);
    select_click(&mut sel, &counts, Sel::Photo(0, 1), true, false);
    assert_eq!(sel, before);
}
