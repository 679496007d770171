use habit_tracker::config_table::{
    check_history_inputs, config_update_writes, filter_deactivations, Column,
};
use habit_tracker::data_updater::{check_update_inputs, update_activities};
use habit_tracker::interaction::{
    apply_date_selection, apply_habit_selection, select_all_dates, select_all_habits,
    selection_from_days, selection_from_names,
};
use habit_tracker::sheet_parser::{get_dates, get_habits};

fn grid(rows: &[&[&str]]) -> Vec<Vec<String>> {
    rows.iter().map(|r| r.iter().map(|c| c.to_string()).collect()).collect()
}

fn march_grid() -> Vec<Vec<String>> {
    grid(&[
        &["March", "1", "2", "3", "4", "5"],
        &["Exercise", "FALSE", "FALSE", "FALSE", "FALSE", "FALSE"],
        &["Read", "FALSE", "FALSE", "FALSE", "FALSE", "FALSE"],
    ])
}

#[test]
fn marking_one_habit_done_writes_one_cell() {
    let mut values = march_grid();
    let habits = get_habits(&values, 1);
    let dates = get_dates(&values, 1);
    let selected_habits = vec![("Exercise".to_string(), true)];
    let selected_dates = vec![(5usize, true)];
    let sheet = "2025".to_string();
    assert!(check_update_inputs(&selected_dates, &selected_habits, &habits, &dates, &values));

    let writes =
        update_activities(&selected_dates, &selected_habits, &habits, &dates, &mut values, &sheet, true);

    assert_eq!(writes.len(), 1);
    // Exercise sits in grid row 1, date 5 in grid column 5: cell F2, 1-based.
    assert_eq!(writes[0].range, "2025!F2");
    assert_eq!(writes[0].value, "TRUE");
    assert_eq!(values[1][5], "TRUE");
    // Nothing else moved.
    assert_eq!(values[1][4], "FALSE");
    assert_eq!(values[2][5], "FALSE");
}

#[test]
fn select_all_updates_every_pair() {
    let mut values = march_grid();
    let habits = get_habits(&values, 1);
    let dates = get_dates(&values, 1);

    let mut selected_habits = selection_from_names(&vec!["Exercise".to_string(), "Read".to_string()]);
    let mut selected_dates = selection_from_days(&vec![2usize, 4]);
    assert!(selected_habits.iter().all(|(_, flag)| !flag));
    assert!(selected_dates.iter().all(|(_, flag)| !flag));

    select_all_habits(&mut selected_habits);
    select_all_dates(&mut selected_dates);
    assert!(selected_habits.iter().all(|(_, flag)| *flag));
    assert!(selected_dates.iter().all(|(_, flag)| *flag));

    let sheet = "2025".to_string();
    assert!(check_update_inputs(&selected_dates, &selected_habits, &habits, &dates, &values));
    let writes =
        update_activities(&selected_dates, &selected_habits, &habits, &dates, &mut values, &sheet, true);

    assert_eq!(writes.len(), 4);
    assert!(writes.iter().all(|w| w.value == "TRUE"));
    for (habit_row, date_col) in [(1usize, 2usize), (1, 4), (2, 2), (2, 4)] {
        assert_eq!(values[habit_row][date_col], "TRUE", "cell {habit_row},{date_col}");
    }
    assert_eq!(values[1][1], "FALSE");
    assert_eq!(values[2][3], "FALSE");
}

#[test]
fn unselected_pairs_are_not_written() {
    let mut values = march_grid();
    let habits = get_habits(&values, 1);
    let dates = get_dates(&values, 1);
    let mut selected_habits = selection_from_names(&vec!["Exercise".to_string(), "Read".to_string()]);
    let mut selected_dates = selection_from_days(&vec![1usize, 3]);
    apply_habit_selection(&mut selected_habits, &vec!["Read".to_string()]);
    apply_date_selection(&mut selected_dates, &vec![3usize]);

    let sheet = "2025".to_string();
    let writes =
        update_activities(&selected_dates, &selected_habits, &habits, &dates, &mut values, &sheet, false);

    assert_eq!(writes.len(), 1);
    assert_eq!(writes[0].range, "2025!D3");
    assert_eq!(writes[0].value, "FALSE");
    assert_eq!(values[2][3], "FALSE");
    assert_eq!(values[1][3], "FALSE");
}

#[test]
fn update_check_rejects_unknown_habit() {
    let values = march_grid();
    let habits = get_habits(&values, 1);
    let dates = get_dates(&values, 1);
    let selected_habits = vec![("Missing".to_string(), true)];
    let selected_dates = vec![(5usize, true)];
    assert!(!check_update_inputs(&selected_dates, &selected_habits, &habits, &dates, &values));
    let unknown_date = vec![(31usize, true)];
    let known_habit = vec![("Exercise".to_string(), true)];
    assert!(!check_update_inputs(&unknown_date, &known_habit, &habits, &dates, &values));
}

#[test]
fn deactivating_habit_with_history_is_rejected() {
    let values = grid(&[
        &["March", "1", "2", "3"],
        &["Exercise", "FALSE", "TRUE", "FALSE"],
        &["Read", "FALSE", "FALSE", "FALSE"],
    ]);
    let month_habits = get_habits(&values, 1);
    let dates = get_dates(&values, 1);
    let mut selected = vec![("Exercise".to_string(), true), ("Read".to_string(), true)];
    assert!(check_history_inputs(&selected, &month_habits, &dates, &values));

    let rejected = filter_deactivations(&mut selected, &month_habits, &dates, &values);

    assert_eq!(rejected, vec!["Exercise".to_string()]);
    assert_eq!(selected[0], ("Exercise".to_string(), false));
    assert_eq!(selected[1], ("Read".to_string(), true));
}

#[test]
fn deactivating_habit_unknown_to_month_is_allowed() {
    let values = grid(&[&["March", "1"], &["Exercise", "TRUE"]]);
    let month_habits = get_habits(&values, 1);
    let dates = get_dates(&values, 1);
    let mut selected = vec![("Newcomer".to_string(), true)];
    let rejected = filter_deactivations(&mut selected, &month_habits, &dates, &values);
    assert!(rejected.is_empty());
    assert_eq!(selected[0], ("Newcomer".to_string(), true));
}

#[test]
fn config_columns_are_numbered_from_one() {
    assert_eq!(Column::HabitName.as_usize(), 1);
    assert_eq!(Column::IsComplete.as_usize(), 2);
    assert_eq!(Column::IsActive.as_usize(), 3);
    assert_eq!(Column::HabitName.as_usize_zero_based_index(), 0);
    assert_eq!(Column::IsComplete.as_usize_zero_based_index(), 1);
    assert_eq!(Column::IsActive.as_usize_zero_based_index(), 2);
}

#[test]
fn config_update_writes_target_the_active_flag_column() {
    let config_habits = vec![("Exercise".to_string(), 1usize), ("Read".to_string(), 2)];
    let selected = vec![("Exercise".to_string(), false), ("Read".to_string(), true)];
    let sheet = "Config".to_string();
    let writes = config_update_writes(&selected, &config_habits, &sheet, false);
    assert_eq!(writes.len(), 1);
    assert_eq!(writes[0].range, "Config!C3");
    assert_eq!(writes[0].value, "FALSE");

    let all = vec![("Exercise".to_string(), true), ("Read".to_string(), true)];
    let writes = config_update_writes(&all, &config_habits, &sheet, true);
    assert_eq!(writes.len(), 2);
    assert_eq!(writes[0].range, "Config!C2");
    assert_eq!(writes[1].range, "Config!C3");
    assert!(writes.iter().all(|w| w.value == "TRUE"));
}
