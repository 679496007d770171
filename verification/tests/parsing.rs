use habit_tracker::init::{days_in_month, month_from_name, month_name, valid_months};
use habit_tracker::sheet_parser::{completed_today, get_active_habits, get_dates, get_habits};
use habit_tracker::template_builder::{parse_habit_input, trim_str};
use habit_tracker::text::{sort_strings, sort_usizes};

fn grid(rows: &[&[&str]]) -> Vec<Vec<String>> {
    rows.iter().map(|r| r.iter().map(|c| c.to_string()).collect()).collect()
}

#[test]
fn habit_block_stops_at_empty_label() {
    let values = grid(&[
        &["March", "1", "2", "3"],
        &["Exercise", "TRUE", "FALSE", "TRUE"],
        &["Read", "FALSE", "FALSE", "FALSE"],
        &["Journal", "TRUE", "TRUE", "TRUE"],
        &["", "x", "y", "z"],
        &["Ghost", "TRUE", "TRUE", "TRUE"],
    ]);
    let habits = get_habits(&values, 1);
    assert_eq!(habits.len(), 3);
    assert_eq!(habits[0], ("Exercise".to_string(), 1));
    assert_eq!(habits[1], ("Read".to_string(), 2));
    assert_eq!(habits[2], ("Journal".to_string(), 3));
}

#[test]
fn repeated_habit_label_keeps_one_entry_last_row_wins() {
    let values = grid(&[
        &["March", "1", "2"],
        &["Exercise", "TRUE", "FALSE"],
        &["Read", "FALSE", "FALSE"],
        &["Exercise", "FALSE", "TRUE"],
        &["", "", ""],
    ]);
    let habits = get_habits(&values, 1);
    // One entry per distinct label; the duplicate's later row overwrites.
    assert_eq!(habits, vec![("Exercise".to_string(), 3), ("Read".to_string(), 2)]);
    assert_eq!(
        habit_tracker::sheet_parser::table_get(&habits, &"Exercise".to_string()),
        Some(3)
    );
}

#[test]
fn repeated_day_number_keeps_one_entry_last_column_wins() {
    let values = grid(&[&["March", "3", "1", "3", "2"]]);
    let dates = get_dates(&values, 1);
    assert_eq!(dates, vec![(3, 3), (1, 2), (2, 4)]);
    assert_eq!(habit_tracker::sheet_parser::dates_get(&dates, 3), Some(3));
}

#[test]
fn repeated_month_label_keeps_one_entry_last_block_wins() {
    let values = grid(&[
        &["March", "1", "2"],
        &["Exercise", "TRUE", "FALSE"],
        &["", ""],
        &["March", "1", "2"],
        &["Exercise", "FALSE", "FALSE"],
    ]);
    let months = valid_months(&values);
    assert_eq!(months, vec![("March".to_string(), 4)]);
}

#[test]
fn repeated_config_habit_keeps_last_qualifying_row() {
    let values = grid(&[
        &["Habit", "IsComplete", "IsActive"],
        &["Exercise", "FALSE", "TRUE"],
        &["Read", "FALSE", "TRUE"],
        &["Exercise", "FALSE", "TRUE"],
        &["Read", "FALSE", "FALSE"],
    ]);
    let habits = get_active_habits(&values, 1);
    // The inactive duplicate of "Read" is skipped, so row 2 stays; the
    // active duplicate of "Exercise" overwrites row 1 with row 3.
    assert_eq!(habits, vec![("Exercise".to_string(), 3), ("Read".to_string(), 2)]);
}

#[test]
fn habit_block_stops_at_short_row() {
    let values = grid(&[&["May"], &["Walk", "TRUE"], &[], &["Late", "TRUE"]]);
    let habits = get_habits(&values, 1);
    assert_eq!(habits, vec![("Walk".to_string(), 1)]);
}

#[test]
fn date_header_stops_at_first_empty_cell() {
    let mut header: Vec<&str> = vec!["March"];
    let days: Vec<String> = (1..=15).map(|d| d.to_string()).collect();
    for d in &days {
        header.push(d);
    }
    header.push("");
    header.push("17");
    let values = grid(&[&header]);
    let dates = get_dates(&values, 1);
    assert_eq!(dates.len(), 15);
    for (i, (day, col)) in dates.iter().enumerate() {
        assert_eq!(*day, i + 1);
        assert_eq!(*col, i + 1);
    }
}

#[test]
fn date_header_stops_at_non_numeric_cell() {
    let values = grid(&[&["April", "1", "2", "x", "4"]]);
    let dates = get_dates(&values, 1);
    assert_eq!(dates, vec![(1, 1), (2, 2)]);
}

#[test]
fn valid_months_maps_labels_to_block_starts() {
    let values = grid(&[
        &["March", "1", "2"],
        &["Exercise", "TRUE", "FALSE"],
        &["", ""],
        &["April", "1", "2"],
        &["Exercise", "FALSE", "FALSE"],
        &["Mars", "1", "2"],
    ]);
    let months = valid_months(&values);
    assert_eq!(months, vec![("March".to_string(), 1), ("April".to_string(), 4)]);
}

#[test]
fn month_names_round_trip() {
    for m in 1u8..=12 {
        let name = month_name(m);
        assert_eq!(month_from_name(&name), Some(m));
    }
    assert_eq!(month_from_name(&"march".to_string()), None);
    assert_eq!(month_from_name(&"".to_string()), None);
}

#[test]
fn days_in_month_handles_leap_years() {
    assert_eq!(days_in_month(2024, 2), 29);
    assert_eq!(days_in_month(2025, 2), 28);
    assert_eq!(days_in_month(1900, 2), 28);
    assert_eq!(days_in_month(2000, 2), 29);
    assert_eq!(days_in_month(2025, 1), 31);
    assert_eq!(days_in_month(2025, 4), 30);
    assert_eq!(days_in_month(2025, 12), 31);
}

#[test]
fn active_habits_skip_inactive_and_complete_rows() {
    let values = grid(&[
        &["Habit", "IsComplete", "IsActive"],
        &["Exercise", "FALSE", "TRUE"],
        &["Done deal", "TRUE", "TRUE"],
        &["Paused", "FALSE", "FALSE"],
        &["Read", "FALSE", "TRUE"],
        &["", "FALSE", "TRUE"],
        &["Below gap", "FALSE", "TRUE"],
    ]);
    let habits = get_active_habits(&values, 1);
    assert_eq!(habits, vec![("Exercise".to_string(), 1), ("Read".to_string(), 4)]);
}

#[test]
fn completed_today_collects_true_cells() {
    let values = grid(&[
        &["March", "1", "2"],
        &["Exercise", "FALSE", "TRUE"],
        &["Read", "TRUE", "FALSE"],
        &["Journal", "TRUE", "TRUE"],
        &["short"],
    ]);
    let done = completed_today(&values, 1, 2);
    assert_eq!(done, vec!["Exercise".to_string(), "Journal".to_string()]);
}

#[test]
fn trim_strips_surrounding_whitespace() {
    assert_eq!(trim_str("  reading \t"), "reading");
    assert_eq!(trim_str("\n\r x y \n"), "x y");
    assert_eq!(trim_str("   "), "");
    assert_eq!(trim_str("solid"), "solid");
}

#[test]
fn habit_input_is_split_trimmed_and_sorted() {
    let habits = parse_habit_input(" reading ,exercise,  , journaling,");
    assert_eq!(habits, vec!["exercise", "journaling", "reading"]);
    let empty = parse_habit_input("  ,  , ");
    assert_eq!(empty, Vec::<String>::new());
}

#[test]
fn sorting_orders_names_and_days() {
    let mut names: Vec<String> =
        vec!["pear".into(), "apple".into(), "banana".into(), "apple".into()];
    sort_strings(&mut names);
    assert_eq!(names, vec!["apple", "apple", "banana", "pear"]);
    let mut days: Vec<usize> = vec![9, 1, 30, 2, 2];
    sort_usizes(&mut days);
    assert_eq!(days, vec![1, 2, 2, 9, 30]);
}
