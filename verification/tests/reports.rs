use habit_tracker::random::random_element;
use habit_tracker::sheet_parser::{
    check_report_inputs, cols_of, date_lines, day_keys_of, find_sheet_id, get_dates, get_habits,
    keys_of, pad_for, sum_scores, tally_scores,
};
use habit_tracker::template_builder::{config_sheet_layout, config_sheet_writes, template_layout,
    template_value_writes};
use habit_tracker::text::sort_strings;

fn grid(rows: &[&[&str]]) -> Vec<Vec<String>> {
    rows.iter().map(|r| r.iter().map(|c| c.to_string()).collect()).collect()
}

fn report_grid() -> Vec<Vec<String>> {
    grid(&[
        &["March", "1", "2", "3"],
        &["Exercise", "TRUE", "FALSE", "TRUE"],
        &["Read", "FALSE", "FALSE", "FALSE"],
        &["Journal", "TRUE", "TRUE", "TRUE"],
    ])
}

#[test]
fn tally_counts_done_cells_and_drops_zero_scores() {
    let values = report_grid();
    let habits = get_habits(&values, 1);
    let dates = get_dates(&values, 1);
    let mut names = keys_of(&habits);
    sort_strings(&mut names);
    let cols = cols_of(&dates);
    assert!(check_report_inputs(&names, &habits, &cols, &values));

    let scores = tally_scores(&names, &habits, &cols, &values);
    assert_eq!(scores, vec![("Exercise".to_string(), 2usize), ("Journal".to_string(), 3)]);

    let total = sum_scores(&scores);
    assert_eq!(total, Some(5));
}

#[test]
fn tally_over_chosen_dates_only() {
    let values = report_grid();
    let habits = get_habits(&values, 1);
    let names = vec!["Exercise".to_string(), "Read".to_string()];
    let cols = vec![2usize];
    let scores = tally_scores(&names, &habits, &cols, &values);
    assert_eq!(scores, Vec::<(String, usize)>::new());
    let cols = vec![1usize, 3];
    let scores = tally_scores(&names, &habits, &cols, &values);
    assert_eq!(scores, vec![("Exercise".to_string(), 2)]);
}

#[test]
fn date_lines_mark_each_habit() {
    let values = report_grid();
    let habits = get_habits(&values, 1);
    let dates = get_dates(&values, 1);
    let names = vec!["Exercise".to_string(), "Read".to_string(), "Journal".to_string()];
    let cols = cols_of(&dates);
    let days = day_keys_of(&dates);
    assert_eq!(days, vec![1, 2, 3]);
    assert!(check_report_inputs(&names, &habits, &cols, &values));

    let lines = date_lines(&names, &habits, &cols, 1, &values, 40);
    assert_eq!(lines.len(), 3);
    assert_eq!(lines[0].habit, "Exercise");
    assert!(!lines[0].done);
    assert_eq!(lines[0].pad, 32);
    assert!(!lines[1].done);
    assert!(lines[2].done);
}

#[test]
fn padding_counts_rendered_cells_not_chars() {
    // Five characters but ten terminal cells: the pad must use the width.
    let wide = "今日の運動".to_string();
    assert_eq!(pad_for(&wide, 40), 30);
    let narrow = "Exercise".to_string();
    assert_eq!(pad_for(&narrow, 40), 32);
    assert_eq!(pad_for(&narrow, 30), 22);
    assert_eq!(pad_for(&narrow, 5), 0);
}

#[test]
fn sum_scores_reports_overflow() {
    let scores = vec![("a".to_string(), usize::MAX), ("b".to_string(), 1usize)];
    assert_eq!(sum_scores(&scores), None);
    let scores = vec![("a".to_string(), usize::MAX)];
    assert_eq!(sum_scores(&scores), Some(usize::MAX));
}

#[test]
fn random_element_picks_from_the_pool() {
    let pool: Vec<String> = vec!["a".into(), "b".into(), "c".into()];
    for _ in 0..50 {
        let picked = random_element(&pool).expect("nonempty pool");
        assert!(pool.contains(picked));
    }
    assert!(random_element(&Vec::new()).is_none());
}

#[test]
fn sheet_ids_are_found_by_title() {
    let sheets = vec![("2024".to_string(), 7i32), ("2025".to_string(), 11), ("Config".to_string(), 3)];
    assert_eq!(find_sheet_id(&sheets, &"2025".to_string()), Some(11));
    assert_eq!(find_sheet_id(&sheets, &"2026".to_string()), None);
}

#[test]
fn template_layout_covers_habits_plus_two_rows() {
    let layout = template_layout(3, 31);
    assert_eq!(layout.n_rows, 5);
    assert_eq!(layout.body_row_start, 1);
    assert_eq!(layout.body_row_end, 4);
    assert_eq!(layout.day_col_start, 1);
    assert_eq!(layout.day_col_end, 32);
}

#[test]
fn template_writes_label_month_habits_and_days() {
    let month = "March".to_string();
    let habits = vec!["Exercise".to_string(), "Read".to_string()];
    let sheet = "2025".to_string();
    let writes = template_value_writes(&month, &habits, 3, &sheet);
    assert_eq!(writes.len(), 1 + 2 + 3);
    assert_eq!(writes[0].range, "2025!A1");
    assert_eq!(writes[0].value, "March");
    assert_eq!(writes[1].range, "2025!A2");
    assert_eq!(writes[1].value, "Exercise");
    assert_eq!(writes[2].range, "2025!A3");
    assert_eq!(writes[2].value, "Read");
    assert_eq!(writes[3].range, "2025!B1");
    assert_eq!(writes[3].value, "1");
    assert_eq!(writes[4].range, "2025!C1");
    assert_eq!(writes[4].value, "2");
    assert_eq!(writes[5].range, "2025!D1");
    assert_eq!(writes[5].value, "3");
}

#[test]
fn config_sheet_writes_fill_header_and_rows() {
    let habits = vec!["exercise".to_string(), "reading".to_string()];
    let sheet = "Config".to_string();
    let writes = config_sheet_writes(&habits, &sheet);
    assert_eq!(writes.len(), 3 + 4);
    assert_eq!(writes[0].range, "Config!A1");
    assert_eq!(writes[0].value, "Habit");
    assert_eq!(writes[1].range, "Config!B1");
    assert_eq!(writes[1].value, "IsComplete");
    assert_eq!(writes[2].range, "Config!C1");
    assert_eq!(writes[2].value, "IsActive");
    assert_eq!(writes[3].range, "Config!A2");
    assert_eq!(writes[3].value, "exercise");
    assert_eq!(writes[4].range, "Config!C2");
    assert_eq!(writes[4].value, "TRUE");
    assert_eq!(writes[5].range, "Config!A3");
    assert_eq!(writes[5].value, "reading");
    assert_eq!(writes[6].range, "Config!C3");
    assert_eq!(writes[6].value, "TRUE");

    let (validation_row_end, column_count) = config_sheet_layout(2);
    assert_eq!(validation_row_end, 3);
    assert_eq!(column_count, 3);
}
