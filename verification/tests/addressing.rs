use habit_tracker::data_updater::{cell_address, column_to_letter, letter_to_column};
use habit_tracker::text::{parse_usize, usize_to_decimal};

#[test]
fn column_letters_known_values() {
    assert_eq!(column_to_letter(1), "A");
    assert_eq!(column_to_letter(26), "Z");
    assert_eq!(column_to_letter(27), "AA");
    assert_eq!(column_to_letter(52), "AZ");
    assert_eq!(column_to_letter(702), "ZZ");
    assert_eq!(column_to_letter(703), "AAA");
}

#[test]
fn column_letters_round_trip_small_range() {
    for c in 1usize..=750 {
        let letters = column_to_letter(c);
        assert_eq!(letter_to_column(&letters), Some(c), "column {}", c);
    }
}

#[test]
fn letter_to_column_rejects_bad_labels() {
    assert_eq!(letter_to_column(""), None);
    assert_eq!(letter_to_column("a"), None);
    assert_eq!(letter_to_column("A1"), None);
    assert_eq!(letter_to_column(" Z"), None);
    assert_eq!(letter_to_column("AB"), Some(28));
}

#[test]
fn cell_addresses_are_a1_style() {
    assert_eq!(cell_address(1, 1), "A1");
    assert_eq!(cell_address(2, 6), "F2");
    assert_eq!(cell_address(10, 27), "AA10");
    assert_eq!(cell_address(31, 2), "B31");
}

#[test]
fn decimal_rendering_matches_std() {
    for n in [0usize, 1, 9, 10, 15, 31, 99, 100, 12345] {
        assert_eq!(usize_to_decimal(n), n.to_string());
    }
}

#[test]
fn parse_usize_matches_std_parse() {
    for s in ["0", "1", "15", "17", "+7", "007", "", " 5", "5 ", "-3", "1.5", "abc", "+"] {
        assert_eq!(parse_usize(s), s.parse::<usize>().ok(), "input {:?}", s);
    }
    let huge = "9".repeat(40);
    assert_eq!(parse_usize(&huge), None);
    assert_eq!(parse_usize(&usize::MAX.to_string()), Some(usize::MAX));
}
