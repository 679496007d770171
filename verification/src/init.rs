//! Session setup values: the application configuration read at startup, the
//! calendar facts the tracker needs (month names, days in a month), and the
//! month index derived from a sheet snapshot.

use vstd::prelude::*;

use vstd::string::StringExecFns;

use crate::sheet_parser::{dedup_labels, grid_view, lemma_label_key_at_facts, position_of,
    table_view};

verus! {

/// The configuration read from the local configuration file: the spreadsheet
/// to open and the sheet (named for the current year) to work in.
pub struct AppConfig {
    pub spreadsheet_id: String,
    pub sheet_name: String,
}

/// The full English name of month `m`, 1-based.
pub open spec fn month_name_text(m: int) -> Seq<char> {
    if m == 1 { "January"@ } else if m == 2 { "February"@ } else if m == 3 { "March"@ }
    else if m == 4 { "April"@ } else if m == 5 { "May"@ } else if m == 6 { "June"@ }
    else if m == 7 { "July"@ } else if m == 8 { "August"@ } else if m == 9 { "September"@ }
    else if m == 10 { "October"@ } else if m == 11 { "November"@ } else { "December"@ }
}

/// The month number a label names, exactly on the twelve full English names.
pub open spec fn spec_month_number(s: Seq<char>) -> Option<u8> {
    if s == "January"@ { Some(1u8) } else if s == "February"@ { Some(2u8) }
    else if s == "March"@ { Some(3u8) } else if s == "April"@ { Some(4u8) }
    else if s == "May"@ { Some(5u8) } else if s == "June"@ { Some(6u8) }
    else if s == "July"@ { Some(7u8) } else if s == "August"@ { Some(8u8) }
    else if s == "September"@ { Some(9u8) } else if s == "October"@ { Some(10u8) }
    else if s == "November"@ { Some(11u8) } else if s == "December"@ { Some(12u8) }
    else { None }
}

/// Parses a month label, accepting exactly the twelve full English names.
pub fn month_from_name(s: &String) -> (r: Option<u8>)
    ensures
        r == spec_month_number(s@),
{
    if *s == String::from_str("January") {
        Some(1)
    } else if *s == String::from_str("February") {
        Some(2)
    } else if *s == String::from_str("March") {
        Some(3)
    } else if *s == String::from_str("April") {
        Some(4)
    } else if *s == String::from_str("May") {
        Some(5)
    } else if *s == String::from_str("June") {
        Some(6)
    } else if *s == String::from_str("July") {
        Some(7)
    } else if *s == String::from_str("August") {
        Some(8)
    } else if *s == String::from_str("September") {
        Some(9)
    } else if *s == String::from_str("October") {
        Some(10)
    } else if *s == String::from_str("November") {
        Some(11)
    } else if *s == String::from_str("December") {
        Some(12)
    } else {
        None
    }
}

/// Renders the full English name of month `m`.
pub fn month_name(m: u8) -> (r: String)
    requires
        1 <= m <= 12,
    ensures
        r@ == month_name_text(m as int),
{
    match m {
        1 => String::from_str("January"),
        2 => String::from_str("February"),
        3 => String::from_str("March"),
        4 => String::from_str("April"),
        5 => String::from_str("May"),
        6 => String::from_str("June"),
        7 => String::from_str("July"),
        8 => String::from_str("August"),
        9 => String::from_str("September"),
        10 => String::from_str("October"),
        11 => String::from_str("November"),
        _ => String::from_str("December"),
    }
}

/// The Gregorian leap-year rule.
pub open spec fn spec_is_leap_year(y: int) -> bool {
    (y % 4 == 0 && y % 100 != 0) || y % 400 == 0
}

/// Days in month `m` of year `y`.
pub open spec fn spec_days_in_month(y: int, m: int) -> int {
    if m == 2 {
        if spec_is_leap_year(y) {
            29
        } else {
            28
        }
    } else if m == 4 || m == 6 || m == 9 || m == 11 {
        30
    } else {
        31
    }
}

/// How many day columns a month grid carries: the days of the given month,
/// February following the Gregorian leap-year rule.
pub fn days_in_month(year: i32, month: u8) -> (r: u8)
    requires
        year >= 0,
        1 <= month <= 12,
    ensures
        r as int == spec_days_in_month(year as int, month as int),
        28 <= r <= 31,
{
    if month == 2 {
        let leap: bool = (year % 4 == 0 && year % 100 != 0) || year % 400 == 0;
        if leap {
            29
        } else {
            28
        }
    } else if month == 4 || month == 6 || month == 9 || month == 11 {
        30
    } else {
        31
    }
}

/// The month index of a sheet snapshot: every row whose column-0 label is a
/// full English month name, mapped to the row index directly below it, where
/// that month's habit block starts.
pub open spec fn spec_months(g: Seq<Seq<Seq<char>>>, i: int) -> Seq<(Seq<char>, int)>
    decreases g.len() - i,
{
    if !(0 <= i < g.len()) {
        Seq::empty()
    } else if g[i].len() > 0 && spec_month_number(g[i][0]) is Some {
        seq![(g[i][0], i + 1)] + spec_months(g, i + 1)
    } else {
        spec_months(g, i + 1)
    }
}

/// The month index a scan builds: the month entries folded so a repeated
/// month label keeps one entry, with the last matching block winning.
pub open spec fn spec_month_table(g: Seq<Seq<Seq<char>>>) -> Seq<(Seq<char>, int)> {
    dedup_labels(spec_months(g, 0))
}

/// Scans the whole grid for month-name labels in column 0 and records, for
/// each, the 1-based row offset where that month's habit block starts. A
/// month label that repeats keeps a single entry, and the last matching
/// block wins, as it would in a map filled by repeated insertion.
pub fn valid_months(values: &Vec<Vec<String>>) -> (r: Vec<(String, usize)>)
    ensures
        table_view(r@) == spec_month_table(grid_view(values)),
{
    let ghost g = grid_view(values);
    let ghost mut raw: Seq<(Seq<char>, int)> = Seq::empty();
    let mut r: Vec<(String, usize)> = Vec::new();
    let mut i: usize = 0;
    proof {
        assert(table_view(r@) =~= dedup_labels(raw));
        assert(spec_months(g, 0) =~= raw + spec_months(g, 0));
    }
    while i < values.len()
        invariant
            i <= values@.len(),
            g == grid_view(values),
            spec_months(g, 0) =~= raw + spec_months(g, i as int),
            table_view(r@) =~= dedup_labels(raw),
        decreases values@.len() - i,
    {
        let row = &values[i];
        if row.len() > 0 {
            let parsed = month_from_name(&row[0]);
            proof {
                assert(g[i as int][0] == row@[0]@);
                assert(g[i as int].len() == row@.len());
            }
            if parsed.is_some() {
                let cell = &row[0];
                let ghost e = (cell@, i + 1 as int);
                let ghost d_before = table_view(r@);
                let pos = position_of(&r, cell);
                proof {
                    lemma_label_key_at_facts(d_before, cell@);
                }
                match pos {
                    Some(p) => {
                        let ghost r_before = r@;
                        r[p].1 = i + 1;
                        proof {
                            assert(r@ =~= r_before.update(p as int, (r_before[p as int].0,
                                (i + 1) as usize)));
                            assert(d_before[p as int].0 == cell@);
                            assert(d_before[p as int].0 == r_before[p as int].0@);
                            assert(table_view(r@) =~= d_before.update(p as int, e));
                        }
                    },
                    None => {
                        r.push((cell.clone(), i + 1));
                        proof {
                            assert(table_view(r@) =~= d_before.push(e));
                        }
                    },
                }
                proof {
                    assert((raw.push(e)).drop_last() =~= raw);
                    assert((raw.push(e)).last() == e);
                    assert(table_view(r@) =~= dedup_labels(raw.push(e)));
                    assert(spec_months(g, i as int) =~= seq![(g[i as int][0], i + 1)]
                        + spec_months(g, i + 1));
                    assert(raw.push(e) + spec_months(g, i + 1) =~= raw + spec_months(
                        g, i as int));
                    raw = raw.push(e);
                }
            } else {
                proof {
                    assert(spec_months(g, i as int) =~= spec_months(g, i + 1));
                }
            }
        } else {
            proof {
                assert(g[i as int].len() == 0);
                assert(spec_months(g, i as int) =~= spec_months(g, i + 1));
            }
        }
        i = i + 1;
    }
    proof {
        assert(spec_months(g, i as int) =~= Seq::<(Seq<char>, int)>::empty());
        assert(raw + Seq::<(Seq<char>, int)>::empty() =~= raw);
        assert(raw =~= spec_months(g, 0));
        assert(dedup_labels(raw) == spec_month_table(g));
    }
    r
}

} // verus!
