//! Planning a new month grid and the habit configuration sheet: the row and
//! column ranges the structural batch must cover, the value writes that label
//! the new block, and the parsing of a comma-separated habit list.

use vstd::prelude::*;

use vstd::string::StrSliceExecFns;
use vstd::string::StringExecFns;

use crate::data_updater::{cell_address, range_text, set_data, CellWrite};
use crate::text::{dec_chars, lex_le, sort_strings, views_of};

verus! {

/// The shape of a freshly inserted month block: rows to insert and clear at
/// the top of the sheet, and the body rows and day columns that receive
/// boolean validation and formatting. The label row and column are excluded
/// from the body.
pub struct TemplateLayout {
    pub n_rows: i32,
    pub body_row_start: i32,
    pub body_row_end: i32,
    pub day_col_start: i32,
    pub day_col_end: i32,
}

/// Computes the block shape for a month with the given habits and days: one
/// label row, one date-header row, and one row per habit.
pub fn template_layout(habit_count: usize, days: u8) -> (r: TemplateLayout)
    requires
        habit_count + 2 <= i32::MAX,
    ensures
        r.n_rows == habit_count + 2,
        r.body_row_start == 1,
        r.body_row_end == habit_count + 1,
        r.day_col_start == 1,
        r.day_col_end == days + 1,
{
    let n_rows: i32 = habit_count as i32 + 2;
    TemplateLayout {
        n_rows,
        body_row_start: 1,
        body_row_end: n_rows - 1,
        day_col_start: 1,
        day_col_end: days as i32 + 1,
    }
}

/// A single labeling write: one cell of the new block and the text it gets.
pub open spec fn value_write_ok(
    w: CellWrite,
    sheet: Seq<char>,
    row: nat,
    col: nat,
    text: Seq<char>,
) -> bool {
    &&& w.range@ == range_text(sheet, row, col)
    &&& w.value@ == text
}

/// Builds the value writes that label a freshly inserted month block: the
/// month name in the top-left cell, each habit name down column A from row 2
/// in the given order, and the day numbers 1 through `days` across the
/// header row from column B.
pub fn template_value_writes(
    month_label: &String,
    habits_sorted: &Vec<String>,
    days: u8,
    sheet_name: &String,
) -> (w: Vec<CellWrite>)
    requires
        habits_sorted@.len() + 2 <= usize::MAX,
    ensures
        w@.len() == 1 + habits_sorted@.len() + days as int,
        value_write_ok(w@[0], sheet_name@, 1, 1, month_label@),
        forall|i: int| 1 <= i < 1 + habits_sorted@.len() ==> value_write_ok(#[trigger] w@[i],
            sheet_name@, (i + 1) as nat, 1, habits_sorted@[i - 1]@),
        forall|i: int| 1 + habits_sorted@.len() <= i < w@.len() ==> value_write_ok(
            #[trigger] w@[i], sheet_name@, 1, (i + 1 - habits_sorted@.len()) as nat,
            dec_chars((i - habits_sorted@.len()) as nat)),
{
    let nh: usize = habits_sorted.len();
    let mut w: Vec<CellWrite> = Vec::new();

    let ghost w0 = w@;
    set_data(&mut w, month_label.clone(), cell_address(1, 1), sheet_name);
    proof {
        assert(w@[0] == w@.last());
    }

    let mut k: usize = 0;
    while k < nh
        invariant
            k <= nh,
            nh == habits_sorted@.len(),
            nh + 2 <= usize::MAX,
            w@.len() == 1 + k,
            value_write_ok(w@[0], sheet_name@, 1, 1, month_label@),
            forall|i: int| 1 <= i < 1 + k ==> value_write_ok(#[trigger] w@[i], sheet_name@,
                (i + 1) as nat, 1, habits_sorted@[i - 1]@),
        decreases nh - k,
    {
        let ghost w_before = w@;
        set_data(&mut w, habits_sorted[k].clone(), cell_address(k + 2, 1), sheet_name);
        proof {
            assert(w@.drop_last() =~= w_before);
            assert(w@[1 + k as int] == w@.last());
            assert(value_write_ok(w@[1 + k as int], sheet_name@, (k + 2) as nat, 1,
                habits_sorted@[k as int]@));
            assert forall|i: int| 1 <= i < 1 + k implies value_write_ok(#[trigger] w@[i],
                sheet_name@, (i + 1) as nat, 1, habits_sorted@[i - 1]@) by {
                assert(w@[i] == w@.drop_last()[i]);
                assert(w@[i] == w_before[i]);
            }
            assert(w@[0] == w_before[0]);
        }
        k = k + 1;
    }

    let mut d: usize = 1;
    while d <= days as usize
        invariant
            1 <= d <= days as usize + 1,
            nh == habits_sorted@.len(),
            nh + 2 <= usize::MAX,
            w@.len() == 1 + nh + d - 1,
            value_write_ok(w@[0], sheet_name@, 1, 1, month_label@),
            forall|i: int| 1 <= i < 1 + nh ==> value_write_ok(#[trigger] w@[i], sheet_name@,
                (i + 1) as nat, 1, habits_sorted@[i - 1]@),
            forall|i: int| 1 + nh <= i < w@.len() ==> value_write_ok(#[trigger] w@[i],
                sheet_name@, 1, (i + 1 - nh) as nat, dec_chars((i - nh) as nat)),
        decreases days as usize + 1 - d,
    {
        let ghost w_before = w@;
        let label = crate::text::usize_to_decimal(d);
        set_data(&mut w, label, cell_address(1, d + 1), sheet_name);
        proof {
            assert(w@.drop_last() =~= w_before);
            assert(w@[w@.len() - 1] == w@.last());
            assert(value_write_ok(w@[nh + d as int], sheet_name@, 1, (d + 1) as nat,
                dec_chars(d as nat)));
            assert forall|i: int| 1 <= i < 1 + nh implies value_write_ok(#[trigger] w@[i],
                sheet_name@, (i + 1) as nat, 1, habits_sorted@[i - 1]@) by {
                assert(w@[i] == w@.drop_last()[i]);
                assert(w@[i] == w_before[i]);
            }
            assert forall|i: int| 1 + nh <= i < w@.len() implies value_write_ok(
                #[trigger] w@[i], sheet_name@, 1, (i + 1 - nh) as nat, dec_chars((
                i - nh) as nat)) by {
                if i < w@.len() - 1 {
                    assert(w@[i] == w@.drop_last()[i]);
                    assert(w@[i] == w_before[i]);
                }
            }
            assert(w@[0] == w_before[0]);
        }
        d = d + 1;
    }
    w
}

/// The ranges of the configuration sheet that get boolean validation and
/// column resizing: data rows 1 through `habit_count`, flag columns 1 and 2,
/// three columns in all.
pub fn config_sheet_layout(habit_count: usize) -> (r: (i32, i32))
    requires
        habit_count + 1 <= i32::MAX,
    ensures
        r.0 == habit_count + 1,
        r.1 == 3,
{
    (habit_count as i32 + 1, 3)
}

/// Builds the value writes that fill a fresh configuration sheet: the header
/// row "Habit", "IsComplete", "IsActive", then one row per habit holding its
/// name and an active flag already set to "TRUE".
pub fn config_sheet_writes(habits: &Vec<String>, sheet_name: &String) -> (w: Vec<CellWrite>)
    requires
        habits@.len() + 2 <= usize::MAX,
        2 * habits@.len() + 3 <= usize::MAX,
    ensures
        w@.len() == 3 + 2 * habits@.len(),
        value_write_ok(w@[0], sheet_name@, 1, 1, "Habit"@),
        value_write_ok(w@[1], sheet_name@, 1, 2, "IsComplete"@),
        value_write_ok(w@[2], sheet_name@, 1, 3, "IsActive"@),
        forall|i: int| 3 <= i < w@.len() && (i - 3) % 2 == 0 ==> value_write_ok(
            #[trigger] w@[i], sheet_name@, ((i - 3) / 2 + 2) as nat, 1, habits@[(i - 3) / 2]@),
        forall|i: int| 3 <= i < w@.len() && (i - 3) % 2 == 1 ==> value_write_ok(
            #[trigger] w@[i], sheet_name@, ((i - 3) / 2 + 2) as nat, 3, "TRUE"@),
{
    let mut w: Vec<CellWrite> = Vec::new();
    set_data(&mut w, String::from_str("Habit"), cell_address(1, 1), sheet_name);
    let ghost w1 = w@;
    set_data(&mut w, String::from_str("IsComplete"), cell_address(1, 2), sheet_name);
    let ghost w2 = w@;
    set_data(&mut w, String::from_str("IsActive"), cell_address(1, 3), sheet_name);
    proof {
        assert(w2.drop_last() =~= w1);
        assert(w@.drop_last() =~= w2);
        assert(w@[0] == w1[0]);
        assert(w@[1] == w2[1]);
        assert(w@[2] == w@.last());
    }
    let mut k: usize = 0;
    while k < habits.len()
        invariant
            k <= habits@.len(),
            habits@.len() + 2 <= usize::MAX,
            2 * habits@.len() + 3 <= usize::MAX,
            w@.len() == 3 + 2 * k,
            value_write_ok(w@[0], sheet_name@, 1, 1, "Habit"@),
            value_write_ok(w@[1], sheet_name@, 1, 2, "IsComplete"@),
            value_write_ok(w@[2], sheet_name@, 1, 3, "IsActive"@),
            forall|i: int| 3 <= i < w@.len() && (i - 3) % 2 == 0 ==> value_write_ok(
                #[trigger] w@[i], sheet_name@, ((i - 3) / 2 + 2) as nat, 1,
                habits@[(i - 3) / 2]@),
            forall|i: int| 3 <= i < w@.len() && (i - 3) % 2 == 1 ==> value_write_ok(
                #[trigger] w@[i], sheet_name@, ((i - 3) / 2 + 2) as nat, 3, "TRUE"@),
        decreases habits@.len() - k,
    {
        let ghost w_before = w@;
        set_data(&mut w, habits[k].clone(), cell_address(k + 2, 1), sheet_name);
        let ghost w_mid = w@;
        set_data(&mut w, String::from_str("TRUE"), cell_address(k + 2, 3), sheet_name);
        proof {
            assert(w_mid.drop_last() =~= w_before);
            assert(w@.drop_last() =~= w_mid);
            assert(w@[3 + 2 * k as int] == w_mid.last());
            assert(w@[3 + 2 * k as int + 1] == w@.last());
            assert((3 + 2 * k as int - 3) % 2 == 0 && (3 + 2 * k as int - 3) / 2 == k as int);
            assert((3 + 2 * k as int + 1 - 3) % 2 == 1 && (3 + 2 * k as int + 1 - 3) / 2
                == k as int);
            assert(value_write_ok(w@[3 + 2 * k as int], sheet_name@, (k + 2) as nat, 1,
                habits@[k as int]@));
            assert(value_write_ok(w@[3 + 2 * k as int + 1], sheet_name@, (k + 2) as nat, 3,
                "TRUE"@));
            assert forall|i: int| 3 <= i < w@.len() && (i - 3) % 2 == 0 implies value_write_ok(
                #[trigger] w@[i], sheet_name@, ((i - 3) / 2 + 2) as nat, 1,
                habits@[(i - 3) / 2]@) by {
                if i < 3 + 2 * k {
                    assert(w@[i] == w@.drop_last()[i]);
                    assert(w_mid[i] == w_mid.drop_last()[i]);
                    assert(w@[i] == w_before[i]);
                } else {
                    assert(i == 3 + 2 * k as int);
                }
            }
            assert forall|i: int| 3 <= i < w@.len() && (i - 3) % 2 == 1 implies value_write_ok(
                #[trigger] w@[i], sheet_name@, ((i - 3) / 2 + 2) as nat, 3, "TRUE"@) by {
                if i < 3 + 2 * k {
                    assert(w@[i] == w@.drop_last()[i]);
                    assert(w_mid[i] == w_mid.drop_last()[i]);
                    assert(w@[i] == w_before[i]);
                } else {
                    assert(i == 3 + 2 * k as int + 1);
                }
            }
            assert(w@[0] == w_before[0]);
            assert(w@[1] == w_before[1]);
            assert(w@[2] == w_before[2]);
        }
        k = k + 1;
    }
    w
}

/// The whitespace that habit input trimming strips.
pub open spec fn is_space_char(c: char) -> bool {
    c == ' ' || c == '\t' || c == '\n' || c == '\r'
}

/// A piece of habit input with its surrounding whitespace removed.
pub open spec fn trim_text(s: Seq<char>) -> Seq<char>
    decreases s.len(),
{
    if s.len() == 0 {
        s
    } else if is_space_char(s.first()) {
        trim_text(s.drop_first())
    } else if is_space_char(s.last()) {
        trim_text(s.drop_last())
    } else {
        s
    }
}

/// Trimming keeps exactly the span from the first to the last non-space
/// character.
proof fn lemma_trim_subrange(s: Seq<char>, lo: int, hi: int)
    requires
        0 <= lo <= hi <= s.len(),
        forall|i: int| 0 <= i < lo ==> is_space_char(#[trigger] s[i]),
        forall|i: int| hi <= i < s.len() ==> is_space_char(#[trigger] s[i]),
        lo < hi ==> !is_space_char(s[lo]) && !is_space_char(s[hi - 1]),
    ensures
        trim_text(s) == s.subrange(lo, hi),
    decreases s.len(),
{
    if lo > 0 {
        let t = s.drop_first();
        assert(is_space_char(s.first()));
        assert(forall|i: int| 0 <= i < t.len() ==> t[i] == s[i + 1]);
        lemma_trim_subrange(t, lo - 1, hi - 1);
        assert(t.subrange(lo - 1, hi - 1) =~= s.subrange(lo, hi));
    } else if hi < s.len() {
        let t = s.drop_last();
        assert(is_space_char(s.last()));
        if s.len() > 0 && is_space_char(s.first()) {
            assert(lo < hi ==> !is_space_char(s[lo]));
            assert(lo == 0);
            assert(lo == hi);
            let t2 = s.drop_first();
            assert(forall|i: int| 0 <= i < t2.len() ==> t2[i] == s[i + 1]);
            lemma_trim_subrange(t2, 0, 0);
            assert(t2.subrange(0, 0) =~= s.subrange(lo, hi));
        } else {
            assert(forall|i: int| 0 <= i < t.len() ==> t[i] == s[i]);
            lemma_trim_subrange(t, lo, hi);
            assert(t.subrange(lo, hi) =~= s.subrange(lo, hi));
        }
    } else {
        assert(s.subrange(lo, hi) =~= s);
        if s.len() > 0 {
            assert(!is_space_char(s[lo]));
            assert(!is_space_char(s.first()));
            assert(!is_space_char(s.last()));
        }
    }
}

/// Whether a character is habit-input whitespace.
fn is_space(c: char) -> (r: bool)
    ensures
        r == is_space_char(c),
{
    c == ' ' || c == '\t' || c == '\n' || c == '\r'
}

/// Strips leading and trailing whitespace from one habit-input piece.
pub fn trim_str(s: &str) -> (r: String)
    ensures
        r@ == trim_text(s@),
{
    let n: usize = s.unicode_len();
    let mut lo: usize = 0;
    loop
        invariant
            lo <= n,
            n == s@.len(),
            forall|i: int| 0 <= i < lo ==> is_space_char(#[trigger] s@[i]),
        ensures
            lo <= n,
            forall|i: int| 0 <= i < lo ==> is_space_char(#[trigger] s@[i]),
            lo == n || !is_space_char(s@[lo as int]),
        decreases n - lo,
    {
        if lo >= n {
            break;
        }
        if !is_space(s.get_char(lo)) {
            break;
        }
        lo = lo + 1;
    }
    let mut hi: usize = n;
    loop
        invariant
            lo <= hi <= n,
            n == s@.len(),
            lo == n || !is_space_char(s@[lo as int]),
            forall|i: int| hi <= i < n ==> is_space_char(#[trigger] s@[i]),
        ensures
            lo <= hi <= n,
            forall|i: int| hi <= i < n ==> is_space_char(#[trigger] s@[i]),
            hi == lo || !is_space_char(s@[hi - 1]),
        decreases hi,
    {
        if hi <= lo {
            break;
        }
        if !is_space(s.get_char(hi - 1)) {
            break;
        }
        hi = hi - 1;
    }
    let piece = s.substring_char(lo, hi);
    proof {
        lemma_trim_subrange(s@, lo as int, hi as int);
    }
    String::from_str(piece)
}

/// The pieces of a habit input line, split on every comma: always at least
/// one piece, commas themselves dropped.
pub open spec fn split_commas(s: Seq<char>) -> Seq<Seq<char>>
    decreases s.len(),
{
    if s.len() == 0 {
        seq![s]
    } else if s.last() == ',' {
        split_commas(s.drop_last()).push(Seq::empty())
    } else {
        let r = split_commas(s.drop_last());
        r.update(r.len() - 1, r.last().push(s.last()))
    }
}

/// Splitting yields at least one piece.
proof fn lemma_split_commas_nonempty(s: Seq<char>)
    ensures
        split_commas(s).len() >= 1,
    decreases s.len(),
{
    if s.len() > 0 {
        lemma_split_commas_nonempty(s.drop_last());
    }
}

/// The habit names a split yields once each piece is trimmed and empty
/// pieces are dropped, in input order.
pub open spec fn clean_pieces(ps: Seq<Seq<char>>) -> Seq<Seq<char>>
    decreases ps.len(),
{
    if ps.len() == 0 {
        Seq::empty()
    } else if trim_text(ps.last()).len() > 0 {
        clean_pieces(ps.drop_last()).push(trim_text(ps.last()))
    } else {
        clean_pieces(ps.drop_last())
    }
}

/// The habit names named by one comma-separated input line.
pub open spec fn habit_input_items(s: Seq<char>) -> Seq<Seq<char>> {
    clean_pieces(split_commas(s))
}

/// Splits a habit input line on commas into its raw pieces.
fn split_on_commas(s: &str) -> (raw: Vec<String>)
    ensures
        raw.deep_view() == split_commas(s@),
{
    let n: usize = s.unicode_len();
    let mut raw: Vec<String> = Vec::new();
    let mut start: usize = 0;
    let mut i: usize = 0;
    proof {
        assert(s@.take(0) =~= Seq::<char>::empty());
        assert(split_commas(s@.take(0)) =~= seq![Seq::<char>::empty()]);
        assert(raw.deep_view() =~= split_commas(s@.take(0)).drop_last());
        assert(split_commas(s@.take(0)).last() =~= s@.subrange(0, 0));
    }
    while i < n
        invariant
            start <= i <= n,
            n == s@.len(),
            raw.deep_view() =~= split_commas(s@.take(i as int)).drop_last(),
            split_commas(s@.take(i as int)).last() =~= s@.subrange(start as int, i as int),
            split_commas(s@.take(i as int)).len() >= 1,
        decreases n - i,
    {
        let c = s.get_char(i);
        proof {
            assert(s@.take(i + 1).drop_last() =~= s@.take(i as int));
            assert(s@.take(i + 1).last() == s@[i as int]);
            lemma_split_commas_nonempty(s@.take(i as int));
        }
        if c == ',' {
            let piece = s.substring_char(start, i);
            raw.push(String::from_str(piece));
            proof {
                let sp = split_commas(s@.take(i as int));
                let sp2 = split_commas(s@.take(i + 1));
                assert(sp2 =~= sp.push(Seq::empty()));
                assert(sp2.drop_last() =~= sp);
                assert(sp =~= sp.drop_last().push(sp.last()));
                assert(raw.deep_view() =~= sp);
                assert(sp2.last() =~= s@.subrange(i + 1, i + 1));
            }
            start = i + 1;
        } else {
            proof {
                let sp = split_commas(s@.take(i as int));
                let sp2 = split_commas(s@.take(i + 1));
                assert(sp2 =~= sp.update(sp.len() - 1, sp.last().push(s@[i as int])));
                assert(sp2.drop_last() =~= sp.drop_last());
                assert(sp2.last() =~= s@.subrange(start as int, i + 1));
            }
        }
        i = i + 1;
    }
    let piece = s.substring_char(start, n);
    raw.push(String::from_str(piece));
    proof {
        assert(s@.take(n as int) =~= s@);
        let sp = split_commas(s@);
        assert(raw.deep_view() =~= sp.drop_last().push(sp.last()));
        assert(sp.drop_last().push(sp.last()) =~= sp);
    }
    raw
}

/// Parses the habit prompt's answer: splits on commas, trims each piece,
/// drops empty pieces, and sorts the surviving names alphabetically. The
/// result holds exactly the names the input listed, in sorted order.
pub fn parse_habit_input(s: &str) -> (r: Vec<String>)
    ensures
        forall|p: int, q: int| 0 <= p < q < r@.len() ==> #[trigger] lex_le(r@[p]@, r@[q]@),
        views_of(r@).to_multiset() == habit_input_items(s@).to_multiset(),
{
    let raw = split_on_commas(s);
    let mut cleaned: Vec<String> = Vec::new();
    let mut i: usize = 0;
    proof {
        assert(raw.deep_view().take(0) =~= Seq::<Seq<char>>::empty());
        assert(cleaned.deep_view() =~= clean_pieces(raw.deep_view().take(0)));
    }
    while i < raw.len()
        invariant
            i <= raw@.len(),
            raw.deep_view() == split_commas(s@),
            raw.deep_view().len() == raw@.len(),
            forall|j: int| 0 <= j < raw@.len() ==> (#[trigger] raw@[j])@ == raw.deep_view()[j],
            cleaned.deep_view() =~= clean_pieces(raw.deep_view().take(i as int)),
        decreases raw@.len() - i,
    {
        let ghost before = cleaned.deep_view();
        proof {
            assert(raw.deep_view().take(i + 1).drop_last() =~= raw.deep_view().take(i as int));
            assert(raw.deep_view().take(i + 1).last() == raw.deep_view()[i as int]);
        }
        let t = trim_str(raw[i].as_str());
        if !t.as_str().is_empty() {
            cleaned.push(t);
            proof {
                assert(cleaned.deep_view() =~= before.push(trim_text(raw.deep_view()[
                    i as int])));
            }
        }
        i = i + 1;
    }
    proof {
        assert(raw.deep_view().take(raw.deep_view().len() as int) =~= raw.deep_view());
        assert(views_of(cleaned@) =~= cleaned.deep_view());
    }
    sort_strings(&mut cleaned);
    cleaned
}

} // verus!
