//! Cell addressing and the update engine: A1-style addresses in bijective
//! base-26, the batched cell writes that mark habits done or skipped, and the
//! mirroring of those writes into the in-memory grid.

use vstd::prelude::*;

use vstd::string::StringExecFns;

use crate::sheet_parser::{dates_get, false_text, spec_lookup, spec_lookup_date, table_get,
    true_text};
use crate::text::{dec_chars, usize_to_decimal};

verus! {

/// Bijective base-26 digit for values 0 through 25, rendered 'A' through 'Z'.
pub open spec fn letter_char(d: int) -> char {
    if d == 0 { 'A' } else if d == 1 { 'B' } else if d == 2 { 'C' } else if d == 3 { 'D' }
    else if d == 4 { 'E' } else if d == 5 { 'F' } else if d == 6 { 'G' } else if d == 7 { 'H' }
    else if d == 8 { 'I' } else if d == 9 { 'J' } else if d == 10 { 'K' } else if d == 11 { 'L' }
    else if d == 12 { 'M' } else if d == 13 { 'N' } else if d == 14 { 'O' } else if d == 15 { 'P' }
    else if d == 16 { 'Q' } else if d == 17 { 'R' } else if d == 18 { 'S' } else if d == 19 { 'T' }
    else if d == 20 { 'U' } else if d == 21 { 'V' } else if d == 22 { 'W' } else if d == 23 { 'X' }
    else if d == 24 { 'Y' } else { 'Z' }
}

/// Spreadsheet column label for a 1-based column index, in bijective base-26:
/// 1 is "A", 26 is "Z", 27 is "AA", 702 is "ZZ"; 0 has the empty label.
pub open spec fn column_letters(c: nat) -> Seq<char>
    decreases c,
{
    if c == 0 {
        Seq::empty()
    } else {
        column_letters(((c - 1) / 26) as nat).push(letter_char((c - 1) % 26))
    }
}

pub open spec fn is_letter_char(c: char) -> bool {
    65 <= c as int <= 90
}

pub open spec fn all_letter_chars(s: Seq<char>) -> bool {
    forall|i: int| 0 <= i < s.len() ==> is_letter_char(#[trigger] s[i])
}

/// The 1-based column index named by a sequence of letters, reading 'A' as 1
/// through 'Z' as 26 in bijective base-26.
pub open spec fn letters_value(s: Seq<char>) -> int
    decreases s.len(),
{
    if s.len() == 0 {
        0
    } else {
        letters_value(s.drop_last()) * 26 + (s.last() as int - 64)
    }
}

/// Column labels round-trip: parsing the label of column `c` gives back `c`.
/// This also shows the label is made of letters, nonempty whenever `c >= 1`.
pub proof fn lemma_column_letters_round_trip(c: nat)
    ensures
        letters_value(column_letters(c)) == c,
        all_letter_chars(column_letters(c)),
        c >= 1 ==> column_letters(c).len() >= 1,
    decreases c,
{
    if c >= 1 {
        let m = c as int - 1;
        let q = (m / 26) as nat;
        let d = m % 26;
        lemma_column_letters_round_trip(q);
        vstd::arithmetic::div_mod::lemma_fundamental_div_mod(m, 26);
        assert(letter_char(d) as int == 65 + d);
        let s = column_letters(c);
        assert(s == column_letters(q).push(letter_char(d)));
        assert(s.drop_last() =~= column_letters(q));
        assert(s.last() == letter_char(d));
        assert(letters_value(s) == q * 26 + d + 1);
    }
}

/// One column letter as a string slice.
fn letter_str(d: usize) -> (r: &'static str)
    requires
        d < 26,
    ensures
        r@ =~= seq![letter_char(d as int)],
{
    let r: &'static str = match d {
        0 => "A", 1 => "B", 2 => "C", 3 => "D", 4 => "E", 5 => "F", 6 => "G", 7 => "H",
        8 => "I", 9 => "J", 10 => "K", 11 => "L", 12 => "M", 13 => "N", 14 => "O", 15 => "P",
        16 => "Q", 17 => "R", 18 => "S", 19 => "T", 20 => "U", 21 => "V", 22 => "W", 23 => "X",
        24 => "Y", _ => "Z",
    };
    proof {
        reveal_strlit("A"); reveal_strlit("B"); reveal_strlit("C"); reveal_strlit("D");
        reveal_strlit("E"); reveal_strlit("F"); reveal_strlit("G"); reveal_strlit("H");
        reveal_strlit("I"); reveal_strlit("J"); reveal_strlit("K"); reveal_strlit("L");
        reveal_strlit("M"); reveal_strlit("N"); reveal_strlit("O"); reveal_strlit("P");
        reveal_strlit("Q"); reveal_strlit("R"); reveal_strlit("S"); reveal_strlit("T");
        reveal_strlit("U"); reveal_strlit("V"); reveal_strlit("W"); reveal_strlit("X");
        reveal_strlit("Y"); reveal_strlit("Z");
    }
    r
}

/// Letter digits collected least significant first, read back in display order.
spec fn rev_letter_chars(ds: Seq<usize>) -> Seq<char> {
    Seq::new(ds.len(), |k: int| letter_char(ds[ds.len() - 1 - k] as int))
}

/// Renders a 1-based column index as its spreadsheet letter label.
pub fn column_to_letter(col: usize) -> (r: String)
    ensures
        r@ == column_letters(col as nat),
{
    let mut digits: Vec<usize> = Vec::new();
    let mut c: usize = col;
    proof {
        assert(column_letters(col as nat) =~= column_letters(col as nat)
            + rev_letter_chars(digits@));
    }
    while c > 0
        invariant
            forall|k: int| 0 <= k < digits@.len() ==> #[trigger] digits@[k] < 26,
            column_letters(col as nat) =~= column_letters(c as nat) + rev_letter_chars(digits@),
        decreases c,
    {
        let ghost before = digits@;
        let d: usize = (c - 1) % 26;
        digits.push(d);
        c = (c - 1) / 26;
        proof {
            assert(rev_letter_chars(before.push(d)) =~= seq![letter_char(d as int)]
                + rev_letter_chars(before));
            assert(column_letters(col as nat) =~= column_letters(c as nat)
                + rev_letter_chars(digits@));
        }
    }
    let mut r = String::new();
    let mut i: usize = digits.len();
    proof {
        assert(column_letters(col as nat) =~= rev_letter_chars(digits@));
    }
    while i > 0
        invariant
            i <= digits@.len(),
            forall|k: int| 0 <= k < digits@.len() ==> #[trigger] digits@[k] < 26,
            column_letters(col as nat) =~= rev_letter_chars(digits@),
            r@ =~= rev_letter_chars(digits@).subrange(0, digits@.len() - i),
        decreases i,
    {
        i = i - 1;
        let s = letter_str(digits[i]);
        r.append(s);
        proof {
            assert(r@ =~= rev_letter_chars(digits@).subrange(0, digits@.len() - i));
        }
    }
    proof {
        assert(r@ =~= rev_letter_chars(digits@));
    }
    r
}

/// Parses a column letter label back to its 1-based index, accepting exactly
/// the nonempty strings of 'A' through 'Z' whose value fits in `usize`.
pub fn letter_to_column(s: &str) -> (r: Option<usize>)
    ensures
        r is Some <==> s@.len() >= 1 && all_letter_chars(s@) && letters_value(s@) <= usize::MAX,
        r is Some ==> r->0 == letters_value(s@),
{
    let n_chars: usize = s.unicode_len();
    if n_chars == 0 {
        return None;
    }
    let mut acc: usize = 0;
    let mut i: usize = 0;
    while i < n_chars
        invariant
            i <= n_chars,
            n_chars == s@.len(),
            n_chars >= 1,
            forall|j: int| 0 <= j < i ==> is_letter_char(#[trigger] s@[j]),
            acc == letters_value(s@.subrange(0, i as int)),
        decreases n_chars - i,
    {
        let c: char = s.get_char(i);
        let cv: u32 = c as u32;
        if cv < 65 || cv > 90 {
            proof {
                assert(!is_letter_char(s@[i as int]));
            }
            return None;
        }
        let d: usize = (cv - 64) as usize;
        let ghost prefix = s@.subrange(0, i as int);
        let ghost extended = s@.subrange(0, i + 1 as int);
        proof {
            assert(extended.drop_last() =~= prefix);
            assert(extended.last() == s@[i as int]);
            assert(letters_value(extended) == acc * 26 + d);
        }
        let step: usize = match acc.checked_mul(26) {
            Some(x) => match x.checked_add(d) {
                Some(y) => y,
                None => {
                    proof {
                        lemma_letters_value_too_large(s@, i + 1 as int);
                    }
                    return None;
                },
            },
            None => {
                proof {
                    assert(acc * 26 + d > usize::MAX) by (nonlinear_arith)
                        requires acc * 26 > usize::MAX, d >= 0;
                    lemma_letters_value_too_large(s@, i + 1 as int);
                }
                return None;
            },
        };
        acc = step;
        i = i + 1;
    }
    proof {
        assert(s@.subrange(0, n_chars as int) =~= s@);
    }
    Some(acc)
}

proof fn lemma_letters_value_nonneg(s: Seq<char>)
    requires
        all_letter_chars(s),
    ensures
        letters_value(s) >= 0,
    decreases s.len(),
{
    if s.len() > 0 {
        assert(all_letter_chars(s.drop_last()));
        lemma_letters_value_nonneg(s.drop_last());
    }
}

/// Extending a letter label on the right can only increase its value.
proof fn lemma_letters_value_prefix_le(s: Seq<char>, k: int)
    requires
        all_letter_chars(s),
        0 <= k <= s.len(),
    ensures
        letters_value(s.subrange(0, k)) <= letters_value(s),
    decreases s.len() - k,
{
    if k == s.len() {
        assert(s.subrange(0, k) =~= s);
    } else {
        let t = s.subrange(0, k + 1);
        assert(t.drop_last() =~= s.subrange(0, k));
        assert(all_letter_chars(t.drop_last()));
        lemma_letters_value_nonneg(t.drop_last());
        assert(letters_value(t) == letters_value(s.subrange(0, k)) * 26 + (t.last() as int - 64));
        assert(letters_value(s.subrange(0, k)) * 26 >= letters_value(s.subrange(0, k)))
            by (nonlinear_arith)
            requires letters_value(s.subrange(0, k)) >= 0;
        lemma_letters_value_prefix_le(s, k + 1);
    }
}

/// When the letters seen so far already name a column past `usize::MAX`, the
/// whole label does too.
proof fn lemma_letters_value_too_large(s: Seq<char>, k: int)
    requires
        0 <= k <= s.len(),
        forall|j: int| 0 <= j < k ==> is_letter_char(#[trigger] s[j]),
        letters_value(s.subrange(0, k)) > usize::MAX,
    ensures
        !(s.len() >= 1 && all_letter_chars(s) && letters_value(s) <= usize::MAX),
{
    if all_letter_chars(s) {
        lemma_letters_value_prefix_le(s, k);
    }
}

/// A1-style address of the cell in the given 1-based row and column, letters
/// then decimal row number.
pub open spec fn a1_address(row: nat, col: nat) -> Seq<char> {
    column_letters(col) + dec_chars(row)
}

/// Renders the A1-style address of a 1-based (row, column) pair.
pub fn cell_address(row: usize, col: usize) -> (r: String)
    ensures
        r@ == a1_address(row as nat, col as nat),
{
    let letters = column_to_letter(col);
    let number = usize_to_decimal(row);
    letters.concat(number.as_str())
}

/// One pending single-cell write: the A1-style range it targets, of the form
/// "<sheet>!<cell>", and the text to place there.
pub struct CellWrite {
    pub range: String,
    pub value: String,
}

/// The range text of a single-cell write in the given sheet.
pub open spec fn range_text(sheet: Seq<char>, row: nat, col: nat) -> Seq<char> {
    sheet + "!"@ + a1_address(row, col)
}

/// The wire text for the chosen completion value.
pub open spec fn sel_text(update_value: bool) -> Seq<char> {
    if update_value {
        true_text()
    } else {
        false_text()
    }
}

/// Appends one single-cell write for the given sheet and cell to a batch.
pub fn set_data(
    value_range: &mut Vec<CellWrite>,
    cell_value: String,
    cell_index: String,
    sheet_name: &String,
)
    ensures
        final(value_range)@.len() == old(value_range)@.len() + 1,
        final(value_range)@.drop_last() =~= old(value_range)@,
        final(value_range)@.last().range@ == sheet_name@ + "!"@ + cell_index@,
        final(value_range)@.last().value@ == cell_value@,
{
    let range = sheet_name.clone().concat("!").concat(cell_index.as_str());
    value_range.push(CellWrite { range, value: cell_value });
}

/// The habit names whose selection flag is set, in selection-map order.
pub open spec fn sel_true_names(sel: Seq<(String, bool)>) -> Seq<Seq<char>>
    decreases sel.len(),
{
    if sel.len() == 0 {
        Seq::empty()
    } else if sel.last().1 {
        sel_true_names(sel.drop_last()) + seq![sel.last().0@]
    } else {
        sel_true_names(sel.drop_last())
    }
}

/// The day numbers whose selection flag is set, in selection-map order.
pub open spec fn sel_true_days(sel: Seq<(usize, bool)>) -> Seq<usize>
    decreases sel.len(),
{
    if sel.len() == 0 {
        Seq::empty()
    } else if sel.last().1 {
        sel_true_days(sel.drop_last()) + seq![sel.last().0]
    } else {
        sel_true_days(sel.drop_last())
    }
}

/// Collects the flagged habit names of a selection map.
pub fn true_names(sel: &Vec<(String, bool)>) -> (r: Vec<String>)
    ensures
        r.deep_view() == sel_true_names(sel@),
{
    let mut r: Vec<String> = Vec::new();
    let mut i: usize = 0;
    proof {
        assert(sel@.take(0) =~= Seq::<(String, bool)>::empty());
        assert(r.deep_view() =~= sel_true_names(sel@.take(0)));
    }
    while i < sel.len()
        invariant
            i <= sel@.len(),
            r.deep_view() =~= sel_true_names(sel@.take(i as int)),
        decreases sel@.len() - i,
    {
        let ghost r_before = r.deep_view();
        proof {
            assert(sel@.take(i + 1).drop_last() =~= sel@.take(i as int));
            assert(sel@.take(i + 1).last() == sel@[i as int]);
        }
        if sel[i].1 {
            r.push(sel[i].0.clone());
            proof {
                assert(r.deep_view() =~= r_before.push(sel@[i as int].0@));
            }
        }
        i = i + 1;
    }
    proof {
        assert(sel@.take(sel@.len() as int) =~= sel@);
    }
    r
}

/// Collects the flagged day numbers of a selection map.
pub fn true_days(sel: &Vec<(usize, bool)>) -> (r: Vec<usize>)
    ensures
        r@ == sel_true_days(sel@),
{
    let mut r: Vec<usize> = Vec::new();
    let mut i: usize = 0;
    proof {
        assert(sel@.take(0) =~= Seq::<(usize, bool)>::empty());
        assert(r@ =~= sel_true_days(sel@.take(0)));
    }
    while i < sel.len()
        invariant
            i <= sel@.len(),
            r@ =~= sel_true_days(sel@.take(i as int)),
        decreases sel@.len() - i,
    {
        proof {
            assert(sel@.take(i + 1).drop_last() =~= sel@.take(i as int));
            assert(sel@.take(i + 1).last() == sel@[i as int]);
        }
        if sel[i].1 {
            r.push(sel[i].0);
        }
        i = i + 1;
    }
    proof {
        assert(sel@.take(sel@.len() as int) =~= sel@);
    }
    r
}

/// With every habit entry flagged, the selected names are exactly the map's
/// names, in order.
pub proof fn lemma_select_all_names(sel: Seq<(String, bool)>)
    requires
        forall|i: int| 0 <= i < sel.len() ==> (#[trigger] sel[i]).1,
    ensures
        sel_true_names(sel).len() == sel.len(),
        forall|i: int| 0 <= i < sel.len() ==> sel_true_names(sel)[i] == (#[trigger] sel[i]).0@,
    decreases sel.len(),
{
    if sel.len() > 0 {
        assert(forall|i: int| 0 <= i < sel.drop_last().len() ==> (#[trigger] sel.drop_last()[
            i]).1);
        lemma_select_all_names(sel.drop_last());
        assert forall|i: int| 0 <= i < sel.len() implies sel_true_names(sel)[i]
            == (#[trigger] sel[i]).0@ by {
            if i < sel.len() - 1 {
                assert(sel.drop_last()[i] == sel[i]);
            }
        }
    }
}

/// With every date entry flagged, the selected days are exactly the map's
/// days, in order.
pub proof fn lemma_select_all_days(sel: Seq<(usize, bool)>)
    requires
        forall|i: int| 0 <= i < sel.len() ==> (#[trigger] sel[i]).1,
    ensures
        sel_true_days(sel).len() == sel.len(),
        forall|i: int| 0 <= i < sel.len() ==> sel_true_days(sel)[i] == (#[trigger] sel[i]).0,
    decreases sel.len(),
{
    if sel.len() > 0 {
        assert(forall|i: int| 0 <= i < sel.drop_last().len() ==> (#[trigger] sel.drop_last()[
            i]).1);
        lemma_select_all_days(sel.drop_last());
        assert forall|i: int| 0 <= i < sel.len() implies sel_true_days(sel)[i]
            == (#[trigger] sel[i]).0 by {
            if i < sel.len() - 1 {
                assert(sel.drop_last()[i] == sel[i]);
            }
        }
    }
}

/// The select-all shortcut makes the update write habits × dates cells: with
/// every entry of both selection maps flagged, the batch `update_activities`
/// builds holds exactly one write per (habit, date) pair of the two maps,
/// each carrying the single chosen completion value.
pub proof fn lemma_select_all_write_count(
    ws: Seq<CellWrite>,
    sheet: Seq<char>,
    habits: Seq<(String, usize)>,
    dates: Seq<(usize, usize)>,
    habit_sel: Seq<(String, bool)>,
    date_sel: Seq<(usize, bool)>,
    update_value: bool,
)
    requires
        forall|i: int| 0 <= i < habit_sel.len() ==> (#[trigger] habit_sel[i]).1,
        forall|i: int| 0 <= i < date_sel.len() ==> (#[trigger] date_sel[i]).1,
        writes_match(ws, sheet, habits, dates, sel_true_names(habit_sel), sel_true_days(
            date_sel), update_value),
    ensures
        ws.len() == habit_sel.len() * date_sel.len(),
        forall|k: int| 0 <= k < ws.len() ==> (#[trigger] ws[k]).value@ == sel_text(update_value),
{
    lemma_select_all_names(habit_sel);
    lemma_select_all_days(date_sel);
    let hkeys = sel_true_names(habit_sel);
    let dkeys = sel_true_days(date_sel);
    let nd = dkeys.len() as int;
    assert forall|k: int| 0 <= k < ws.len() implies (#[trigger] ws[k]).value@ == sel_text(
        update_value) by {
        assert(nd > 0) by (nonlinear_arith)
            requires 0 <= k, k < hkeys.len() * nd, nd >= 0;
        assert(0 <= k % nd < nd) by (nonlinear_arith)
            requires nd > 0, k >= 0;
        vstd::arithmetic::div_mod::lemma_fundamental_div_mod(k, nd);
        let a = k / nd;
        let b = k % nd;
        assert(0 <= a < hkeys.len()) by (nonlinear_arith)
            requires k == nd * a + b, 0 <= b < nd, 0 <= k < hkeys.len() * nd, nd > 0;
        assert(hkeys[a] == hkeys[a] && dkeys[b] == dkeys[b]);
        assert(a * nd + b == k) by (nonlinear_arith)
            requires k == nd * a + b;
        assert(write_ok(ws[a * nd + b], sheet, habits, dates, hkeys[a], dkeys[b], update_value));
    }
}

/// A grid cell some selected (habit, date) pair resolves to through the two
/// index tables.
pub open spec fn is_target(
    habits: Seq<(String, usize)>,
    dates: Seq<(usize, usize)>,
    hkeys: Seq<Seq<char>>,
    dkeys: Seq<usize>,
    r: int,
    c: int,
) -> bool {
    exists|k: int, j: int|
        #![trigger hkeys[k], dkeys[j]]
        0 <= k < hkeys.len() && 0 <= j < dkeys.len() && spec_lookup(habits, hkeys[k]) is Some
            && spec_lookup(habits, hkeys[k])->0 == r && spec_lookup_date(dates, dkeys[j]) is Some
            && spec_lookup_date(dates, dkeys[j])->0 == c
}

/// Extending the habit keys extends the targeted cells by the new key's row.
proof fn lemma_target_push_name(
    habits: Seq<(String, usize)>,
    dates: Seq<(usize, usize)>,
    hkeys: Seq<Seq<char>>,
    x: Seq<char>,
    dkeys: Seq<usize>,
    r: int,
    c: int,
)
    ensures
        is_target(habits, dates, hkeys.push(x), dkeys, r, c) <==> (is_target(habits, dates,
            hkeys, dkeys, r, c) || is_target(habits, dates, seq![x], dkeys, r, c)),
{
    let ext = hkeys.push(x);
    if is_target(habits, dates, ext, dkeys, r, c) {
        let (k, j) = choose|k: int, j: int|
            #![trigger ext[k], dkeys[j]]
            0 <= k < ext.len() && 0 <= j < dkeys.len() && spec_lookup(habits, ext[k]) is Some
                && spec_lookup(habits, ext[k])->0 == r && spec_lookup_date(dates, dkeys[j])
                is Some && spec_lookup_date(dates, dkeys[j])->0 == c;
        if k < hkeys.len() {
            assert(ext[k] == hkeys[k]);
            assert(is_target(habits, dates, hkeys, dkeys, r, c));
        } else {
            assert(ext[k] == x);
            assert(seq![x][0] == x);
            assert(is_target(habits, dates, seq![x], dkeys, r, c));
        }
    }
    if is_target(habits, dates, hkeys, dkeys, r, c) {
        let (k, j) = choose|k: int, j: int|
            #![trigger hkeys[k], dkeys[j]]
            0 <= k < hkeys.len() && 0 <= j < dkeys.len() && spec_lookup(habits, hkeys[k]) is Some
                && spec_lookup(habits, hkeys[k])->0 == r && spec_lookup_date(dates, dkeys[j])
                is Some && spec_lookup_date(dates, dkeys[j])->0 == c;
        assert(ext[k] == hkeys[k]);
        assert(is_target(habits, dates, ext, dkeys, r, c));
    }
    if is_target(habits, dates, seq![x], dkeys, r, c) {
        let (k, j) = choose|k: int, j: int|
            #![trigger seq![x][k], dkeys[j]]
            0 <= k < seq![x].len() && 0 <= j < dkeys.len() && spec_lookup(habits, seq![x][k])
                is Some && spec_lookup(habits, seq![x][k])->0 == r && spec_lookup_date(
                dates, dkeys[j]) is Some && spec_lookup_date(dates, dkeys[j])->0 == c;
        assert(seq![x][k] == x);
        assert(ext[hkeys.len() as int] == x);
        assert(is_target(habits, dates, ext, dkeys, r, c));
    }
}

/// Extending the date keys extends the targeted cells by the new key's column.
proof fn lemma_target_push_day(
    habits: Seq<(String, usize)>,
    dates: Seq<(usize, usize)>,
    hkeys: Seq<Seq<char>>,
    dkeys: Seq<usize>,
    d: usize,
    r: int,
    c: int,
)
    ensures
        is_target(habits, dates, hkeys, dkeys.push(d), r, c) <==> (is_target(habits, dates,
            hkeys, dkeys, r, c) || is_target(habits, dates, hkeys, seq![d], r, c)),
{
    let ext = dkeys.push(d);
    if is_target(habits, dates, hkeys, ext, r, c) {
        let (k, j) = choose|k: int, j: int|
            #![trigger hkeys[k], ext[j]]
            0 <= k < hkeys.len() && 0 <= j < ext.len() && spec_lookup(habits, hkeys[k]) is Some
                && spec_lookup(habits, hkeys[k])->0 == r && spec_lookup_date(dates, ext[j])
                is Some && spec_lookup_date(dates, ext[j])->0 == c;
        if j < dkeys.len() {
            assert(ext[j] == dkeys[j]);
            assert(is_target(habits, dates, hkeys, dkeys, r, c));
        } else {
            assert(ext[j] == d);
            assert(seq![d][0] == d);
            assert(is_target(habits, dates, hkeys, seq![d], r, c));
        }
    }
    if is_target(habits, dates, hkeys, dkeys, r, c) {
        let (k, j) = choose|k: int, j: int|
            #![trigger hkeys[k], dkeys[j]]
            0 <= k < hkeys.len() && 0 <= j < dkeys.len() && spec_lookup(habits, hkeys[k]) is Some
                && spec_lookup(habits, hkeys[k])->0 == r && spec_lookup_date(dates, dkeys[j])
                is Some && spec_lookup_date(dates, dkeys[j])->0 == c;
        assert(ext[j] == dkeys[j]);
        assert(is_target(habits, dates, hkeys, ext, r, c));
    }
    if is_target(habits, dates, hkeys, seq![d], r, c) {
        let (k, j) = choose|k: int, j: int|
            #![trigger hkeys[k], seq![d][j]]
            0 <= k < hkeys.len() && 0 <= j < seq![d].len() && spec_lookup(habits, hkeys[k])
                is Some && spec_lookup(habits, hkeys[k])->0 == r && spec_lookup_date(dates,
                seq![d][j]) is Some && spec_lookup_date(dates, seq![d][j])->0 == c;
        assert(seq![d][j] == d);
        assert(ext[dkeys.len() as int] == d);
        assert(is_target(habits, dates, hkeys, ext, r, c));
    }
}

/// A single write that marks the habit `name` on day `day` with the chosen
/// value, addressed one row below and one column right of the 0-based table
/// indices (the sheet is 1-based).
pub open spec fn write_ok(
    w: CellWrite,
    sheet: Seq<char>,
    habits: Seq<(String, usize)>,
    dates: Seq<(usize, usize)>,
    name: Seq<char>,
    day: usize,
    update_value: bool,
) -> bool {
    &&& w.range@ == range_text(sheet, (spec_lookup(habits, name)->0 + 1) as nat, (
        spec_lookup_date(dates, day)->0 + 1) as nat)
    &&& w.value@ == sel_text(update_value)
}

/// The batch holds exactly one write per selected (habit, date) pair, in
/// habit-major order.
pub open spec fn writes_match(
    ws: Seq<CellWrite>,
    sheet: Seq<char>,
    habits: Seq<(String, usize)>,
    dates: Seq<(usize, usize)>,
    hkeys: Seq<Seq<char>>,
    dkeys: Seq<usize>,
    update_value: bool,
) -> bool {
    &&& ws.len() == hkeys.len() * dkeys.len()
    &&& forall|k: int, j: int|
        #![trigger hkeys[k], dkeys[j]]
        0 <= k < hkeys.len() && 0 <= j < dkeys.len() ==> write_ok(
            ws[k * dkeys.len() + j], sheet, habits, dates, hkeys[k], dkeys[j], update_value)
}

/// The grid after an update: same shape, targeted cells hold the chosen
/// value's text, and every other cell is untouched.
pub open spec fn grid_updated(
    before: Seq<Vec<String>>,
    after: Seq<Vec<String>>,
    habits: Seq<(String, usize)>,
    dates: Seq<(usize, usize)>,
    hkeys: Seq<Seq<char>>,
    dkeys: Seq<usize>,
    update_value: bool,
) -> bool {
    &&& after.len() == before.len()
    &&& forall|r: int| 0 <= r < before.len() ==> (#[trigger] after[r])@.len() == before[r]@.len()
    &&& forall|r: int, c: int|
        #![trigger after[r]@[c]]
        0 <= r < before.len() && 0 <= c < before[r]@.len() ==> (if is_target(habits, dates,
            hkeys, dkeys, r, c) {
            after[r]@[c]@ == sel_text(update_value)
        } else {
            after[r]@[c] == before[r]@[c]
        })
}

/// Every selected habit resolves to a row of the grid, and every selected
/// date to a column present in each such row; the update engine demands
/// this, as a selection outside the tables or the grid has no cell to write.
pub open spec fn update_inputs_ok(
    g: Seq<Vec<String>>,
    habits: Seq<(String, usize)>,
    dates: Seq<(usize, usize)>,
    hkeys: Seq<Seq<char>>,
    dkeys: Seq<usize>,
) -> bool {
    &&& forall|k: int| 0 <= k < hkeys.len() ==> (#[trigger] spec_lookup(habits, hkeys[k]))
        is Some && spec_lookup(habits, hkeys[k])->0 < g.len()
    &&& forall|k: int, j: int|
        #![trigger hkeys[k], dkeys[j]]
        0 <= k < hkeys.len() && 0 <= j < dkeys.len() ==> spec_lookup_date(dates, dkeys[j])
            is Some && spec_lookup_date(dates, dkeys[j])->0 < g[spec_lookup(habits,
            hkeys[k])->0 as int]@.len()
}

/// Tests whether an update over the given selections can resolve and write
/// every targeted cell; a caller checks this before applying an update.
pub fn check_update_inputs(
    selected_dates: &Vec<(usize, bool)>,
    selected_habits: &Vec<(String, bool)>,
    habits: &Vec<(String, usize)>,
    dates: &Vec<(usize, usize)>,
    values: &Vec<Vec<String>>,
) -> (ok: bool)
    ensures
        ok == update_inputs_ok(values@, habits@, dates@, sel_true_names(selected_habits@),
            sel_true_days(selected_dates@)),
{
    let ghost hsel = sel_true_names(selected_habits@);
    let ghost dsel = sel_true_days(selected_dates@);
    let hnames = true_names(selected_habits);
    let dkeys = true_days(selected_dates);
    let mut k: usize = 0;
    while k < hnames.len()
        invariant
            k <= hsel.len(),
            hsel == sel_true_names(selected_habits@),
            dsel == sel_true_days(selected_dates@),
            hnames.deep_view() == hsel,
            dkeys@ == dsel,
            hnames@.len() == hsel.len(),
            forall|a: int| 0 <= a < k ==> (#[trigger] spec_lookup(habits@, hsel[a])) is Some
                && spec_lookup(habits@, hsel[a])->0 < values@.len(),
            forall|a: int, b: int|
                #![trigger hsel[a], dsel[b]]
                0 <= a < k && 0 <= b < dsel.len() ==> spec_lookup_date(dates@, dsel[b])
                    is Some && spec_lookup_date(dates@, dsel[b])->0 < values@[spec_lookup(
                    habits@, hsel[a])->0 as int]@.len(),
        decreases hsel.len() - k,
    {
        let name = &hnames[k];
        proof {
            assert(hsel[k as int] == name@);
        }
        let row: usize = match table_get(habits, name) {
            Some(r) => r,
            None => {
                proof {
                    assert(!(spec_lookup(habits@, hsel[k as int]) is Some));
                }
                return false;
            },
        };
        if row >= values.len() {
            proof {
                assert(spec_lookup(habits@, hsel[k as int])->0 >= values@.len());
            }
            return false;
        }
        let mut j: usize = 0;
        while j < dkeys.len()
            invariant
                j <= dsel.len(),
                k < hsel.len(),
                hsel == sel_true_names(selected_habits@),
                dsel == sel_true_days(selected_dates@),
                hnames.deep_view() == hsel,
                dkeys@ == dsel,
                hnames@.len() == hsel.len(),
                forall|a: int| 0 <= a < k ==> (#[trigger] spec_lookup(habits@, hsel[a])) is Some
                    && spec_lookup(habits@, hsel[a])->0 < values@.len(),
                forall|a: int, b: int|
                    #![trigger hsel[a], dsel[b]]
                    0 <= a < k && 0 <= b < dsel.len() ==> spec_lookup_date(dates@, dsel[b])
                        is Some && spec_lookup_date(dates@, dsel[b])->0 < values@[spec_lookup(
                        habits@, hsel[a])->0 as int]@.len(),
                hsel[k as int] == hnames.deep_view()[k as int],
                spec_lookup(habits@, hsel[k as int]) == Some(row),
                row < values@.len(),
                forall|b: int| 0 <= b < j ==> (#[trigger] spec_lookup_date(dates@, dsel[b]))
                    is Some && spec_lookup_date(dates@, dsel[b])->0
                    < values@[row as int]@.len(),
            decreases dsel.len() - j,
        {
            let day: usize = dkeys[j];
            proof {
                assert(dsel[j as int] == day);
            }
            let col: usize = match dates_get(dates, day) {
                Some(c) => c,
                None => {
                    proof {
                        assert(!(spec_lookup_date(dates@, dsel[j as int]) is Some));
                    }
                    return false;
                },
            };
            if col >= values[row].len() {
                proof {
                    assert(spec_lookup_date(dates@, dsel[j as int])->0
                        >= values@[row as int]@.len());
                }
                return false;
            }
            j = j + 1;
        }
        k = k + 1;
    }
    true
}

proof fn lemma_write_index_bound(a: int, b: int, k: int, nd: int)
    requires
        0 <= a < k,
        0 <= b < nd,
    ensures
        0 <= a * nd + b < k * nd,
{
    assert(a * nd + b < k * nd) by (nonlinear_arith)
        requires 0 <= a < k, 0 <= b < nd;
}

/// Applies the chosen completion value to every selected (habit, date) pair:
/// one single-cell write per pair, in habit-major order, and the same value
/// mirrored into the in-memory grid at the pair's (row, column). A selection
/// with no flagged entries yields an empty batch and leaves the grid alone.
pub fn update_activities(
    selected_dates: &Vec<(usize, bool)>,
    selected_habits: &Vec<(String, bool)>,
    habits: &Vec<(String, usize)>,
    dates: &Vec<(usize, usize)>,
    values: &mut Vec<Vec<String>>,
    sheet_name: &String,
    update_value: bool,
) -> (writes: Vec<CellWrite>)
    requires
        update_inputs_ok(old(values)@, habits@, dates@, sel_true_names(selected_habits@),
            sel_true_days(selected_dates@)),
    ensures
        writes_match(writes@, sheet_name@, habits@, dates@, sel_true_names(selected_habits@),
            sel_true_days(selected_dates@), update_value),
        grid_updated(old(values)@, final(values)@, habits@, dates@, sel_true_names(
            selected_habits@), sel_true_days(selected_dates@), update_value),
{
    let ghost g0 = values@;
    let ghost hsel = sel_true_names(selected_habits@);
    let ghost dsel = sel_true_days(selected_dates@);
    let ghost nd = dsel.len() as int;

    let hnames = true_names(selected_habits);
    let dkeys = true_days(selected_dates);
    let value_str = if update_value {
        String::from_str("TRUE")
    } else {
        String::from_str("FALSE")
    };
    let mut writes: Vec<CellWrite> = Vec::new();
    let mut k: usize = 0;
    proof {
        assert(hsel.take(0) =~= Seq::<Seq<char>>::empty());
    }
    while k < hnames.len()
        invariant
            k <= hsel.len(),
            hnames.deep_view() == hsel,
            dkeys@ == dsel,
            hnames@.len() == hsel.len(),
            dkeys@.len() == dsel.len(),
            nd == dsel.len(),
            value_str@ == sel_text(update_value),
            update_inputs_ok(g0, habits@, dates@, hsel, dsel),
            values@.len() == g0.len(),
            forall|r: int| 0 <= r < g0.len() ==> (#[trigger] values@[r])@.len() == g0[r]@.len(),
            writes@.len() == k * nd,
            forall|a: int, b: int|
                #![trigger hsel[a], dsel[b]]
                0 <= a < k && 0 <= b < nd ==> write_ok(writes@[a * nd + b], sheet_name@,
                    habits@, dates@, hsel[a], dsel[b], update_value),
            forall|r: int, c: int|
                #![trigger values@[r]@[c]]
                0 <= r < g0.len() && 0 <= c < g0[r]@.len() ==> (if is_target(habits@, dates@,
                    hsel.take(k as int), dsel, r, c) {
                    values@[r]@[c]@ == sel_text(update_value)
                } else {
                    values@[r]@[c] == g0[r]@[c]
                }),
        decreases hsel.len() - k,
    {
        let name = &hnames[k];
        proof {
            assert(hsel[k as int] == name@);
        }
        let row: usize = match table_get(habits, name) {
            Some(r) => r,
            None => {
                proof {
                    assert(false);
                }
                0
            },
        };
        proof {
            assert(spec_lookup(habits@, hsel[k as int]) == Some(row));
            assert(row < g0.len());
            assert(dsel.take(0) =~= Seq::<usize>::empty());
        }
        let mut j: usize = 0;
        while j < dkeys.len()
            invariant
                j <= dsel.len(),
                k < hsel.len(),
                hnames.deep_view() == hsel,
                dkeys@ == dsel,
                hnames@.len() == hsel.len(),
                dkeys@.len() == dsel.len(),
                nd == dsel.len(),
                value_str@ == sel_text(update_value),
                update_inputs_ok(g0, habits@, dates@, hsel, dsel),
                values@.len() == g0.len(),
                forall|r: int| 0 <= r < g0.len() ==> (#[trigger] values@[r])@.len()
                    == g0[r]@.len(),
                spec_lookup(habits@, hsel[k as int]) == Some(row),
                row < g0.len(),
                writes@.len() == k * nd + j,
                forall|a: int, b: int|
                    #![trigger hsel[a], dsel[b]]
                    0 <= a < k && 0 <= b < nd ==> write_ok(writes@[a * nd + b], sheet_name@,
                        habits@, dates@, hsel[a], dsel[b], update_value),
                forall|b: int|
                    0 <= b < j ==> write_ok(writes@[k as int * nd + b], sheet_name@, habits@,
                        dates@, hsel[k as int], #[trigger] dsel[b], update_value),
                forall|r: int, c: int|
                    #![trigger values@[r]@[c]]
                    0 <= r < g0.len() && 0 <= c < g0[r]@.len() ==> (if is_target(habits@,
                        dates@, hsel.take(k as int), dsel, r, c) || is_target(habits@, dates@,
                        seq![hsel[k as int]], dsel.take(j as int), r, c) {
                        values@[r]@[c]@ == sel_text(update_value)
                    } else {
                        values@[r]@[c] == g0[r]@[c]
                    }),
            decreases dsel.len() - j,
        {
            let day: usize = dkeys[j];
            proof {
                assert(dsel[j as int] == day);
            }
            let col: usize = match dates_get(dates, day) {
                Some(c) => c,
                None => {
                    proof {
                        assert(false);
                    }
                    0
                },
            };
            proof {
                assert(spec_lookup_date(dates@, dsel[j as int]) == Some(col));
                assert(col < g0[row as int]@.len());
                assert(col < values@[row as int]@.len());
                assert(row + 1 <= usize::MAX) by {
                    assert(values.len() == values@.len());
                }
                assert(col + 1 <= usize::MAX) by {
                    assert(values@[row as int].len() == values@[row as int]@.len());
                }
            }
            let addr = cell_address(row + 1, col + 1);
            let ghost writes_before = writes@;
            set_data(&mut writes, value_str.clone(), addr, sheet_name);
            let ghost values_before = values@;
            values[row][col] = value_str.clone();
            proof {
                // The new batch entry is the write for (habit k, date j).
                assert(writes@.drop_last() =~= writes_before);
                assert(writes@.len() == k * nd + j + 1);
                assert(write_ok(writes@.last(), sheet_name@, habits@, dates@, hsel[k as int],
                    dsel[j as int], update_value));
                assert forall|a: int, b: int|
                    #![trigger hsel[a], dsel[b]]
                    0 <= a < k && 0 <= b < nd implies write_ok(writes@[a * nd + b],
                    sheet_name@, habits@, dates@, hsel[a], dsel[b], update_value) by {
                    lemma_write_index_bound(a, b, k as int, nd);
                    assert(writes@[a * nd + b] == writes_before[a * nd + b]);
                }
                assert forall|b: int| 0 <= b < j + 1 implies write_ok(
                    writes@[k as int * nd + b], sheet_name@, habits@, dates@, hsel[k as int],
                    #[trigger] dsel[b], update_value) by {
                    if b < j {
                        assert(writes@[k as int * nd + b] == writes_before[k as int * nd + b]);
                    } else {
                        assert(writes@[k as int * nd + b] == writes@.last());
                    }
                }
                // The grid gained exactly the (row, col) cell.
                assert(values@[row as int]@ =~= values_before[row as int]@.update(
                    col as int, values@[row as int]@[col as int]));
                assert((values@[row as int]@[col as int])@ == sel_text(update_value));
                let dpre = dsel.take(j as int);
                let dpost = dsel.take(j + 1);
                assert(dpost =~= dpre.push(day));
                assert(is_target(habits@, dates@, seq![hsel[k as int]], seq![day], row as int,
                    col as int)) by {
                    assert(seq![hsel[k as int]][0] == hsel[k as int]);
                    assert(seq![day][0] == day);
                }
                assert forall|r: int, c: int|
                    #![trigger values@[r]@[c]]
                    0 <= r < g0.len() && 0 <= c < g0[r]@.len() implies (if is_target(habits@,
                        dates@, hsel.take(k as int), dsel, r, c) || is_target(habits@, dates@,
                        seq![hsel[k as int]], dpost, r, c) {
                        values@[r]@[c]@ == sel_text(update_value)
                    } else {
                        values@[r]@[c] == g0[r]@[c]
                    }) by {
                    lemma_target_push_day(habits@, dates@, seq![hsel[k as int]], dpre, day, r, c);
                    if r == row as int && c == col as int {
                    } else {
                        assert(values@[r]@[c] == values_before[r]@[c]);
                        if is_target(habits@, dates@, seq![hsel[k as int]], seq![day], r, c) {
                            assert(r == row as int && c == col as int);
                        }
                    }
                }
            }
            j = j + 1;
        }
        proof {
            assert(dsel.take(nd) =~= dsel);
            assert(hsel.take(k + 1) =~= hsel.take(k as int).push(hsel[k as int]));
            assert((k + 1) * nd == k * nd + nd) by (nonlinear_arith);
            assert forall|a: int, b: int|
                #![trigger hsel[a], dsel[b]]
                0 <= a < k + 1 && 0 <= b < nd implies write_ok(writes@[a * nd + b],
                sheet_name@, habits@, dates@, hsel[a], dsel[b], update_value) by {
                if a == k {
                    assert(write_ok(writes@[k as int * nd + b], sheet_name@, habits@, dates@,
                        hsel[k as int], dsel[b], update_value));
                }
            }
            assert forall|r: int, c: int|
                #![trigger values@[r]@[c]]
                0 <= r < g0.len() && 0 <= c < g0[r]@.len() implies (if is_target(habits@,
                    dates@, hsel.take(k + 1), dsel, r, c) {
                    values@[r]@[c]@ == sel_text(update_value)
                } else {
                    values@[r]@[c] == g0[r]@[c]
                }) by {
                lemma_target_push_name(habits@, dates@, hsel.take(k as int), hsel[k as int],
                    dsel, r, c);
            }
        }
        k = k + 1;
    }
    proof {
        assert(hsel.take(hsel.len() as int) =~= hsel);
        assert(k as int * nd == hsel.len() * nd) by (nonlinear_arith)
            requires k as int == hsel.len();
    }
    writes
}

} // verus!
