//! Parsing of a sheet snapshot: a grid of string cells in which column 0
//! holds month or habit labels and a header row holds day numbers. Scans stop
//! at the first empty or malformed cell, so ragged sheets truncate the result
//! instead of failing.

use vstd::prelude::*;

use crate::text::{is_uint_literal, parse_usize, uint_value};

verus! {

/// The grid as a mathematical value: a sequence of rows of cell contents.
pub open spec fn grid_view(values: &Vec<Vec<String>>) -> Seq<Seq<Seq<char>>> {
    values.deep_view()
}

/// A row that exists and has a nonempty label in column 0.
pub open spec fn row_has_label(g: Seq<Seq<Seq<char>>>, i: int) -> bool {
    0 <= i < g.len() && g[i].len() > 0 && g[i][0].len() > 0
}

/// The habit table read from consecutive labeled rows starting at `start`:
/// each entry is the label and its absolute row index. The scan stops at the
/// first missing row or empty label.
pub open spec fn spec_habits(g: Seq<Seq<Seq<char>>>, start: int) -> Seq<(Seq<char>, int)>
    decreases g.len() - start,
{
    if !row_has_label(g, start) {
        Seq::empty()
    } else {
        seq![(g[start][0], start)] + spec_habits(g, start + 1)
    }
}

/// A labeled table as a mathematical value: label text with its row index.
pub open spec fn table_view(t: Seq<(String, usize)>) -> Seq<(Seq<char>, int)> {
    t.map_values(|p: (String, usize)| (p.0@, p.1 as int))
}

/// First position of a label among table entries, or the table's length
/// when the label is absent.
pub open spec fn label_key_at(t: Seq<(Seq<char>, int)>, key: Seq<char>) -> int
    decreases t.len(),
{
    if t.len() == 0 {
        0
    } else if t[0].0 == key {
        0
    } else {
        1 + label_key_at(t.drop_first(), key)
    }
}

pub proof fn lemma_label_key_at_facts(t: Seq<(Seq<char>, int)>, key: Seq<char>)
    ensures
        0 <= label_key_at(t, key) <= t.len(),
        label_key_at(t, key) < t.len() ==> t[label_key_at(t, key)].0 == key,
        forall|j: int| 0 <= j < label_key_at(t, key) ==> (#[trigger] t[j]).0 != key,
    decreases t.len(),
{
    if t.len() > 0 && t[0].0 != key {
        let rest = t.drop_first();
        lemma_label_key_at_facts(rest, key);
        if label_key_at(t, key) < t.len() {
            assert(t[label_key_at(t, key)] == rest[label_key_at(rest, key)]);
        }
        assert forall|j: int| 0 <= j < label_key_at(t, key) implies (#[trigger] t[j]).0
            != key by {
            if j > 0 {
                assert(rest[j - 1] == t[j]);
            }
        }
    }
}

/// A table folded as repeated map insertion would leave it: one entry per
/// distinct label, sitting where the label first appeared, holding the row
/// of the label's last appearance.
pub open spec fn dedup_labels(t: Seq<(Seq<char>, int)>) -> Seq<(Seq<char>, int)>
    decreases t.len(),
{
    if t.len() == 0 {
        Seq::empty()
    } else {
        let d = dedup_labels(t.drop_last());
        let e = t.last();
        if label_key_at(d, e.0) < d.len() {
            d.update(label_key_at(d, e.0), e)
        } else {
            d.push(e)
        }
    }
}

/// With pairwise-distinct labels there is nothing to fold away.
pub proof fn lemma_dedup_labels_distinct(t: Seq<(Seq<char>, int)>)
    requires
        forall|p: int, q: int|
            #![trigger t[p], t[q]]
            0 <= p < q < t.len() ==> t[p].0 != t[q].0,
    ensures
        dedup_labels(t) == t,
    decreases t.len(),
{
    if t.len() > 0 {
        let front = t.drop_last();
        assert(forall|p: int, q: int|
            #![trigger front[p], front[q]]
            0 <= p < q < front.len() ==> front[p].0 != front[q].0);
        lemma_dedup_labels_distinct(front);
        let e = t.last();
        lemma_label_key_at_facts(front, e.0);
        if label_key_at(front, e.0) < front.len() {
            let p = label_key_at(front, e.0);
            assert(t[p].0 == t[t.len() - 1].0);
            assert(false);
        }
        assert(front.push(e) =~= t);
    }
}

/// First position of a day number among date entries, or the table's length
/// when the day is absent.
pub open spec fn day_key_at(t: Seq<(int, int)>, key: int) -> int
    decreases t.len(),
{
    if t.len() == 0 {
        0
    } else if t[0].0 == key {
        0
    } else {
        1 + day_key_at(t.drop_first(), key)
    }
}

pub proof fn lemma_day_key_at_facts(t: Seq<(int, int)>, key: int)
    ensures
        0 <= day_key_at(t, key) <= t.len(),
        day_key_at(t, key) < t.len() ==> t[day_key_at(t, key)].0 == key,
        forall|j: int| 0 <= j < day_key_at(t, key) ==> (#[trigger] t[j]).0 != key,
    decreases t.len(),
{
    if t.len() > 0 && t[0].0 != key {
        let rest = t.drop_first();
        lemma_day_key_at_facts(rest, key);
        if day_key_at(t, key) < t.len() {
            assert(t[day_key_at(t, key)] == rest[day_key_at(rest, key)]);
        }
        assert forall|j: int| 0 <= j < day_key_at(t, key) implies (#[trigger] t[j]).0
            != key by {
            if j > 0 {
                assert(rest[j - 1] == t[j]);
            }
        }
    }
}

/// A date table folded as repeated map insertion would leave it: one entry
/// per distinct day, sitting where the day first appeared, holding the
/// column of the day's last appearance.
pub open spec fn dedup_days(t: Seq<(int, int)>) -> Seq<(int, int)>
    decreases t.len(),
{
    if t.len() == 0 {
        Seq::empty()
    } else {
        let d = dedup_days(t.drop_last());
        let e = t.last();
        if day_key_at(d, e.0) < d.len() {
            d.update(day_key_at(d, e.0), e)
        } else {
            d.push(e)
        }
    }
}

/// With pairwise-distinct day numbers there is nothing to fold away.
pub proof fn lemma_dedup_days_distinct(t: Seq<(int, int)>)
    requires
        forall|p: int, q: int|
            #![trigger t[p], t[q]]
            0 <= p < q < t.len() ==> t[p].0 != t[q].0,
    ensures
        dedup_days(t) == t,
    decreases t.len(),
{
    if t.len() > 0 {
        let front = t.drop_last();
        assert(forall|p: int, q: int|
            #![trigger front[p], front[q]]
            0 <= p < q < front.len() ==> front[p].0 != front[q].0);
        lemma_dedup_days_distinct(front);
        let e = t.last();
        lemma_day_key_at_facts(front, e.0);
        if day_key_at(front, e.0) < front.len() {
            let p = day_key_at(front, e.0);
            assert(t[p].0 == t[t.len() - 1].0);
            assert(false);
        }
        assert(front.push(e) =~= t);
    }
}

/// Finds the entry already recorded under a label, so a repeated label can
/// overwrite it as a map insertion would.
pub(crate) fn position_of(t: &Vec<(String, usize)>, key: &String) -> (r: Option<usize>)
    ensures
        r is Some <==> label_key_at(table_view(t@), key@) < table_view(t@).len(),
        r is Some ==> r->0 == label_key_at(table_view(t@), key@),
{
    let ghost tv = table_view(t@);
    proof {
        lemma_label_key_at_facts(tv, key@);
    }
    let mut i: usize = 0;
    while i < t.len()
        invariant
            i <= t@.len(),
            tv == table_view(t@),
            tv.len() == t@.len(),
            forall|j: int| 0 <= j < i ==> (#[trigger] tv[j]).0 != key@,
            0 <= label_key_at(tv, key@) <= tv.len(),
            label_key_at(tv, key@) < tv.len() ==> tv[label_key_at(tv, key@)].0 == key@,
            forall|j: int| 0 <= j < label_key_at(tv, key@) ==> (#[trigger] tv[j]).0 != key@,
        decreases t@.len() - i,
    {
        if t[i].0 == *key {
            proof {
                assert(tv[i as int].0 == key@);
                assert(label_key_at(tv, key@) == i);
            }
            return Some(i);
        }
        proof {
            assert(tv[i as int].0 == t@[i as int].0@);
        }
        i = i + 1;
    }
    proof {
        assert(label_key_at(tv, key@) == tv.len());
    }
    None
}

/// Finds the entry already recorded under a day number.
fn day_position_of(t: &Vec<(usize, usize)>, key: usize) -> (r: Option<usize>)
    ensures
        r is Some <==> day_key_at(dates_view(t@), key as int) < dates_view(t@).len(),
        r is Some ==> r->0 == day_key_at(dates_view(t@), key as int),
{
    let ghost tv = dates_view(t@);
    proof {
        lemma_day_key_at_facts(tv, key as int);
    }
    let mut i: usize = 0;
    while i < t.len()
        invariant
            i <= t@.len(),
            tv == dates_view(t@),
            tv.len() == t@.len(),
            forall|j: int| 0 <= j < i ==> (#[trigger] tv[j]).0 != key,
            0 <= day_key_at(tv, key as int) <= tv.len(),
            day_key_at(tv, key as int) < tv.len() ==> tv[day_key_at(tv, key as int)].0 == key,
            forall|j: int| 0 <= j < day_key_at(tv, key as int) ==> (#[trigger] tv[j]).0 != key,
        decreases t@.len() - i,
    {
        if t[i].0 == key {
            proof {
                assert(tv[i as int].0 == key);
                assert(day_key_at(tv, key as int) == i);
            }
            return Some(i);
        }
        proof {
            assert(tv[i as int].0 == t@[i as int].0);
        }
        i = i + 1;
    }
    proof {
        assert(day_key_at(tv, key as int) == tv.len());
    }
    None
}

/// What each habit-table entry is, and where the scan stopped.
pub proof fn lemma_spec_habits_facts(g: Seq<Seq<Seq<char>>>, start: int)
    ensures
        forall|j: int| 0 <= j < spec_habits(g, start).len()
            ==> (#[trigger] spec_habits(g, start)[j]) == (g[start + j][0], start + j)
                && row_has_label(g, start + j),
        !row_has_label(g, start + spec_habits(g, start).len()),
        start + spec_habits(g, start).len() <= g.len() || spec_habits(g, start).len() == 0,
    decreases g.len() - start,
{
    if row_has_label(g, start) {
        lemma_spec_habits_facts(g, start + 1);
        let h = spec_habits(g, start);
        let rest = spec_habits(g, start + 1);
        assert forall|j: int| 0 <= j < h.len() implies (#[trigger] h[j]) == (g[start + j][0],
            start + j) && row_has_label(g, start + j) by {
            if j > 0 {
                assert(h[j] == rest[j - 1]);
            }
        }
    }
}

/// A block of exactly `k` consecutive labeled rows, ended by an unlabeled or
/// missing row, scans to exactly `k` labeled entries: one per labeled row,
/// in row order, and none at or past the empty row.
pub proof fn lemma_habit_block_length(g: Seq<Seq<Seq<char>>>, r: int, k: int)
    requires
        k >= 0,
        forall|j: int| r <= j < r + k ==> row_has_label(g, j),
        !row_has_label(g, r + k),
    ensures
        spec_habits(g, r).len() == k,
        forall|j: int| 0 <= j < k ==> (#[trigger] spec_habits(g, r)[j]) == (g[r + j][0], r + j),
    decreases k,
{
    if k == 0 {
    } else {
        assert(row_has_label(g, r));
        lemma_habit_block_length(g, r + 1, k - 1);
    }
    lemma_spec_habits_facts(g, r);
}

/// The habit table a scan builds: the labeled entries folded so a repeated
/// label keeps one entry, with the last matching row winning.
pub open spec fn spec_habit_table(g: Seq<Seq<Seq<char>>>, start: int) -> Seq<(Seq<char>, int)> {
    dedup_labels(spec_habits(g, start))
}

/// A block of exactly `k` consecutive labeled rows with pairwise-distinct
/// labels, ended by an unlabeled or missing row, parses to exactly `k`
/// habit entries, one per labeled row in row order; a repeated label would
/// instead fold onto its earlier entry.
pub proof fn lemma_habit_block_table(g: Seq<Seq<Seq<char>>>, r: int, k: int)
    requires
        k >= 0,
        forall|j: int| r <= j < r + k ==> row_has_label(g, j),
        !row_has_label(g, r + k),
        forall|p: int, q: int|
            #![trigger g[p], g[q]]
            r <= p < q < r + k ==> g[p][0] != g[q][0],
    ensures
        spec_habit_table(g, r).len() == k,
        forall|j: int| 0 <= j < k ==> (#[trigger] spec_habit_table(g, r)[j]) == (g[r + j][0],
            r + j),
    decreases k,
{
    lemma_habit_block_length(g, r, k);
    let raw = spec_habits(g, r);
    assert forall|p: int, q: int|
        #![trigger raw[p], raw[q]]
        0 <= p < q < raw.len() implies raw[p].0 != raw[q].0 by {
        assert(raw[p] == (g[r + p][0], r + p));
        assert(raw[q] == (g[r + q][0], r + q));
        assert(g[r + p] == g[r + p] && g[r + q] == g[r + q]);
    }
    lemma_dedup_labels_distinct(raw);
}

/// Reads the habit table for one month block: consecutive nonempty column-0
/// labels starting at `index`, each mapped to its absolute row index. A
/// label that repeats keeps a single entry, and the last matching row wins,
/// as it would in a map filled by repeated insertion.
pub fn get_habits(values: &Vec<Vec<String>>, index: usize) -> (r: Vec<(String, usize)>)
    ensures
        table_view(r@) == spec_habit_table(grid_view(values), index as int),
{
    let ghost g = grid_view(values);
    let ghost mut raw: Seq<(Seq<char>, int)> = Seq::empty();
    let mut r: Vec<(String, usize)> = Vec::new();
    let mut i: usize = index;
    proof {
        assert(table_view(r@) =~= dedup_labels(raw));
        assert(spec_habits(g, index as int) =~= raw + spec_habits(g, index as int));
    }
    loop
        invariant
            index <= i,
            g == grid_view(values),
            spec_habits(g, index as int) =~= raw + spec_habits(g, i as int),
            table_view(r@) =~= dedup_labels(raw),
        ensures
            spec_habits(g, index as int) =~= raw + spec_habits(g, i as int),
            table_view(r@) =~= dedup_labels(raw),
            !row_has_label(g, i as int),
        decreases g.len() - i,
    {
        if i >= values.len() {
            break;
        }
        let row = &values[i];
        if row.len() == 0 {
            proof {
                assert(g[i as int].len() == 0);
            }
            break;
        }
        let cell = &row[0];
        if cell.as_str().is_empty() {
            proof {
                assert(g[i as int][0].len() == 0);
            }
            break;
        }
        proof {
            assert(row_has_label(g, i as int));
        }
        let ghost e = (cell@, i as int);
        let ghost d_before = table_view(r@);
        let pos = position_of(&r, cell);
        proof {
            lemma_label_key_at_facts(d_before, cell@);
        }
        match pos {
            Some(p) => {
                let ghost r_before = r@;
                r[p].1 = i;
                proof {
                    assert(r@ =~= r_before.update(p as int, (r_before[p as int].0, i)));
                    assert(d_before[p as int].0 == cell@);
                    assert(d_before[p as int].0 == r_before[p as int].0@);
                    assert(table_view(r@) =~= d_before.update(p as int, e));
                }
            },
            None => {
                r.push((cell.clone(), i));
                proof {
                    assert(table_view(r@) =~= d_before.push(e));
                }
            },
        }
        proof {
            assert(g[i as int][0] == cell@);
            assert((raw.push(e)).drop_last() =~= raw);
            assert((raw.push(e)).last() == e);
            assert(table_view(r@) =~= dedup_labels(raw.push(e)));
            assert(spec_habits(g, i as int) =~= seq![e] + spec_habits(g, i + 1));
            assert(raw.push(e) + spec_habits(g, i + 1) =~= raw + spec_habits(g, i as int));
            raw = raw.push(e);
        }
        i = i + 1;
    }
    proof {
        assert(spec_habits(g, i as int) =~= Seq::<(Seq<char>, int)>::empty());
        assert(raw + Seq::<(Seq<char>, int)>::empty() =~= raw);
        assert(raw =~= spec_habits(g, index as int));
        assert(dedup_labels(raw) == spec_habit_table(g, index as int));
    }
    r
}

/// The date table read from one header row: day numbers from column 1
/// rightward, each mapped to its column index. The scan stops at the first
/// cell that is missing, empty, or not a day number.
/// A header cell that exists and holds a day number fitting in `usize`.
pub open spec fn day_cell(row: Seq<Seq<char>>, col: int) -> bool {
    0 <= col < row.len() && is_uint_literal(row[col]) && uint_value(row[col]) <= usize::MAX
}

pub open spec fn spec_dates(row: Seq<Seq<char>>, col: int) -> Seq<(int, int)>
    decreases row.len() - col,
{
    if !day_cell(row, col) {
        Seq::empty()
    } else {
        seq![(uint_value(row[col]), col)] + spec_dates(row, col + 1)
    }
}

/// A date table as a mathematical value: day number with its column index.
pub open spec fn dates_view(t: Seq<(usize, usize)>) -> Seq<(int, int)> {
    t.map_values(|p: (usize, usize)| (p.0 as int, p.1 as int))
}

/// What each date-table entry is, and where the scan stopped.
pub proof fn lemma_spec_dates_facts(row: Seq<Seq<char>>, col: int)
    ensures
        forall|j: int| 0 <= j < spec_dates(row, col).len()
            ==> (#[trigger] spec_dates(row, col)[j]) == (uint_value(row[col + j]), col + j)
                && day_cell(row, col + j),
        !day_cell(row, col + spec_dates(row, col).len()),
    decreases row.len() - col,
{
    if day_cell(row, col) {
        lemma_spec_dates_facts(row, col + 1);
        let d = spec_dates(row, col);
        let rest = spec_dates(row, col + 1);
        assert forall|j: int| 0 <= j < d.len() implies (#[trigger] d[j]) == (uint_value(
            row[col + j]), col + j) && day_cell(row, col + j) by {
            if j > 0 {
                assert(d[j] == rest[j - 1]);
            }
        }
    }
}

/// A header whose cells at columns `c..c+k` are day numbers, followed by a
/// missing or malformed cell, parses to exactly `k` date entries, one per
/// day cell in column order: the scan never reaches anything past the first
/// bad cell.
pub proof fn lemma_date_header_length(row: Seq<Seq<char>>, c: int, k: int)
    requires
        k >= 0,
        c >= 0,
        forall|j: int| c <= j && j < c + k ==> #[trigger] day_cell(row, j),
        !day_cell(row, c + k),
    ensures
        spec_dates(row, c).len() == k,
        forall|j: int| 0 <= j < k ==> (#[trigger] spec_dates(row, c)[j]) == (uint_value(
            row[c + j]), c + j),
    decreases k,
{
    if k > 0 {
        assert(day_cell(row, c));
        lemma_date_header_length(row, c + 1, k - 1);
    }
    lemma_spec_dates_facts(row, c);
}

/// The date table a scan builds: the day entries folded so a repeated day
/// number keeps one entry, with the last matching column winning.
pub open spec fn spec_date_table(row: Seq<Seq<char>>, col: int) -> Seq<(int, int)> {
    dedup_days(spec_dates(row, col))
}

/// A header whose cells at columns `c..c+k` are pairwise-distinct day
/// numbers, followed by a missing or malformed cell, parses to exactly `k`
/// date entries, one per day cell in column order; a repeated day number
/// would instead fold onto its earlier entry.
pub proof fn lemma_date_header_table(row: Seq<Seq<char>>, c: int, k: int)
    requires
        k >= 0,
        c >= 0,
        forall|j: int| c <= j && j < c + k ==> #[trigger] day_cell(row, j),
        !day_cell(row, c + k),
        forall|p: int, q: int|
            #![trigger row[p], row[q]]
            c <= p < q < c + k ==> uint_value(row[p]) != uint_value(row[q]),
    ensures
        spec_date_table(row, c).len() == k,
        forall|j: int| 0 <= j < k ==> (#[trigger] spec_date_table(row, c)[j]) == (uint_value(
            row[c + j]), c + j),
{
    lemma_date_header_length(row, c, k);
    let raw = spec_dates(row, c);
    assert forall|p: int, q: int|
        #![trigger raw[p], raw[q]]
        0 <= p < q < raw.len() implies raw[p].0 != raw[q].0 by {
        assert(raw[p] == (uint_value(row[c + p]), c + p));
        assert(raw[q] == (uint_value(row[c + q]), c + q));
        assert(row[c + p] == row[c + p] && row[c + q] == row[c + q]);
    }
    lemma_dedup_days_distinct(raw);
}

/// Reads the date table from the header row directly above a habit block
/// whose first habit row is `index`. A day number that repeats keeps a
/// single entry, and the last matching column wins, as it would in a map
/// filled by repeated insertion.
pub fn get_dates(values: &Vec<Vec<String>>, index: usize) -> (r: Vec<(usize, usize)>)
    requires
        index >= 1,
        index - 1 < values@.len(),
    ensures
        dates_view(r@) == spec_date_table(grid_view(values)[index - 1], 1),
{
    let ghost g = grid_view(values);
    let month_index: usize = index - 1;
    let ghost hrow = g[month_index as int];
    let row = &values[month_index];
    let ghost mut raw: Seq<(int, int)> = Seq::empty();
    let mut r: Vec<(usize, usize)> = Vec::new();
    let mut i: usize = 1;
    proof {
        assert(dates_view(r@) =~= dedup_days(raw));
        assert(spec_dates(hrow, 1) =~= raw + spec_dates(hrow, 1));
    }
    loop
        invariant
            1 <= i,
            hrow == grid_view(values)[month_index as int],
            month_index < values@.len(),
            row.deep_view() == hrow,
            spec_dates(hrow, 1) =~= raw + spec_dates(hrow, i as int),
            dates_view(r@) =~= dedup_days(raw),
        ensures
            spec_dates(hrow, 1) =~= raw + spec_dates(hrow, i as int),
            dates_view(r@) =~= dedup_days(raw),
            spec_dates(hrow, i as int) =~= Seq::<(int, int)>::empty(),
        decreases row@.len() - i,
    {
        if i >= row.len() {
            break;
        }
        let cell = &row[i];
        proof {
            assert(hrow[i as int] == cell@);
        }
        let parsed = parse_usize(cell.as_str());
        match parsed {
            Some(day) => {
                let ghost e = (day as int, i as int);
                let ghost d_before = dates_view(r@);
                let pos = day_position_of(&r, day);
                proof {
                    lemma_day_key_at_facts(d_before, day as int);
                }
                match pos {
                    Some(p) => {
                        let ghost r_before = r@;
                        r[p].1 = i;
                        proof {
                            assert(r@ =~= r_before.update(p as int, (r_before[p as int].0, i)));
                            assert(d_before[p as int].0 == day);
                            assert(d_before[p as int].0 == r_before[p as int].0);
                            assert(dates_view(r@) =~= d_before.update(p as int, e));
                        }
                    },
                    None => {
                        r.push((day, i));
                        proof {
                            assert(dates_view(r@) =~= d_before.push(e));
                        }
                    },
                }
                proof {
                    assert((raw.push(e)).drop_last() =~= raw);
                    assert((raw.push(e)).last() == e);
                    assert(dates_view(r@) =~= dedup_days(raw.push(e)));
                    assert(spec_dates(hrow, i as int) =~= seq![(uint_value(hrow[i as int]),
                        i as int)] + spec_dates(hrow, i + 1));
                    assert(raw.push(e) + spec_dates(hrow, i + 1) =~= raw + spec_dates(
                        hrow, i as int));
                    raw = raw.push(e);
                }
                i = i + 1;
            },
            None => {
                break;
            },
        }
    }
    proof {
        assert(raw + Seq::<(int, int)>::empty() =~= raw);
        assert(raw =~= spec_dates(hrow, 1));
        assert(dedup_days(raw) == spec_date_table(hrow, 1));
    }
    r
}

/// The wire form of a completed cell: the literal string "TRUE".
pub open spec fn true_text() -> Seq<char> {
    "TRUE"@
}

/// The wire form of a skipped cell: the literal string "FALSE".
pub open spec fn false_text() -> Seq<char> {
    "FALSE"@
}

/// A cell that exists and holds the completion mark "TRUE".
pub open spec fn cell_true(g: Seq<Seq<Seq<char>>>, r: int, c: int) -> bool {
    0 <= r < g.len() && 0 <= c < g[r].len() && g[r][c] == true_text()
}

/// Whether a cell holds the completion mark "TRUE".
pub fn is_true_text(s: &String) -> (r: bool)
    ensures
        r == (s@ == true_text()),
{
    let t = String::from_str("TRUE");
    *s == t
}

/// First row index recorded under a label, as a map lookup would find it.
pub open spec fn spec_lookup(t: Seq<(String, usize)>, key: Seq<char>) -> Option<usize>
    decreases t.len(),
{
    if t.len() == 0 {
        None
    } else if t[0].0@ == key {
        Some(t[0].1)
    } else {
        spec_lookup(t.drop_first(), key)
    }
}

/// Looks a label up in a habit or month table.
pub fn table_get(t: &Vec<(String, usize)>, key: &String) -> (r: Option<usize>)
    ensures
        r == spec_lookup(t@, key@),
{
    let mut i: usize = 0;
    proof {
        assert(t@.skip(0) =~= t@);
    }
    while i < t.len()
        invariant
            i <= t@.len(),
            spec_lookup(t@, key@) == spec_lookup(t@.skip(i as int), key@),
        decreases t@.len() - i,
    {
        if t[i].0 == *key {
            proof {
                assert(t@.skip(i as int)[0] == t@[i as int]);
            }
            return Some(t[i].1);
        }
        proof {
            assert(t@.skip(i as int).drop_first() =~= t@.skip(i + 1));
        }
        i = i + 1;
    }
    None
}

/// First column index recorded under a day number.
pub open spec fn spec_lookup_date(t: Seq<(usize, usize)>, key: usize) -> Option<usize>
    decreases t.len(),
{
    if t.len() == 0 {
        None
    } else if t[0].0 == key {
        Some(t[0].1)
    } else {
        spec_lookup_date(t.drop_first(), key)
    }
}

/// Looks a day number up in a date table.
pub fn dates_get(t: &Vec<(usize, usize)>, key: usize) -> (r: Option<usize>)
    ensures
        r == spec_lookup_date(t@, key),
{
    let mut i: usize = 0;
    proof {
        assert(t@.skip(0) =~= t@);
    }
    while i < t.len()
        invariant
            i <= t@.len(),
            spec_lookup_date(t@, key) == spec_lookup_date(t@.skip(i as int), key),
        decreases t@.len() - i,
    {
        if t[i].0 == key {
            proof {
                assert(t@.skip(i as int)[0] == t@[i as int]);
            }
            return Some(t[i].1);
        }
        proof {
            assert(t@.skip(i as int).drop_first() =~= t@.skip(i + 1));
        }
        i = i + 1;
    }
    None
}

/// The numeric id recorded under a sheet title, as the sheet list reports it.
pub open spec fn spec_sheet_lookup(t: Seq<(String, i32)>, key: Seq<char>) -> Option<i32>
    decreases t.len(),
{
    if t.len() == 0 {
        None
    } else if t[0].0@ == key {
        Some(t[0].1)
    } else {
        spec_sheet_lookup(t.drop_first(), key)
    }
}

/// Finds the numeric id of the sheet with the given title, if any, in the
/// (title, id) pairs read from the spreadsheet's sheet list.
pub fn find_sheet_id(sheets: &Vec<(String, i32)>, sheet_name: &String) -> (r: Option<i32>)
    ensures
        r == spec_sheet_lookup(sheets@, sheet_name@),
{
    let mut i: usize = 0;
    proof {
        assert(sheets@.skip(0) =~= sheets@);
    }
    while i < sheets.len()
        invariant
            i <= sheets@.len(),
            spec_sheet_lookup(sheets@, sheet_name@) == spec_sheet_lookup(
                sheets@.skip(i as int), sheet_name@),
        decreases sheets@.len() - i,
    {
        if sheets[i].0 == *sheet_name {
            proof {
                assert(sheets@.skip(i as int)[0] == sheets@[i as int]);
            }
            return Some(sheets[i].1);
        }
        proof {
            assert(sheets@.skip(i as int).drop_first() =~= sheets@.skip(i + 1));
        }
        i = i + 1;
    }
    None
}

/// The habits of the configuration sheet that a new month grid should carry:
/// rows with a nonempty habit label whose active flag is "TRUE" and whose
/// complete flag is not, scanned until the first unlabeled row.
pub open spec fn spec_active_habits(g: Seq<Seq<Seq<char>>>, start: int) -> Seq<(Seq<char>, int)>
    decreases g.len() - start,
{
    if !row_has_label(g, start) {
        Seq::empty()
    } else if g[start].len() >= 3 && g[start][2] == true_text() && g[start][1] != true_text() {
        seq![(g[start][0], start)] + spec_active_habits(g, start + 1)
    } else {
        spec_active_habits(g, start + 1)
    }
}

/// A run of labeled rows is never longer than the parsed habit table.
proof fn lemma_habit_run_lower_bound(g: Seq<Seq<Seq<char>>>, start: int, m: int)
    requires
        m >= 0,
        forall|j: int| start <= j && j < start + m ==> #[trigger] row_has_label(g, j),
    ensures
        spec_habits(g, start).len() >= m,
    decreases m,
{
    if m > 0 {
        assert(row_has_label(g, start));
        lemma_habit_run_lower_bound(g, start + 1, m - 1);
    }
}

/// The active-habit table a scan builds: the qualifying entries folded so
/// a repeated label keeps one entry, with the last matching row winning.
pub open spec fn spec_active_table(g: Seq<Seq<Seq<char>>>, start: int) -> Seq<(Seq<char>, int)> {
    dedup_labels(spec_active_habits(g, start))
}

/// Reads the active, incomplete habits from the configuration sheet's rows,
/// starting at `index`. Every labeled row in the scanned block must carry
/// the complete and active flag columns. A habit name that repeats among
/// the qualifying rows keeps a single entry, and the last matching row
/// wins, as it would in a map filled by repeated insertion.
pub fn get_active_habits(values: &Vec<Vec<String>>, index: usize) -> (r: Vec<(String, usize)>)
    requires
        forall|j: int| index <= j
            && j < index + spec_habits(grid_view(values), index as int).len()
            ==> (#[trigger] grid_view(values)[j]).len() >= 3,
    ensures
        table_view(r@) == spec_active_table(grid_view(values), index as int),
{
    let ghost g = grid_view(values);
    let ghost mut raw: Seq<(Seq<char>, int)> = Seq::empty();
    let mut r: Vec<(String, usize)> = Vec::new();
    let mut i: usize = index;
    proof {
        assert(table_view(r@) =~= dedup_labels(raw));
        assert(spec_active_habits(g, index as int) =~= raw + spec_active_habits(
            g, index as int));
    }
    loop
        invariant
            index <= i,
            g == grid_view(values),
            forall|j: int| index <= j && j < i ==> #[trigger] row_has_label(g, j),
            forall|j: int| index <= j && j < index + spec_habits(g, index as int).len()
                ==> (#[trigger] g[j]).len() >= 3,
            spec_active_habits(g, index as int) =~= raw + spec_active_habits(g, i as int),
            table_view(r@) =~= dedup_labels(raw),
        ensures
            spec_active_habits(g, index as int) =~= raw + spec_active_habits(g, i as int),
            table_view(r@) =~= dedup_labels(raw),
            !row_has_label(g, i as int),
        decreases g.len() - i,
    {
        if i >= values.len() {
            break;
        }
        let row = &values[i];
        if row.len() == 0 {
            proof {
                assert(g[i as int].len() == 0);
            }
            break;
        }
        let cell = &row[0];
        if cell.as_str().is_empty() {
            proof {
                assert(g[i as int][0].len() == 0);
            }
            break;
        }
        proof {
            assert(row_has_label(g, i as int));
            lemma_habit_run_lower_bound(g, index as int, i - index + 1);
            assert(g[i as int].len() >= 3);
        }
        let is_complete = is_true_text(&row[1]);
        let is_active = is_true_text(&row[2]);
        if is_active && !is_complete {
            let ghost e = (cell@, i as int);
            let ghost d_before = table_view(r@);
            let pos = position_of(&r, cell);
            proof {
                lemma_label_key_at_facts(d_before, cell@);
            }
            match pos {
                Some(p) => {
                    let ghost r_before = r@;
                    r[p].1 = i;
                    proof {
                        assert(r@ =~= r_before.update(p as int, (r_before[p as int].0, i)));
                        assert(d_before[p as int].0 == cell@);
                        assert(d_before[p as int].0 == r_before[p as int].0@);
                        assert(table_view(r@) =~= d_before.update(p as int, e));
                    }
                },
                None => {
                    r.push((cell.clone(), i));
                    proof {
                        assert(table_view(r@) =~= d_before.push(e));
                    }
                },
            }
            proof {
                assert(g[i as int][0] == cell@);
                assert(g[i as int][1] == row@[1]@);
                assert(g[i as int][2] == row@[2]@);
                assert((raw.push(e)).drop_last() =~= raw);
                assert((raw.push(e)).last() == e);
                assert(table_view(r@) =~= dedup_labels(raw.push(e)));
                assert(spec_active_habits(g, i as int) =~= seq![(g[i as int][0], i as int)]
                    + spec_active_habits(g, i + 1));
                assert(raw.push(e) + spec_active_habits(g, i + 1) =~= raw
                    + spec_active_habits(g, i as int));
                raw = raw.push(e);
            }
        } else {
            proof {
                assert(g[i as int][1] == row@[1]@);
                assert(g[i as int][2] == row@[2]@);
                assert(spec_active_habits(g, i as int) =~= spec_active_habits(g, i + 1));
            }
        }
        i = i + 1;
    }
    proof {
        assert(spec_active_habits(g, i as int) =~= Seq::<(Seq<char>, int)>::empty());
        assert(raw + Seq::<(Seq<char>, int)>::empty() =~= raw);
        assert(raw =~= spec_active_habits(g, index as int));
        assert(dedup_labels(raw) == spec_active_table(g, index as int));
    }
    r
}

/// The labels of the habits marked done in column `col`, scanning rows from
/// `row` downward while each row reaches that column.
pub open spec fn spec_completed(g: Seq<Seq<Seq<char>>>, row: int, col: int) -> Seq<Seq<char>>
    decreases g.len() - row,
{
    if !(0 <= row < g.len() && 0 <= col < g[row].len()) {
        Seq::empty()
    } else if g[row][col] == true_text() {
        seq![g[row][0]] + spec_completed(g, row + 1, col)
    } else {
        spec_completed(g, row + 1, col)
    }
}

/// Collects today's completed habits: the column-0 labels of rows, from the
/// month block's first habit row down, whose cell in the day's column reads
/// "TRUE". The scan stops at the first row too short to reach that column.
pub fn completed_today(values: &Vec<Vec<String>>, start_row: usize, date_col: usize) -> (r: Vec<
    String>)
    ensures
        r.deep_view() == spec_completed(grid_view(values), start_row as int, date_col as int),
{
    let ghost g = grid_view(values);
    let mut r: Vec<String> = Vec::new();
    let mut i: usize = start_row;
    proof {
        assert(r.deep_view() =~= Seq::<Seq<char>>::empty());
    }
    loop
        invariant
            start_row <= i,
            g == grid_view(values),
            spec_completed(g, start_row as int, date_col as int) =~= r.deep_view()
                + spec_completed(g, i as int, date_col as int),
        ensures
            spec_completed(g, start_row as int, date_col as int) =~= r.deep_view()
                + spec_completed(g, i as int, date_col as int),
            !(0 <= i < g.len() && date_col < g[i as int].len()),
        decreases g.len() - i,
    {
        if i >= values.len() {
            break;
        }
        let row = &values[i];
        if date_col >= row.len() {
            proof {
                assert(g[i as int].len() == row@.len());
            }
            break;
        }
        let ghost r_before = r.deep_view();
        if is_true_text(&row[date_col]) {
            r.push(row[0].clone());
            proof {
                assert(g[i as int][date_col as int] == row@[date_col as int]@);
                assert(g[i as int][0] == row@[0]@);
                assert(r.deep_view() =~= r_before.push(g[i as int][0]));
                assert(spec_completed(g, i as int, date_col as int) =~= seq![g[i as int][0]]
                    + spec_completed(g, i + 1, date_col as int));
            }
        } else {
            proof {
                assert(g[i as int][date_col as int] == row@[date_col as int]@);
                assert(spec_completed(g, i as int, date_col as int) =~= spec_completed(
                    g, i + 1, date_col as int));
            }
        }
        i = i + 1;
    }
    proof {
        assert(spec_completed(g, i as int, date_col as int) =~= Seq::<Seq<char>>::empty());
        assert(r.deep_view() + Seq::<Seq<char>>::empty() =~= r.deep_view());
    }
    r
}

/// How many of the given columns hold "TRUE" in the given row.
pub open spec fn done_count(g: Seq<Seq<Seq<char>>>, row: int, cols: Seq<usize>) -> int
    decreases cols.len(),
{
    if cols.len() == 0 {
        0
    } else {
        done_count(g, row, cols.drop_last()) + if cell_true(g, row, cols.last() as int) {
            1int
        } else {
            0int
        }
    }
}

/// Counts the "TRUE" cells of one habit row across the given date columns.
pub fn count_done(values: &Vec<Vec<String>>, row: usize, cols: &Vec<usize>) -> (n: usize)
    requires
        row < values@.len(),
        forall|m: int| 0 <= m < cols@.len() ==> (#[trigger] cols@[m]) < values@[row as int]@.len(),
    ensures
        n == done_count(grid_view(values), row as int, cols@),
        n <= cols@.len(),
{
    let ghost g = grid_view(values);
    let the_row = &values[row];
    let mut n: usize = 0;
    let mut j: usize = 0;
    proof {
        assert(cols@.take(0) =~= Seq::<usize>::empty());
    }
    while j < cols.len()
        invariant
            j <= cols@.len(),
            g == grid_view(values),
            row < values@.len(),
            the_row.deep_view() == g[row as int],
            forall|m: int| 0 <= m < cols@.len() ==> (#[trigger] cols@[m])
                < values@[row as int]@.len(),
            n <= j,
            n == done_count(g, row as int, cols@.take(j as int)),
        decreases cols@.len() - j,
    {
        let c: usize = cols[j];
        proof {
            assert(cols@.take(j + 1).drop_last() =~= cols@.take(j as int));
            assert(cols@.take(j + 1).last() == cols@[j as int]);
            assert(c < values@[row as int]@.len());
            assert(the_row.deep_view().len() == the_row@.len());
            assert(the_row.deep_view()[c as int] == the_row@[c as int].deep_view());
            assert(g[row as int][c as int] == the_row@[c as int]@);
        }
        if is_true_text(&the_row[c]) {
            n = n + 1;
        }
        j = j + 1;
    }
    proof {
        assert(cols@.take(cols@.len() as int) =~= cols@);
    }
    n
}

/// Per-habit completion scores over the given date columns: each listed name,
/// in order, that scored at least once, with its count.
pub open spec fn spec_tally(
    g: Seq<Seq<Seq<char>>>,
    names: Seq<Seq<char>>,
    tbl: Seq<(String, usize)>,
    cols: Seq<usize>,
) -> Seq<(Seq<char>, int)>
    decreases names.len(),
{
    if names.len() == 0 {
        Seq::empty()
    } else {
        let rest = spec_tally(g, names.drop_last(), tbl, cols);
        match spec_lookup(tbl, names.last()) {
            Some(row) => {
                let cnt = done_count(g, row as int, cols);
                if cnt > 0 {
                    rest + seq![(names.last(), cnt)]
                } else {
                    rest
                }
            },
            None => rest,
        }
    }
}

/// Every listed name resolves to a grid row through the habit table, and
/// every listed column exists in each such row; the report tallies demand
/// this, as they read each (habit, column) cell.
pub open spec fn report_inputs_ok(
    g: Seq<Vec<String>>,
    names: Seq<String>,
    habits: Seq<(String, usize)>,
    cols: Seq<usize>,
) -> bool {
    &&& forall|k: int| 0 <= k < names.len() ==> (#[trigger] spec_lookup(habits, names[k]@))
        is Some
    &&& forall|k: int| 0 <= k < names.len() ==> (#[trigger] spec_lookup(habits,
        names[k]@))->0 < g.len()
    &&& forall|k: int, m: int|
        #![trigger spec_lookup(habits, names[k]@), cols[m]]
        0 <= k < names.len() && 0 <= m < cols.len() ==> cols[m] < g[spec_lookup(habits,
            names[k]@)->0 as int]@.len()
}

/// Tests whether a report over the given names and columns can read every
/// cell it needs; a caller checks this before asking for tallies or lines.
pub fn check_report_inputs(
    names: &Vec<String>,
    habits: &Vec<(String, usize)>,
    cols: &Vec<usize>,
    values: &Vec<Vec<String>>,
) -> (ok: bool)
    ensures
        ok == report_inputs_ok(values@, names@, habits@, cols@),
{
    let mut k: usize = 0;
    while k < names.len()
        invariant
            k <= names@.len(),
            forall|a: int| 0 <= a < k ==> (#[trigger] spec_lookup(habits@, names@[a]@))
                is Some,
            forall|a: int| 0 <= a < k ==> (#[trigger] spec_lookup(habits@, names@[a]@))->0
                < values@.len(),
            forall|a: int, m: int|
                #![trigger spec_lookup(habits@, names@[a]@), cols@[m]]
                0 <= a < k && 0 <= m < cols@.len() ==> cols@[m] < values@[spec_lookup(
                    habits@, names@[a]@)->0 as int]@.len(),
        decreases names@.len() - k,
    {
        let looked = table_get(habits, &names[k]);
        match looked {
            Some(row) => {
                if row >= values.len() {
                    proof {
                        assert(spec_lookup(habits@, names@[k as int]@)->0 >= values@.len());
                    }
                    return false;
                }
                let mut m: usize = 0;
                while m < cols.len()
                    invariant
                        m <= cols@.len(),
                        k < names@.len(),
                        row < values@.len(),
                        spec_lookup(habits@, names@[k as int]@) == Some(row),
                        forall|b: int| 0 <= b < m ==> (#[trigger] cols@[b])
                            < values@[row as int]@.len(),
                    decreases cols@.len() - m,
                {
                    if cols[m] >= values[row].len() {
                        proof {
                            assert(cols@[m as int] >= values@[spec_lookup(habits@,
                                names@[k as int]@)->0 as int]@.len());
                        }
                        return false;
                    }
                    m = m + 1;
                }
            },
            None => {
                proof {
                    assert(!(spec_lookup(habits@, names@[k as int]@) is Some));
                }
                return false;
            },
        }
        k = k + 1;
    }
    true
}

/// Tallies each named habit's "TRUE" cells across the given date columns,
/// keeping only habits with at least one completion, in the given name order.
pub fn tally_scores(
    names: &Vec<String>,
    habits: &Vec<(String, usize)>,
    cols: &Vec<usize>,
    values: &Vec<Vec<String>>,
) -> (r: Vec<(String, usize)>)
    requires
        report_inputs_ok(values@, names@, habits@, cols@),
    ensures
        table_view(r@) == spec_tally(grid_view(values), names.deep_view(), habits@, cols@),
{
    let ghost g = grid_view(values);
    let ghost nv = names.deep_view();
    let mut r: Vec<(String, usize)> = Vec::new();
    let mut k: usize = 0;
    proof {
        assert(nv.take(0) =~= Seq::<Seq<char>>::empty());
        assert(table_view(r@) =~= Seq::<(Seq<char>, int)>::empty());
    }
    while k < names.len()
        invariant
            k <= names@.len(),
            g == grid_view(values),
            nv == names.deep_view(),
            nv.len() == names@.len(),
            forall|j: int| 0 <= j < names@.len() ==> nv[j] == names@[j]@,
            forall|j: int| 0 <= j < names@.len() ==> (#[trigger] spec_lookup(habits@,
                names@[j]@)) is Some,
            forall|j: int| 0 <= j < names@.len() ==> (#[trigger] spec_lookup(habits@,
                names@[j]@))->0 < values@.len(),
            forall|j: int, m: int|
                #![trigger spec_lookup(habits@, names@[j]@), cols@[m]]
                0 <= j < names@.len() && 0 <= m < cols@.len() ==> cols@[m]
                    < values@[spec_lookup(habits@, names@[j]@)->0 as int]@.len(),
            table_view(r@) =~= spec_tally(g, nv.take(k as int), habits@, cols@),
        decreases names@.len() - k,
    {
        let name = &names[k];
        let looked = table_get(habits, name);
        proof {
            assert(nv[k as int] == name@);
        }
        match looked {
            Some(row) => {
                let cnt = count_done(values, row, cols);
                let ghost r_before = r@;
                if cnt > 0 {
                    r.push((name.clone(), cnt));
                    proof {
                        assert(table_view(r@) =~= table_view(r_before).push((name@, cnt as int)));
                    }
                }
                proof {
                    assert(nv.take(k + 1).drop_last() =~= nv.take(k as int));
                    assert(nv.take(k + 1).last() == nv[k as int]);
                }
            },
            None => {
                proof {
                    assert(false);
                }
            },
        }
        k = k + 1;
    }
    proof {
        assert(nv.take(nv.len() as int) =~= nv);
    }
    r
}

/// The grand total of a score table.
pub open spec fn tally_sum(t: Seq<(Seq<char>, int)>) -> int
    decreases t.len(),
{
    if t.len() == 0 {
        0
    } else {
        tally_sum(t.drop_last()) + t.last().1
    }
}

/// Sums a score table, as the reports' grand total line does; a total too
/// large for `usize` is reported rather than computed.
pub fn sum_scores(scores: &Vec<(String, usize)>) -> (total: Option<usize>)
    ensures
        total is Some <==> tally_sum(table_view(scores@)) <= usize::MAX,
        total is Some ==> total->0 == tally_sum(table_view(scores@)),
{
    let ghost tv = table_view(scores@);
    let mut total: usize = 0;
    let mut i: usize = 0;
    proof {
        assert(tv.take(0) =~= Seq::<(Seq<char>, int)>::empty());
    }
    while i < scores.len()
        invariant
            i <= scores@.len(),
            tv == table_view(scores@),
            tv.len() == scores@.len(),
            forall|j: int| 0 <= j < scores@.len() ==> (#[trigger] tv[j]).1 == scores@[j].1 as int,
            total == tally_sum(tv.take(i as int)),
        decreases scores@.len() - i,
    {
        proof {
            assert(tv.take(i + 1).drop_last() =~= tv.take(i as int));
            assert(tv.take(i + 1).last() == tv[i as int]);
        }
        let step = total.checked_add(scores[i].1);
        match step {
            Some(t) => {
                total = t;
            },
            None => {
                proof {
                    assert(tally_sum(tv.take(i + 1)) > usize::MAX);
                    lemma_tally_sum_prefix_le(tv, i + 1);
                }
                return None;
            },
        }
        i = i + 1;
    }
    proof {
        assert(tv.take(tv.len() as int) =~= tv);
    }
    Some(total)
}

/// Score entries are nonnegative, so a prefix sum never exceeds the total.
proof fn lemma_tally_sum_prefix_le(t: Seq<(Seq<char>, int)>, k: int)
    requires
        0 <= k <= t.len(),
        forall|j: int| 0 <= j < t.len() ==> (#[trigger] t[j]).1 >= 0,
    ensures
        tally_sum(t.take(k)) <= tally_sum(t),
    decreases t.len() - k,
{
    if k == t.len() {
        assert(t.take(k) =~= t);
    } else {
        assert(t.take(k + 1).drop_last() =~= t.take(k));
        assert(t.take(k + 1).last() == t[k]);
        lemma_tally_sum_prefix_le(t, k + 1);
    }
}

/// The labels of a habit table, in table order.
pub fn keys_of(t: &Vec<(String, usize)>) -> (r: Vec<String>)
    ensures
        r@.len() == t@.len(),
        forall|j: int| 0 <= j < t@.len() ==> r@[j]@ == (#[trigger] t@[j]).0@,
{
    let mut r: Vec<String> = Vec::new();
    let mut i: usize = 0;
    while i < t.len()
        invariant
            i <= t@.len(),
            r@.len() == i,
            forall|j: int| 0 <= j < i ==> r@[j]@ == (#[trigger] t@[j]).0@,
        decreases t@.len() - i,
    {
        r.push(t[i].0.clone());
        i = i + 1;
    }
    r
}

/// The day numbers of a date table, in table order.
pub fn day_keys_of(t: &Vec<(usize, usize)>) -> (r: Vec<usize>)
    ensures
        r@.len() == t@.len(),
        forall|j: int| 0 <= j < t@.len() ==> r@[j] == (#[trigger] t@[j]).0,
{
    let mut r: Vec<usize> = Vec::new();
    let mut i: usize = 0;
    while i < t.len()
        invariant
            i <= t@.len(),
            r@.len() == i,
            forall|j: int| 0 <= j < i ==> r@[j] == (#[trigger] t@[j]).0,
        decreases t@.len() - i,
    {
        r.push(t[i].0);
        i = i + 1;
    }
    r
}

/// The column indices of a date table, in table order.
pub fn cols_of(t: &Vec<(usize, usize)>) -> (r: Vec<usize>)
    ensures
        r@.len() == t@.len(),
        forall|j: int| 0 <= j < t@.len() ==> r@[j] == (#[trigger] t@[j]).1,
{
    let mut r: Vec<usize> = Vec::new();
    let mut i: usize = 0;
    while i < t.len()
        invariant
            i <= t@.len(),
            r@.len() == i,
            forall|j: int| 0 <= j < i ==> r@[j] == (#[trigger] t@[j]).1,
        decreases t@.len() - i,
    {
        r.push(t[i].1);
        i = i + 1;
    }
    r
}

/// Relies on unicode_width's `UnicodeWidthStr::width`: the number of
/// terminal cells a string occupies, a function of its characters alone.
#[verifier::external_body]
fn str_width(s: &str) -> (r: usize)
    ensures
        r == display_width_of(s@),
{
    unicode_width::UnicodeWidthStr::width(s)
}

pub uninterp spec fn display_width_of(s: Seq<char>) -> usize;

/// Spaces needed to pad text of rendered width `w` to a column of the given
/// width; nothing when the text is already wider.
pub open spec fn pad_to(width: int, w: int) -> int {
    if w >= width {
        0
    } else {
        width - w
    }
}

/// How many spaces to print after a habit name so the completion markers
/// line up, measured in rendered terminal cells rather than bytes.
pub fn pad_for(name: &String, width: usize) -> (r: usize)
    ensures
        r == pad_to(width as int, display_width_of(name@) as int),
{
    let w = str_width(name.as_str());
    if w >= width {
        0
    } else {
        width - w
    }
}

/// One line of the per-date activity listing: the habit's name, the spaces
/// that pad it to the marker column, and whether the habit was done.
pub struct ActivityLine {
    pub habit: String,
    pub pad: usize,
    pub done: bool,
}

/// The listing for one date: one line per listed habit, in order, each
/// showing whether that habit's cell in the date's column (entry `m` of
/// `cols`) reads "TRUE", padded to `width` rendered cells.
pub fn date_lines(
    names: &Vec<String>,
    habits: &Vec<(String, usize)>,
    cols: &Vec<usize>,
    m: usize,
    values: &Vec<Vec<String>>,
    width: usize,
) -> (r: Vec<ActivityLine>)
    requires
        m < cols@.len(),
        report_inputs_ok(values@, names@, habits@, cols@),
    ensures
        r@.len() == names@.len(),
        forall|k: int| 0 <= k < names@.len() ==> (#[trigger] r@[k]).habit@ == names@[k]@
            && r@[k].done == cell_true(grid_view(values), spec_lookup(habits@,
            names@[k]@)->0 as int, cols@[m as int] as int) && r@[k].pad == pad_to(
            width as int, display_width_of(names@[k]@) as int),
{
    let ghost g = grid_view(values);
    let c: usize = cols[m];
    let mut r: Vec<ActivityLine> = Vec::new();
    let mut k: usize = 0;
    while k < names.len()
        invariant
            k <= names@.len(),
            g == grid_view(values),
            m < cols@.len(),
            c == cols@[m as int],
            report_inputs_ok(values@, names@, habits@, cols@),
            r@.len() == k,
            forall|a: int| 0 <= a < k ==> (#[trigger] r@[a]).habit@ == names@[a]@
                && r@[a].done == cell_true(g, spec_lookup(habits@, names@[a]@)->0 as int,
                cols@[m as int] as int) && r@[a].pad == pad_to(width as int,
                display_width_of(names@[a]@) as int),
        decreases names@.len() - k,
    {
        let name = &names[k];
        let row: usize = match table_get(habits, name) {
            Some(x) => x,
            None => {
                proof {
                    assert(false);
                }
                0
            },
        };
        proof {
            assert(spec_lookup(habits@, names@[k as int]@) == Some(row));
            assert(c < values@[row as int]@.len());
            assert(g[row as int][c as int] == values@[row as int]@[c as int]@);
        }
        let done = is_true_text(&values[row][c]);
        let pad = pad_for(name, width);
        r.push(ActivityLine { habit: name.clone(), pad, done });
        k = k + 1;
    }
    r
}

} // verus!

