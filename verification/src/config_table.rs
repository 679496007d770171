//! The habit configuration sheet: its column layout, the rule that a habit
//! with logged history in the current month cannot be deactivated, and the
//! writes that flip habits active or inactive.

use vstd::prelude::*;

use crate::data_updater::{cell_address, range_text, sel_text, sel_true_names, set_data,
    true_names, CellWrite};
use crate::sheet_parser::{cell_true, grid_view, is_true_text, spec_lookup, table_get};

verus! {

/// The first data row of the configuration sheet, below its header.
pub const START_ROW_INDEX: usize = 1;

/// The columns of the configuration sheet, 1-based.
#[derive(Debug, Clone, Copy)]
pub enum Column {
    HabitName,
    IsComplete,
    IsActive,
}

impl Column {
    /// The 1-based sheet column this configuration column occupies.
    pub open spec fn column_number(self) -> int {
        match self {
            Column::HabitName => 1,
            Column::IsComplete => 2,
            Column::IsActive => 3,
        }
    }

    /// The 1-based column index, as cell addresses use it.
    pub fn as_usize(self) -> (r: usize)
        ensures
            r == self.column_number(),
    {
        match self {
            Column::HabitName => 1,
            Column::IsComplete => 2,
            Column::IsActive => 3,
        }
    }

    /// The 0-based column index, as grid rows are indexed.
    pub fn as_usize_zero_based_index(self) -> (r: usize)
        ensures
            r == self.column_number() - 1,
    {
        match self {
            Column::HabitName => 0,
            Column::IsComplete => 1,
            Column::IsActive => 2,
        }
    }
}

/// Whether the habit in `row` has at least one "TRUE" cell among the given
/// date columns: logged history that blocks deactivation.
pub open spec fn spec_has_history(
    g: Seq<Seq<Seq<char>>>,
    row: int,
    dates: Seq<(usize, usize)>,
) -> bool {
    exists|m: int| 0 <= m < dates.len() && cell_true(g, row, (#[trigger] dates[m]).1 as int)
}

/// Scans one habit row's date columns for a "TRUE" cell.
pub fn has_history(values: &Vec<Vec<String>>, row: usize, dates: &Vec<(usize, usize)>) -> (r:
    bool)
    requires
        dates@.len() > 0 ==> row < values@.len(),
        forall|m: int| 0 <= m < dates@.len() ==> (#[trigger] dates@[m]).1
            < values@[row as int]@.len(),
    ensures
        r == spec_has_history(grid_view(values), row as int, dates@),
{
    let ghost g = grid_view(values);
    let mut m: usize = 0;
    while m < dates.len()
        invariant
            m <= dates@.len(),
            g == grid_view(values),
            dates@.len() > 0 ==> row < values@.len(),
            forall|mm: int| 0 <= mm < dates@.len() ==> (#[trigger] dates@[mm]).1
                < values@[row as int]@.len(),
            forall|mm: int| 0 <= mm < m ==> !cell_true(g, row as int, (#[trigger]
                dates@[mm]).1 as int),
        decreases dates@.len() - m,
    {
        let c: usize = dates[m].1;
        proof {
            assert(g[row as int][c as int] == values@[row as int]@[c as int]@);
        }
        if is_true_text(&values[row][c]) {
            proof {
                assert(cell_true(g, row as int, dates@[m as int].1 as int));
            }
            return true;
        }
        m = m + 1;
    }
    false
}

/// Every selected habit that the month block knows must name a row inside
/// the grid whose date columns all exist: the history scan demands this.
pub open spec fn history_inputs_ok(
    g: Seq<Vec<String>>,
    habits: Seq<(String, usize)>,
    dates: Seq<(usize, usize)>,
    sel: Seq<(String, bool)>,
) -> bool {
    &&& forall|i: int| 0 <= i < sel.len() && dates.len() > 0 && (#[trigger] spec_lookup(
        habits, sel[i].0@)) is Some ==> spec_lookup(habits, sel[i].0@)->0 < g.len()
    &&& forall|i: int, m: int|
        #![trigger sel[i], dates[m]]
        0 <= i < sel.len() && 0 <= m < dates.len() && spec_lookup(habits, sel[i].0@) is Some
            ==> dates[m].1 < g[spec_lookup(habits, sel[i].0@)->0 as int]@.len()
}

/// Tests whether the history scan behind the deactivation rule can read
/// every cell it needs; a caller checks this before filtering a selection.
pub fn check_history_inputs(
    selected: &Vec<(String, bool)>,
    month_habits: &Vec<(String, usize)>,
    dates: &Vec<(usize, usize)>,
    values: &Vec<Vec<String>>,
) -> (ok: bool)
    ensures
        ok == history_inputs_ok(values@, month_habits@, dates@, selected@),
{
    if dates.len() == 0 {
        return true;
    }
    let mut i: usize = 0;
    while i < selected.len()
        invariant
            i <= selected@.len(),
            dates@.len() > 0,
            forall|a: int| 0 <= a < i && dates@.len() > 0 && (#[trigger] spec_lookup(
                month_habits@, selected@[a].0@)) is Some ==> spec_lookup(month_habits@,
                selected@[a].0@)->0 < values@.len(),
            forall|a: int, m: int|
                #![trigger selected@[a], dates@[m]]
                0 <= a < i && 0 <= m < dates@.len() && spec_lookup(month_habits@,
                    selected@[a].0@) is Some ==> dates@[m].1 < values@[spec_lookup(
                    month_habits@, selected@[a].0@)->0 as int]@.len(),
        decreases selected@.len() - i,
    {
        let looked = table_get(month_habits, &selected[i].0);
        match looked {
            Some(row) => {
                if row >= values.len() {
                    proof {
                        assert(spec_lookup(month_habits@, selected@[i as int].0@)->0
                            >= values@.len());
                    }
                    return false;
                }
                let mut m: usize = 0;
                while m < dates.len()
                    invariant
                        m <= dates@.len(),
                        i < selected@.len(),
                        row < values@.len(),
                        spec_lookup(month_habits@, selected@[i as int].0@) == Some(row),
                        forall|b: int| 0 <= b < m ==> (#[trigger] dates@[b]).1
                            < values@[row as int]@.len(),
                    decreases dates@.len() - m,
                {
                    if dates[m].1 >= values[row].len() {
                        proof {
                            assert(dates@[m as int].1 >= values@[spec_lookup(month_habits@,
                                selected@[i as int].0@)->0 as int]@.len());
                        }
                        return false;
                    }
                    m = m + 1;
                }
            },
            None => {},
        }
        i = i + 1;
    }
    true
}

/// The names whose deactivation the rule rejects: habits known to the month
/// block with at least one "TRUE" cell there, in selection-map order.
pub open spec fn spec_rejected(
    g: Seq<Seq<Seq<char>>>,
    habits: Seq<(String, usize)>,
    dates: Seq<(usize, usize)>,
    sel: Seq<(String, bool)>,
) -> Seq<Seq<char>>
    decreases sel.len(),
{
    if sel.len() == 0 {
        Seq::empty()
    } else {
        let rest = spec_rejected(g, habits, dates, sel.drop_last());
        if spec_lookup(habits, sel.last().0@) is Some && spec_has_history(g, spec_lookup(
            habits, sel.last().0@)->0 as int, dates) {
            rest + seq![sel.last().0@]
        } else {
            rest
        }
    }
}

/// Enforces the deactivation rule on a selection: every selected habit that
/// has a "TRUE" cell in the current month block flips back to unselected,
/// and the rejected names are returned so the caller can explain. A habit
/// with no such history keeps its selection.
pub fn filter_deactivations(
    selected: &mut Vec<(String, bool)>,
    month_habits: &Vec<(String, usize)>,
    dates: &Vec<(usize, usize)>,
    values: &Vec<Vec<String>>,
) -> (rejected: Vec<String>)
    requires
        history_inputs_ok(values@, month_habits@, dates@, old(selected)@),
    ensures
        final(selected)@.len() == old(selected)@.len(),
        forall|i: int| 0 <= i < old(selected)@.len() ==> (#[trigger] final(selected)@[i]).0
            == old(selected)@[i].0 && final(selected)@[i].1 == (old(selected)@[i].1 && !(
            spec_lookup(month_habits@, old(selected)@[i].0@) is Some && spec_has_history(
            grid_view(values), spec_lookup(month_habits@, old(selected)@[i].0@)->0 as int,
            dates@))),
        rejected.deep_view() == spec_rejected(grid_view(values), month_habits@, dates@,
            old(selected)@),
{
    let ghost g = grid_view(values);
    let ghost sel0 = selected@;
    let mut rejected: Vec<String> = Vec::new();
    let mut i: usize = 0;
    proof {
        assert(sel0.take(0) =~= Seq::<(String, bool)>::empty());
        assert(rejected.deep_view() =~= spec_rejected(g, month_habits@, dates@, sel0.take(0)));
    }
    while i < selected.len()
        invariant
            i <= sel0.len(),
            selected@.len() == sel0.len(),
            g == grid_view(values),
            sel0 == old(selected)@,
            history_inputs_ok(values@, month_habits@, dates@, sel0),
            forall|j: int| i <= j < sel0.len() ==> (#[trigger] selected@[j]) == sel0[j],
            forall|j: int| 0 <= j < i ==> (#[trigger] selected@[j]).0 == sel0[j].0
                && selected@[j].1 == (sel0[j].1 && !(spec_lookup(month_habits@, sel0[j].0@)
                is Some && spec_has_history(g, spec_lookup(month_habits@,
                sel0[j].0@)->0 as int, dates@))),
            rejected.deep_view() =~= spec_rejected(g, month_habits@, dates@, sel0.take(i as int)),
        decreases sel0.len() - i,
    {
        proof {
            assert(sel0.take(i + 1).drop_last() =~= sel0.take(i as int));
            assert(sel0.take(i + 1).last() == sel0[i as int]);
        }
        let looked = table_get(month_habits, &selected[i].0);
        let ghost rejected_before = rejected.deep_view();
        match looked {
            Some(row) => {
                proof {
                    assert(selected@[i as int] == sel0[i as int]);
                    assert(spec_lookup(month_habits@, sel0[i as int].0@) == Some(row));
                    assert forall|m: int| 0 <= m < dates@.len() implies (#[trigger]
                        dates@[m]).1 < values@[row as int]@.len() by {
                        assert(sel0[i as int] == sel0[i as int]);
                    }
                }
                let hist = has_history(values, row, dates);
                if hist {
                    rejected.push(selected[i].0.clone());
                    selected[i].1 = false;
                    proof {
                        assert(rejected.deep_view() =~= rejected_before.push(
                            sel0[i as int].0@));
                    }
                }
            },
            None => {},
        }
        i = i + 1;
    }
    proof {
        assert(sel0.take(sel0.len() as int) =~= sel0);
    }
    rejected
}

/// A single write that flips the active flag in the IsActive cell of the
/// row recorded for `name`.
pub open spec fn config_write_ok(
    w: CellWrite,
    sheet: Seq<char>,
    habits: Seq<(String, usize)>,
    name: Seq<char>,
    active: bool,
) -> bool {
    &&& w.range@ == range_text(sheet, (spec_lookup(habits, name)->0 + 1) as nat, 3)
    &&& w.value@ == sel_text(active)
}

/// Builds the configuration-sheet writes that set each selected habit's
/// active flag: one write per selected habit, in its IsActive cell, holding
/// "TRUE" to activate or "FALSE" to deactivate.
pub fn config_update_writes(
    selected: &Vec<(String, bool)>,
    config_habits: &Vec<(String, usize)>,
    sheet_name: &String,
    active: bool,
) -> (writes: Vec<CellWrite>)
    requires
        forall|k: int| 0 <= k < sel_true_names(selected@).len() ==> (#[trigger] spec_lookup(
            config_habits@, sel_true_names(selected@)[k])) is Some && spec_lookup(
            config_habits@, sel_true_names(selected@)[k])->0 < usize::MAX,
    ensures
        writes@.len() == sel_true_names(selected@).len(),
        forall|k: int| 0 <= k < sel_true_names(selected@).len() ==> config_write_ok(
            #[trigger] writes@[k], sheet_name@, config_habits@, sel_true_names(selected@)[k],
            active),
{
    let ghost hsel = sel_true_names(selected@);
    let names = true_names(selected);
    let value_str = if active {
        String::from_str("TRUE")
    } else {
        String::from_str("FALSE")
    };
    let mut writes: Vec<CellWrite> = Vec::new();
    let mut k: usize = 0;
    while k < names.len()
        invariant
            k <= hsel.len(),
            names.deep_view() == hsel,
            names@.len() == hsel.len(),
            value_str@ == sel_text(active),
            forall|a: int| 0 <= a < hsel.len() ==> (#[trigger] spec_lookup(config_habits@,
                hsel[a])) is Some && spec_lookup(config_habits@, hsel[a])->0 < usize::MAX,
            writes@.len() == k,
            forall|a: int| 0 <= a < k ==> config_write_ok(#[trigger] writes@[a], sheet_name@,
                config_habits@, hsel[a], active),
        decreases hsel.len() - k,
    {
        let name = &names[k];
        proof {
            assert(hsel[k as int] == name@);
        }
        let row: usize = match table_get(config_habits, name) {
            Some(r) => r,
            None => {
                proof {
                    assert(false);
                }
                0
            },
        };
        let col = Column::IsActive.as_usize();
        let addr = cell_address(row + 1, col);
        let ghost writes_before = writes@;
        set_data(&mut writes, value_str.clone(), addr, sheet_name);
        proof {
            assert(spec_lookup(config_habits@, hsel[k as int]) == Some(row));
            assert(writes@.drop_last() =~= writes_before);
            assert(writes@[k as int] == writes@.last());
            assert(writes@.last().range@ == range_text(sheet_name@, (row + 1) as nat, 3));
            assert(config_write_ok(writes@[k as int], sheet_name@, config_habits@,
                hsel[k as int], active));
            assert forall|a: int| 0 <= a < k implies config_write_ok(#[trigger] writes@[a],
                sheet_name@, config_habits@, hsel[a], active) by {
                assert(writes@[a] == writes@.drop_last()[a]);
                assert(writes@[a] == writes_before[a]);
            }
        }
        k = k + 1;
    }
    writes
}

} // verus!
