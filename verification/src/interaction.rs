//! Selection maps: the label-to-flag tables that record which habits and
//! dates the user has chosen for an action. Entries start unselected; a
//! later step flips chosen entries, or every entry at once for the
//! "select all" shortcut.

use vstd::prelude::*;

verus! {

/// Builds a habit selection map with every listed name unselected.
pub fn selection_from_names(keys: &Vec<String>) -> (r: Vec<(String, bool)>)
    ensures
        r@.len() == keys@.len(),
        forall|j: int| 0 <= j < keys@.len() ==> (#[trigger] r@[j]).0@ == keys@[j]@
            && !r@[j].1,
{
    let mut r: Vec<(String, bool)> = Vec::new();
    let mut i: usize = 0;
    while i < keys.len()
        invariant
            i <= keys@.len(),
            r@.len() == i,
            forall|j: int| 0 <= j < i ==> (#[trigger] r@[j]).0@ == keys@[j]@ && !r@[j].1,
        decreases keys@.len() - i,
    {
        r.push((keys[i].clone(), false));
        i = i + 1;
    }
    r
}

/// Builds a date selection map with every listed day unselected.
pub fn selection_from_days(keys: &Vec<usize>) -> (r: Vec<(usize, bool)>)
    ensures
        r@.len() == keys@.len(),
        forall|j: int| 0 <= j < keys@.len() ==> (#[trigger] r@[j]).0 == keys@[j] && !r@[j].1,
{
    let mut r: Vec<(usize, bool)> = Vec::new();
    let mut i: usize = 0;
    while i < keys.len()
        invariant
            i <= keys@.len(),
            r@.len() == i,
            forall|j: int| 0 <= j < i ==> (#[trigger] r@[j]).0 == keys@[j] && !r@[j].1,
        decreases keys@.len() - i,
    {
        r.push((keys[i], false));
        i = i + 1;
    }
    r
}

/// The "select all" shortcut: flips every habit entry to selected, touching
/// nothing else.
pub fn select_all_habits(sel: &mut Vec<(String, bool)>)
    ensures
        final(sel)@.len() == old(sel)@.len(),
        forall|j: int| 0 <= j < old(sel)@.len() ==> (#[trigger] final(sel)@[j]).0
            == old(sel)@[j].0 && final(sel)@[j].1,
{
    let mut i: usize = 0;
    while i < sel.len()
        invariant
            i <= sel@.len(),
            sel@.len() == old(sel)@.len(),
            forall|j: int| 0 <= j < i ==> (#[trigger] sel@[j]).0 == old(sel)@[j].0
                && sel@[j].1,
            forall|j: int| i <= j < sel@.len() ==> (#[trigger] sel@[j]) == old(sel)@[j],
        decreases sel@.len() - i,
    {
        sel[i].1 = true;
        i = i + 1;
    }
}

/// The "select all" shortcut for dates.
pub fn select_all_dates(sel: &mut Vec<(usize, bool)>)
    ensures
        final(sel)@.len() == old(sel)@.len(),
        forall|j: int| 0 <= j < old(sel)@.len() ==> (#[trigger] final(sel)@[j]).0
            == old(sel)@[j].0 && final(sel)@[j].1,
{
    let mut i: usize = 0;
    while i < sel.len()
        invariant
            i <= sel@.len(),
            sel@.len() == old(sel)@.len(),
            forall|j: int| 0 <= j < i ==> (#[trigger] sel@[j]).0 == old(sel)@[j].0
                && sel@[j].1,
            forall|j: int| i <= j < sel@.len() ==> (#[trigger] sel@[j]) == old(sel)@[j],
        decreases sel@.len() - i,
    {
        sel[i].1 = true;
        i = i + 1;
    }
}

/// Whether some listed name has the given text.
pub open spec fn seq_contains_name(s: Seq<String>, key: Seq<char>) -> bool {
    exists|i: int| 0 <= i < s.len() && (#[trigger] s[i])@ == key
}

/// Whether a name occurs in a list of chosen names.
pub fn contains_name(v: &Vec<String>, key: &String) -> (r: bool)
    ensures
        r == seq_contains_name(v@, key@),
{
    let mut i: usize = 0;
    while i < v.len()
        invariant
            i <= v@.len(),
            forall|j: int| 0 <= j < i ==> (#[trigger] v@[j])@ != key@,
        decreases v@.len() - i,
    {
        if v[i] == *key {
            return true;
        }
        i = i + 1;
    }
    false
}

/// Whether some listed day equals the given one.
pub open spec fn seq_contains_day(s: Seq<usize>, key: usize) -> bool {
    exists|i: int| 0 <= i < s.len() && (#[trigger] s[i]) == key
}

/// Whether a day occurs in a list of chosen days.
pub fn contains_day(v: &Vec<usize>, key: usize) -> (r: bool)
    ensures
        r == seq_contains_day(v@, key),
{
    let mut i: usize = 0;
    while i < v.len()
        invariant
            i <= v@.len(),
            forall|j: int| 0 <= j < i ==> (#[trigger] v@[j]) != key,
        decreases v@.len() - i,
    {
        if v[i] == key {
            return true;
        }
        i = i + 1;
    }
    false
}

/// Flips the entries named in `chosen` to selected, leaving other entries'
/// flags as they were.
pub fn apply_habit_selection(sel: &mut Vec<(String, bool)>, chosen: &Vec<String>)
    ensures
        final(sel)@.len() == old(sel)@.len(),
        forall|j: int| 0 <= j < old(sel)@.len() ==> (#[trigger] final(sel)@[j]).0
            == old(sel)@[j].0 && final(sel)@[j].1 == (old(sel)@[j].1 || seq_contains_name(
            chosen@, old(sel)@[j].0@)),
{
    let mut i: usize = 0;
    while i < sel.len()
        invariant
            i <= sel@.len(),
            sel@.len() == old(sel)@.len(),
            forall|j: int| 0 <= j < i ==> (#[trigger] sel@[j]).0 == old(sel)@[j].0
                && sel@[j].1 == (old(sel)@[j].1 || seq_contains_name(chosen@,
                old(sel)@[j].0@)),
            forall|j: int| i <= j < sel@.len() ==> (#[trigger] sel@[j]) == old(sel)@[j],
        decreases sel@.len() - i,
    {
        let hit = contains_name(chosen, &sel[i].0);
        if hit {
            sel[i].1 = true;
        }
        i = i + 1;
    }
}

/// Flips the entries for the days in `chosen` to selected, leaving other
/// entries' flags as they were.
pub fn apply_date_selection(sel: &mut Vec<(usize, bool)>, chosen: &Vec<usize>)
    ensures
        final(sel)@.len() == old(sel)@.len(),
        forall|j: int| 0 <= j < old(sel)@.len() ==> (#[trigger] final(sel)@[j]).0
            == old(sel)@[j].0 && final(sel)@[j].1 == (old(sel)@[j].1 || seq_contains_day(
            chosen@, old(sel)@[j].0)),
{
    let mut i: usize = 0;
    while i < sel.len()
        invariant
            i <= sel@.len(),
            sel@.len() == old(sel)@.len(),
            forall|j: int| 0 <= j < i ==> (#[trigger] sel@[j]).0 == old(sel)@[j].0
                && sel@[j].1 == (old(sel)@[j].1 || seq_contains_day(chosen@, old(sel)@[j].0)),
            forall|j: int| i <= j < sel@.len() ==> (#[trigger] sel@[j]) == old(sel)@[j],
        decreases sel@.len() - i,
    {
        let hit = contains_day(chosen, sel[i].0);
        if hit {
            sel[i].1 = true;
        }
        i = i + 1;
    }
}

} // verus!
