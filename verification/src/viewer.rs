//! Decisions of the data viewer: which opened files to (re)process, and how the
//! channel merge map is edited.
use vstd::prelude::*;

verus! {

/// What the background worker does with one file of the viewer.
#[derive(Debug, Clone, Copy, PartialEq, Eq, Structural)]
pub enum ProcessDecision {
    /// The file is left as it is.
    Skip,
    /// The file is processed.
    Process,
    /// The file is processed if it changed after `processed` (nanoseconds since the
    /// epoch): its modification time has to be read to decide.
    CheckModified(u128),
}

/// The decision for a file: closed files are skipped; opened ones are processed when
/// the settings changed or they were never processed, and otherwise checked against
/// their modification time.
pub open spec fn spec_process_decision(opened: bool, settings_changed: bool, processed: Option<u128>) -> ProcessDecision {
    if !opened {
        ProcessDecision::Skip
    } else if settings_changed {
        ProcessDecision::Process
    } else {
        match processed {
            Some(t) => ProcessDecision::CheckModified(t),
            None => ProcessDecision::Process,
        }
    }
}

/// Decides what to do with a file of the viewer.
pub fn process_decision(opened: bool, settings_changed: bool, processed: Option<u128>) -> (r: ProcessDecision)
    ensures
        r == spec_process_decision(opened, settings_changed, processed),
{
    if !opened {
        ProcessDecision::Skip
    } else if settings_changed {
        ProcessDecision::Process
    } else {
        match processed {
            Some(t) => ProcessDecision::CheckModified(t),
            None => ProcessDecision::Process,
        }
    }
}

/// Whether a file processed at `processed` has to be processed again, having been
/// modified at `modified`.
pub fn modified_since(processed: u128, modified: u128) -> (r: bool)
    ensures
        r == (processed < modified),
{
    processed < modified
}

/// Whether the merge map never merges two distinct channels into each other both
/// ways.
pub open spec fn one_way_merges(m: [[bool; 7]; 7]) -> bool {
    forall|a: int, b: int|
        0 <= a < 7 && 0 <= b < 7 && a != b ==> !(#[trigger] m@[a]@[b] && #[trigger] m@[b]@[a])
}

/// The merge map after the viewer's checkbox for `(into, from)` is set to `value`:
/// the diagonal cannot be edited, and enabling a merge disables the reverse one.
pub open spec fn spec_set_merge(m: [[bool; 7]; 7], into: int, from: int, value: bool) -> Seq<Seq<bool>> {
    let rows = m@.map_values(|row: [bool; 7]| row@);
    if into == from {
        rows
    } else {
        let set = rows.update(into, rows[into].update(from, value));
        if value {
            set.update(from, set[from].update(into, false))
        } else {
            set
        }
    }
}

/// The rows of a merge map.
pub open spec fn merge_rows(m: [[bool; 7]; 7]) -> Seq<Seq<bool>> {
    m@.map_values(|row: [bool; 7]| row@)
}

/// Sets the viewer's merge checkbox `(into, from)` to `value`.
pub fn set_merge(merge_map: &mut [[bool; 7]; 7], into: usize, from: usize, value: bool)
    requires
        into < 7,
        from < 7,
    ensures
        merge_rows(*final(merge_map)) == spec_set_merge(*old(merge_map), into as int, from as int, value),
{
    let ghost before = merge_rows(*merge_map);
    if into == from {
        return;
    }
    merge_map[into][from] = value;
    if value {
        merge_map[from][into] = false;
    }
    assert(merge_rows(*merge_map) =~= spec_set_merge(*old(merge_map), into as int, from as int, value));
}

/// Editing the merge map keeps every merge one-way.
pub proof fn lemma_set_merge_keeps_one_way(m: [[bool; 7]; 7], m2: [[bool; 7]; 7], into: int, from: int, value: bool)
    requires
        0 <= into < 7,
        0 <= from < 7,
        one_way_merges(m),
        merge_rows(m2) == spec_set_merge(m, into, from, value),
    ensures
        one_way_merges(m2),
{
    assert forall|a: int, b: int| 0 <= a < 7 && 0 <= b < 7 && a != b implies !(#[trigger] m2@[a]@[b]
        && #[trigger] m2@[b]@[a]) by {
        assert(merge_rows(m2)[a] == m2@[a]@);
        assert(merge_rows(m2)[b] == m2@[b]@);
        assert(merge_rows(m)[a] == m@[a]@);
        assert(merge_rows(m)[b] == m@[b]@);
    }
}

} // verus!
