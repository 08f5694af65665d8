use vstd::prelude::*;

use crate::json_enviroment::EntryId;

verus! {

/// Why an edit of an entry was refused.
#[derive(Debug, PartialEq, Eq, Structural)]
pub enum SetErrors {
    InvalidIndex,
    InvalidJson,
    InvalidKey,
}


/// Which way to step through the filter's selection.
#[derive(Debug, Clone, Copy, PartialEq, Eq, Structural)]
pub enum Direction {
    Forward,
    Backward,
}

/// The first position at or after `from` whose entry lies after entry `x`.
pub open spec fn first_after(filter: Seq<EntryId>, x: usize, from: nat) -> Option<nat>
    decreases filter.len() - from,
{
    if from >= filter.len() {
        None
    } else if filter[from as int].0 > x {
        Some(from)
    } else {
        first_after(filter, x, from + 1)
    }
}

/// The first position at or after `from` that holds entry `x`.
pub open spec fn position_of(rows: Seq<EntryId>, x: usize, from: nat) -> Option<nat>
    decreases rows.len() - from,
{
    if from >= rows.len() {
        None
    } else if rows[from as int].0 == x {
        Some(from)
    } else {
        position_of(rows, x, from + 1)
    }
}

/// A found position lies within the rows and holds the entry looked for.
pub proof fn lemma_position_of(rows: Seq<EntryId>, x: usize, from: nat)
    ensures
        position_of(rows, x, from) matches Some(q) ==> from <= q < rows.len() && rows[q as int].0 == x,
    decreases rows.len() - from,
{
    if from < rows.len() && rows[from as int].0 != x {
        lemma_position_of(rows, x, from + 1);
    }
}

/// The selected entry to move to from the row `current`: past the last
/// selected entry, the third one from the end; otherwise the first selected
/// entry after the current row's entry, or, backwards, the one two places
/// before it.
pub open spec fn filter_target(
    filter: Seq<EntryId>,
    entries_rendered: Seq<EntryId>,
    current: nat,
    dir: Direction,
) -> Option<usize> {
    match first_after(filter, entries_rendered[current as int].0, 0) {
        None => if filter.len() >= 3 {
            Some(filter[filter.len() - 3].0)
        } else {
            None
        },
        Some(p) => match dir {
            Direction::Forward => Some(filter[p as int].0),
            Direction::Backward => Some(filter[if p >= 2 { p - 2 } else { 0 }].0),
        },
    }
}

/// The row that shows the target entry (the first row when none does), or
/// `None` when there is no target.
pub open spec fn next_row(
    filter: Seq<EntryId>,
    entries_rendered: Seq<EntryId>,
    current: nat,
    dir: Direction,
) -> Option<usize> {
    match filter_target(filter, entries_rendered, current, dir) {
        None => None,
        Some(target) => Some(
            match position_of(entries_rendered, target, 0) {
                Some(q) => q as usize,
                None => 0,
            },
        ),
    }
}

/// The row to move to when stepping through the filter's selection from row
/// `current`, where `entries_rendered` lists the entry shown on each row:
/// the row of the target entry, or the first row when no row shows it;
/// `None` when there is no target.
pub fn filter_next(
    filter: &Vec<EntryId>,
    entries_rendered: &Vec<EntryId>,
    current: usize,
    dir: Direction,
) -> (row: Option<usize>)
    requires
        current < entries_rendered.len(),
    ensures
        row == next_row(filter@, entries_rendered@, current as nat, dir),
{
    let current_index = entries_rendered[current].0;
    let mut last_p: Option<usize> = None;
    let mut i: usize = 0;
    while i < filter.len()
        invariant_except_break
            last_p is None,
        invariant
            i <= filter.len(),
            first_after(filter@, current_index, 0) == first_after(filter@, current_index, i as nat),
        ensures
            match last_p {
                Some(k) => k < filter.len() && first_after(filter@, current_index, 0) == Some(k as nat),
                None => first_after(filter@, current_index, 0) is None,
            },
        decreases filter.len() - i,
    {
        if filter[i].0 > current_index {
            last_p = Some(i);
            break;
        }
        i = i + 1;
    }
    let pos = match last_p {
        None => if filter.len() >= 3 {
            Some(filter[filter.len() - 3].0)
        } else {
            None
        },
        Some(id) => match dir {
            Direction::Forward => Some(filter[id].0),
            Direction::Backward => Some(filter[id.saturating_sub(2)].0),
        },
    };
    match pos {
        None => None,
        Some(target) => {
            let mut p: usize = 0;
            let mut j: usize = 0;
            while j < entries_rendered.len()
                invariant_except_break
                    p == 0,
                invariant
                    j <= entries_rendered.len(),
                    position_of(entries_rendered@, target, 0) == position_of(entries_rendered@, target, j as nat),
                ensures
                    p == match position_of(entries_rendered@, target, 0) {
                        Some(q) => q as usize,
                        None => 0,
                    },
                decreases entries_rendered.len() - j,
            {
                if entries_rendered[j].0 == target {
                    p = j;
                    break;
                }
                j = j + 1;
            }
            Some(p)
        },
    }
}

proof fn lemma_first_after_next(filter: Seq<EntryId>, j: int, from: nat)
    requires
        0 <= j,
        0 <= from <= j + 1,
        j + 1 < filter.len(),
        forall|a: int, b: int| 0 <= a < b < filter.len() ==> #[trigger] filter[a].0 < #[trigger] filter[b].0,
    ensures
        first_after(filter, filter[j].0, from) == Some((j + 1) as nat),
    decreases j + 1 - from,
{
    if from < j + 1 {
        if from < j {
            assert(filter[from as int].0 < filter[j].0);
        }
        lemma_first_after_next(filter, j, from + 1);
    } else {
        assert(filter[j].0 < filter[j + 1].0);
    }
}

proof fn lemma_position_found(rows: Seq<EntryId>, x: usize, q: int, from: nat)
    requires
        from <= q < rows.len(),
        rows[q].0 == x,
    ensures
        position_of(rows, x, from) is Some,
    decreases rows.len() - from,
{
    if rows[from as int].0 != x {
        lemma_position_found(rows, x, q, from + 1);
    }
}

/// Law: when the selection lists entries in strictly increasing order, and
/// the current row shows the selected entry `filter[j]` with another
/// selected entry after it, stepping forward moves to the row that shows
/// `filter[j + 1]` and stepping backward to the row that shows
/// `filter[j - 1]` (or `filter[0]` from the first), provided some row shows it.
pub proof fn lemma_step_to_neighbour(
    filter: Seq<EntryId>,
    rows: Seq<EntryId>,
    current: nat,
    j: int,
)
    requires
        forall|a: int, b: int| 0 <= a < b < filter.len() ==> #[trigger] filter[a].0 < #[trigger] filter[b].0,
        0 <= j,
        j + 1 < filter.len(),
        current < rows.len(),
        rows.len() <= usize::MAX,
        rows[current as int].0 == filter[j].0,
    ensures
        (exists|q: int| 0 <= q < rows.len() && #[trigger] rows[q].0 == filter[j + 1].0) ==> (next_row(
            filter,
            rows,
            current,
            Direction::Forward,
        ) matches Some(r) && r < rows.len() && rows[r as int].0 == filter[j + 1].0),
        (exists|q: int| 0 <= q < rows.len() && #[trigger] rows[q].0 == filter[if j >= 1 { j - 1 } else { 0 }].0)
            ==> (next_row(filter, rows, current, Direction::Backward) matches Some(r) && r < rows.len()
            && rows[r as int].0 == filter[if j >= 1 { j - 1 } else { 0 }].0),
{
    lemma_first_after_next(filter, j, 0);
    let fwd = filter[j + 1].0;
    let bwd = filter[if j >= 1 { j - 1 } else { 0 }].0;
    if exists|q: int| 0 <= q < rows.len() && #[trigger] rows[q].0 == fwd {
        let q = choose|q: int| 0 <= q < rows.len() && #[trigger] rows[q].0 == fwd;
        lemma_position_found(rows, fwd, q, 0);
        lemma_position_of(rows, fwd, 0);
    }
    if exists|q: int| 0 <= q < rows.len() && #[trigger] rows[q].0 == bwd {
        let q = choose|q: int| 0 <= q < rows.len() && #[trigger] rows[q].0 == bwd;
        lemma_position_found(rows, bwd, q, 0);
        lemma_position_of(rows, bwd, 0);
    }
}

proof fn lemma_first_after_none(filter: Seq<EntryId>, x: usize, from: nat)
    requires
        forall|a: int| 0 <= a < filter.len() ==> #[trigger] filter[a].0 <= x,
    ensures
        first_after(filter, x, from) is None,
    decreases filter.len() - from,
{
    if from < filter.len() {
        lemma_first_after_none(filter, x, from + 1);
    }
}

proof fn lemma_position_absent(rows: Seq<EntryId>, x: usize, from: nat)
    requires
        forall|q: int| 0 <= q < rows.len() ==> #[trigger] rows[q].0 != x,
    ensures
        position_of(rows, x, from) is None,
    decreases rows.len() - from,
{
    if from < rows.len() {
        lemma_position_absent(rows, x, from + 1);
    }
}

/// Law: from a row whose entry lies at or after every selected entry, either
/// way goes to the row of the third selected entry from the end, and nowhere
/// when fewer than three entries are selected; and whenever no row shows the
/// target entry, the move goes to the first row.
pub proof fn lemma_step_past_the_end(
    filter: Seq<EntryId>,
    rows: Seq<EntryId>,
    current: nat,
    dir: Direction,
)
    requires
        current < rows.len(),
        rows.len() <= usize::MAX,
        forall|a: int| 0 <= a < filter.len() ==> #[trigger] filter[a].0 <= rows[current as int].0,
    ensures
        filter.len() < 3 ==> next_row(filter, rows, current, dir) is None,
        filter.len() >= 3 ==> (next_row(filter, rows, current, dir) matches Some(r) && (((exists|q: int|
            0 <= q < rows.len() && #[trigger] rows[q].0 == filter[filter.len() - 3].0) ==> r < rows.len()
            && rows[r as int].0 == filter[filter.len() - 3].0) && ((forall|q: int|
            0 <= q < rows.len() ==> #[trigger] rows[q].0 != filter[filter.len() - 3].0) ==> r == 0))),
{
    lemma_first_after_none(filter, rows[current as int].0, 0);
    if filter.len() >= 3 {
        let t = filter[filter.len() - 3].0;
        if exists|q: int| 0 <= q < rows.len() && #[trigger] rows[q].0 == t {
            let q = choose|q: int| 0 <= q < rows.len() && #[trigger] rows[q].0 == t;
            lemma_position_found(rows, t, q, 0);
            lemma_position_of(rows, t, 0);
        } else {
            lemma_position_absent(rows, t, 0);
        }
    }
}

} // verus!
