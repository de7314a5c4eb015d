//! What holds of every spreadsheet, stated over the store as mathematics:
//! of the relation between dependencies and dependents, of the times of
//! writes, and of assignments that follow one another.

use crate::cell::{CellIdentifier, Value};
use crate::model::{
    assigned, dependents_complete, dependents_sound, notifies, reads_error, recomputed, shown,
    CellRecord, Cells,
};
use vstd::prelude::*;

verus! {

/// Whether an assigned cell reads `cell`.
pub open spec fn is_read(cells: Cells, cell: CellIdentifier) -> bool {
    exists|reader: CellIdentifier|
        cells.contains_key(reader) && #[trigger] cells[reader].dependencies.contains(cell)
}

/// In a store without cells every dependent is recorded, and soundly.
pub proof fn law_empty_store_is_linked()
    ensures
        dependents_sound(Map::<CellIdentifier, CellRecord>::empty()),
        dependents_complete(Map::<CellIdentifier, CellRecord>::empty()),
{
}

/// Dependencies and dependents agree after an assignment exactly where
/// they can. In a store in which every assigned cell is recorded as a
/// dependent of each assigned cell that it reads, an assignment keeps that
/// so if and only if the cell does not read itself and, where it is
/// assigned for the first time, no cell reads it yet. A cell that reads
/// itself is never its own dependent, and a cell that was read before it
/// was first assigned begins without dependents.
pub proof fn law_assignment_links_dependents(
    cells: Cells,
    cell: CellIdentifier,
    value: Value,
    expression: Seq<char>,
    dependencies: Seq<CellIdentifier>,
    time: u64,
)
    requires
        dependents_sound(cells),
        dependents_complete(cells),
    ensures
        dependents_complete(assigned(cells, cell, value, expression, dependencies, time)) <==> {
            &&& !dependencies.contains(cell)
            &&& cells.contains_key(cell) || !is_read(cells, cell)
        },
{
    let after = assigned(cells, cell, value, expression, dependencies, time);
    if dependencies.contains(cell) {
        // the cell reads itself, and is not among its own dependents
        assert(after.contains_key(cell));
        assert(after[cell].dependencies.contains(cell));
        if after[cell].dependents.contains(cell) {
            assert(notifies(cells, cell, cell));
        }
        assert(!dependents_complete(after));
    } else if !cells.contains_key(cell) && is_read(cells, cell) {
        // a cell that read it before it was assigned is not recorded
        let reader = choose|reader: CellIdentifier|
            cells.contains_key(reader) && #[trigger] cells[reader].dependencies.contains(cell);
        assert(after.contains_key(reader) && after.contains_key(cell));
        assert(after[reader].dependencies.contains(cell));
        assert(!after[cell].dependents.contains(reader));
        assert(!dependents_complete(after));
    } else {
        assert forall|consumer: CellIdentifier, producer: CellIdentifier|
            after.contains_key(consumer) && after.contains_key(producer)
                && #[trigger] after[consumer].dependencies.contains(
                producer,
            ) implies after[producer].dependents.contains(consumer) by {
            if consumer == cell {
                assert(producer != cell);
                assert(cells.contains_key(producer));
            } else if producer == cell {
                assert(cells[consumer].dependencies.contains(cell));
                assert(cells.contains_key(cell));
                assert(cells[cell].dependents.contains(consumer));
            } else {
                assert(cells[consumer].dependencies.contains(producer));
                assert(cells[producer].dependents.contains(consumer));
            }
        }
    }
}

/// After an assignment the cell is a dependent of every other assigned
/// cell that its expression reads.
pub proof fn law_assignment_records_cell(
    cells: Cells,
    cell: CellIdentifier,
    value: Value,
    expression: Seq<char>,
    dependencies: Seq<CellIdentifier>,
    time: u64,
    read: CellIdentifier,
)
    requires
        dependencies.contains(read),
        cells.contains_key(read),
        read != cell,
    ensures
        assigned(cells, cell, value, expression, dependencies, time)[read].dependents.contains(
            cell,
        ),
{
}

/// A recomputation changes neither dependencies nor dependents.
pub proof fn law_recomputation_keeps_links(
    cells: Cells,
    cell: CellIdentifier,
    value: Value,
    time: u64,
)
    ensures
        dependents_sound(recomputed(cells, cell, value, time)) == dependents_sound(cells),
        dependents_complete(recomputed(cells, cell, value, time)) == dependents_complete(cells),
{
    let after = recomputed(cells, cell, value, time);
    assert forall|u: CellIdentifier, v: CellIdentifier|
        notifies(cells, u, v) == notifies(after, u, v) by {}
    assert forall|id: CellIdentifier|
        cells.contains_key(id) == after.contains_key(id) && (cells.contains_key(id)
            ==> #[trigger] after[id].dependencies == cells[id].dependencies
            && after[id].dependents == cells[id].dependents) by {}
    if dependents_sound(cells) {
        assert forall|producer: CellIdentifier, consumer: CellIdentifier| #[trigger]
            notifies(after, producer, consumer) implies after.contains_key(consumer) && consumer
            != producer && after[consumer].dependencies.contains(producer) by {
            assert(notifies(cells, producer, consumer));
        }
    }
    if dependents_sound(after) {
        assert forall|producer: CellIdentifier, consumer: CellIdentifier| #[trigger]
            notifies(cells, producer, consumer) implies cells.contains_key(consumer) && consumer
            != producer && cells[consumer].dependencies.contains(producer) by {
            assert(notifies(after, producer, consumer));
        }
    }
    if dependents_complete(cells) {
        assert forall|consumer: CellIdentifier, producer: CellIdentifier|
            after.contains_key(consumer) && after.contains_key(producer)
                && #[trigger] after[consumer].dependencies.contains(
                producer,
            ) implies after[producer].dependents.contains(consumer) by {
            assert(cells[consumer].dependencies.contains(producer));
        }
    }
    if dependents_complete(after) {
        assert forall|consumer: CellIdentifier, producer: CellIdentifier|
            cells.contains_key(consumer) && cells.contains_key(producer)
                && #[trigger] cells[consumer].dependencies.contains(
                producer,
            ) implies cells[producer].dependents.contains(consumer) by {
            assert(after[consumer].dependencies.contains(producer));
        }
    }
}

/// A recomputation never moves the time of a last write back: the time of
/// its cell stays or grows, and no other time changes.
pub proof fn law_recomputation_writes_forward(
    cells: Cells,
    cell: CellIdentifier,
    value: Value,
    time: u64,
    id: CellIdentifier,
)
    requires
        cells.contains_key(id),
    ensures
        recomputed(cells, cell, value, time)[id].last_update_time >= cells[id].last_update_time,
        id != cell ==> recomputed(cells, cell, value, time)[id] == cells[id],
{
}

/// An assignment writes the time at which it began, and changes no other
/// time. So it moves no time back if it began no earlier than its cell was
/// last written.
pub proof fn law_assignment_writes_forward(
    cells: Cells,
    cell: CellIdentifier,
    value: Value,
    expression: Seq<char>,
    dependencies: Seq<CellIdentifier>,
    time: u64,
    id: CellIdentifier,
)
    requires
        cells.contains_key(id),
        cells.contains_key(cell) ==> time >= cells[cell].last_update_time,
    ensures
        assigned(cells, cell, value, expression, dependencies, time)[cell].last_update_time
            == time,
        assigned(cells, cell, value, expression, dependencies, time)[id].last_update_time
            >= cells[id].last_update_time,
{
}

/// A recomputation that began no later than its cell was last written is
/// dropped: the store stays as it is, however late the recomputation ends.
pub proof fn law_stale_recomputation_is_dropped(
    cells: Cells,
    cell: CellIdentifier,
    value: Value,
    time: u64,
)
    requires
        cells.contains_key(cell) ==> time <= cells[cell].last_update_time,
    ensures
        recomputed(cells, cell, value, time) == cells,
{
}

/// Of two assignments to a cell the later commit stays: where the commits
/// follow the order of the times at which the assignments began, the cell
/// holds the value of the assignment that began later.
pub proof fn law_last_assignment_wins(
    cells: Cells,
    cell: CellIdentifier,
    first_value: Value,
    first_expression: Seq<char>,
    first_dependencies: Seq<CellIdentifier>,
    first_time: u64,
    second_value: Value,
    second_expression: Seq<char>,
    second_dependencies: Seq<CellIdentifier>,
    second_time: u64,
)
    requires
        first_time <= second_time,
    ensures
        ({
            let between = assigned(
                cells,
                cell,
                first_value,
                first_expression,
                first_dependencies,
                first_time,
            );
            let after = assigned(
                between,
                cell,
                second_value,
                second_expression,
                second_dependencies,
                second_time,
            );
            &&& after[cell].value == second_value
            &&& after[cell].expression == second_expression
            &&& after[cell].last_update_time == second_time
            &&& after[cell].last_update_time >= between[cell].last_update_time
        }),
{
}

/// A read after an assignment shows the assigned value, unless a cell that
/// the expression reads holds an error; in particular whenever the
/// expression reads no cell.
pub proof fn law_read_after_assignment(
    cells: Cells,
    cell: CellIdentifier,
    value: Value,
    expression: Seq<char>,
    dependencies: Seq<CellIdentifier>,
    time: u64,
)
    ensures
        ({
            let after = assigned(cells, cell, value, expression, dependencies, time);
            &&& !reads_error(after, cell) ==> shown(after, cell) == value
            &&& dependencies.len() == 0 ==> shown(after, cell) == value
        }),
{
}

/// To assign twice what was assigned once changes nothing but the time:
/// the store after both assignments is the store after the second alone.
pub proof fn law_assignment_is_idempotent(
    cells: Cells,
    cell: CellIdentifier,
    value: Value,
    expression: Seq<char>,
    dependencies: Seq<CellIdentifier>,
    first_time: u64,
    second_time: u64,
)
    ensures
        assigned(
            assigned(cells, cell, value, expression, dependencies, first_time),
            cell,
            value,
            expression,
            dependencies,
            second_time,
        ) == assigned(cells, cell, value, expression, dependencies, second_time),
{
    let once = assigned(cells, cell, value, expression, dependencies, first_time);
    let twice = assigned(once, cell, value, expression, dependencies, second_time);
    let alone = assigned(cells, cell, value, expression, dependencies, second_time);
    assert forall|id: CellIdentifier| twice.contains_key(id) <==> alone.contains_key(id) by {}
    assert forall|id: CellIdentifier| twice.contains_key(id) implies twice[id] == alone[id] by {
        assert(twice[id].dependents =~= alone[id].dependents);
    }
    assert(twice =~= alone);
}

} // verus!
