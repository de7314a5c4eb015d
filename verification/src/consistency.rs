//! Consistency of the store with an evaluator that is a function of the
//! expression and of what its variables are bound to: what an expression is
//! evaluated with depends only on the cells that it reads, and a store in
//! which every value is the evaluation of its expression stays so over an
//! assignment and the propagation of it.

use crate::cell::{Argument, CellIdentifier, Value};
use crate::model::{
    assigned, cell_at, column_stored, dependents_complete, dependents_sound, holds_error,
    is_update_order, lemma_notified_is_reached, lemma_reaches_then_notifies, notifies,
    range_holds_error, reaches, recomputed, rectangle_stored, reference_argument,
    replayed, resolved, row_stored, span, stored, Cells,
};
use crate::reference::{
    expression_cells, expression_references, range_cells, reference_cells, row_cells, rows_cells,
    variables_cells, CellReference,
};
use vstd::prelude::*;

verus! {

/// An evaluator that is a function of the expression and of the scope: the
/// value to store for both.
pub type Evaluator = spec_fn(Seq<char>, Map<Seq<char>, Argument>) -> Value;

/// A cell of the first `rows` rows of a rectangle is among their cells.
proof fn lemma_rows_hold_cell(
    start: CellIdentifier,
    end: CellIdentifier,
    rows: nat,
    col: int,
    row: int,
)
    requires
        start.col <= col <= end.col,
        start.row <= row < start.row + rows,
        rows <= span(start.row, end.row),
    ensures
        rows_cells(start, end, rows).contains(cell_at(col, row)),
    decreases rows,
{
    let before = rows_cells(start, end, (rows - 1) as nat);
    let last = row_cells((start.row + rows - 1) as u32, start.col, end.col);
    if row == start.row + rows - 1 {
        let i = col - start.col;
        assert(last[i] == cell_at(col, row));
        assert((before + last)[before.len() + i] == cell_at(col, row));
    } else {
        lemma_rows_hold_cell(start, end, (rows - 1) as nat, col, row);
        let i = choose|i: int| 0 <= i < before.len() && before[i] == cell_at(col, row);
        assert((before + last)[i] == cell_at(col, row));
    }
}

/// A cell of a rectangle is among the cells of the range.
pub proof fn lemma_range_holds_cell(start: CellIdentifier, end: CellIdentifier, col: int, row: int)
    requires
        start.col <= col <= end.col,
        start.row <= row <= end.row,
    ensures
        range_cells(start, end).contains(cell_at(col, row)),
{
    lemma_rows_hold_cell(start, end, span(start.row, end.row), col, row);
}

/// Whether the two stores hold the same for every cell of `reads`: each
/// such cell is assigned in both or in neither, and with the same value.
pub open spec fn agree_on(first: Cells, second: Cells, reads: Seq<CellIdentifier>) -> bool {
    forall|id: CellIdentifier| #[trigger]
        reads.contains(id) ==> {
            &&& first.contains_key(id) == second.contains_key(id)
            &&& first.contains_key(id) ==> first[id].value == second[id].value
        }
}

/// Stores that agree on a cell hold the same value for it, and it holds an
/// error in both or in neither.
pub proof fn lemma_agree_stored(
    first: Cells,
    second: Cells,
    reads: Seq<CellIdentifier>,
    id: CellIdentifier,
)
    requires
        agree_on(first, second, reads),
        reads.contains(id),
    ensures
        stored(first, id) == stored(second, id),
        holds_error(first, id) == holds_error(second, id),
{
}

/// Stores that agree on the cells of a reference bind it to the same.
pub proof fn lemma_agree_argument(
    first: Cells,
    second: Cells,
    reads: Seq<CellIdentifier>,
    reference: CellReference,
)
    requires
        agree_on(first, second, reads),
        forall|id: CellIdentifier| #[trigger]
            reference_cells(reference).contains(id) ==> reads.contains(id),
    ensures
        reference_argument(first, reference) == reference_argument(second, reference),
{
    match reference {
        CellReference::Cell(cell) => {
            assert(seq![cell][0] == cell);
            assert(reference_cells(reference).contains(cell));
            lemma_agree_stored(first, second, reads, cell);
        },
        CellReference::Range(start, end) => {
            assert forall|col: int, row: int|
                start.col <= col <= end.col && start.row <= row <= end.row implies stored(
                first,
                #[trigger] cell_at(col, row),
            ) == stored(second, cell_at(col, row)) && holds_error(first, cell_at(col, row))
                == holds_error(second, cell_at(col, row)) by {
                lemma_range_holds_cell(start, end, col, row);
                assert(reference_cells(reference).contains(cell_at(col, row)));
                lemma_agree_stored(first, second, reads, cell_at(col, row));
            }
            assert(range_holds_error(first, start, end) == range_holds_error(second, start, end)) by {
                if range_holds_error(first, start, end) {
                    let (col, row) = choose|col: int, row: int|
                        start.col <= col <= end.col && start.row <= row <= end.row && holds_error(
                            first,
                            #[trigger] cell_at(col, row),
                        );
                    assert(holds_error(second, cell_at(col, row)));
                }
                if range_holds_error(second, start, end) {
                    let (col, row) = choose|col: int, row: int|
                        start.col <= col <= end.col && start.row <= row <= end.row && holds_error(
                            second,
                            #[trigger] cell_at(col, row),
                        );
                    assert(holds_error(first, cell_at(col, row)));
                }
            }
            if start.col == end.col {
                let these = column_stored(first, start.col, start.row, end.row);
                let those = column_stored(second, start.col, start.row, end.row);
                assert forall|i: int| 0 <= i < these.len() implies #[trigger] these[i]
                    == those[i] by {
                    let at = cell_at(start.col as int, start.row + i);
                    assert(stored(first, at) == stored(second, at));
                }
                assert(these =~= those);
            } else if start.row == end.row {
                let these = row_stored(first, start.row, start.col, end.col);
                let those = row_stored(second, start.row, start.col, end.col);
                assert forall|i: int| 0 <= i < these.len() implies #[trigger] these[i]
                    == those[i] by {
                    let at = cell_at(start.col + i, start.row as int);
                    assert(stored(first, at) == stored(second, at));
                }
                assert(these =~= those);
            } else {
                let these = rectangle_stored(first, start, end);
                let those = rectangle_stored(second, start, end);
                assert forall|r: int| 0 <= r < these.len() implies #[trigger] these[r]
                    == those[r] by {
                    let this = row_stored(first, (start.row + r) as u32, start.col, end.col);
                    let that = row_stored(second, (start.row + r) as u32, start.col, end.col);
                    assert forall|i: int| 0 <= i < this.len() implies #[trigger] this[i]
                        == that[i] by {
                        let at = cell_at(start.col + i, start.row + r);
                        assert(stored(first, at) == stored(second, at));
                    }
                    assert(this =~= that);
                }
                assert(these =~= those);
            }
        },
    }
}

/// Stores that agree on the cells that a list of variables reads give the
/// variables the same scope.
pub proof fn lemma_agree_resolved(
    first: Cells,
    second: Cells,
    variables: Seq<(Seq<char>, CellReference)>,
)
    requires
        agree_on(first, second, variables_cells(variables)),
    ensures
        resolved(first, variables) == resolved(second, variables),
    decreases variables.len(),
{
    if variables.len() > 0 {
        let all = variables_cells(variables);
        let before = variables_cells(variables.drop_last());
        let last = reference_cells(variables.last().1);
        assert forall|id: CellIdentifier| before.contains(id) implies all.contains(id) by {
            let i = choose|i: int| 0 <= i < before.len() && before[i] == id;
            assert((before + last)[i] == id);
        }
        assert forall|id: CellIdentifier| #[trigger] last.contains(id) implies all.contains(id) by {
            let i = choose|i: int| 0 <= i < last.len() && last[i] == id;
            assert((before + last)[before.len() + i] == id);
        }
        assert(agree_on(first, second, before));
        lemma_agree_resolved(first, second, variables.drop_last());
        lemma_agree_argument(first, second, all, variables.last().1);
    }
}

/// Whether the value of the cell is what the evaluator gives for its
/// expression and for what the store binds the variables of it to.
pub open spec fn evaluated(cells: Cells, id: CellIdentifier, evaluator: Evaluator) -> bool {
    cells[id].value == evaluator(
        cells[id].expression,
        resolved(cells, expression_references(cells[id].expression)),
    )
}

/// Whether every assigned cell holds the evaluation of its expression.
pub open spec fn settled(cells: Cells, evaluator: Evaluator) -> bool {
    forall|id: CellIdentifier| #[trigger] cells.contains_key(id) ==> evaluated(cells, id, evaluator)
}

/// Whether the dependencies of every assigned cell are the cells that its
/// expression reads.
pub open spec fn reads_what_it_names(cells: Cells) -> bool {
    forall|id: CellIdentifier| #[trigger]
        cells.contains_key(id) ==> cells[id].dependencies == expression_cells(
            cells[id].expression,
        )
}

/// Whether no cell is reached by a change of itself.
pub open spec fn acyclic(cells: Cells) -> bool {
    forall|id: CellIdentifier| !#[trigger] reaches(cells, id, id)
}

/// Whether each recomputation gave what the evaluator gives for the
/// expression of its cell in the store as it was then, and began after the
/// cell was last written.
pub open spec fn recomputed_purely(
    cells: Cells,
    order: Seq<CellIdentifier>,
    results: Seq<(Value, u64)>,
    evaluator: Evaluator,
) -> bool {
    forall|k: int|
        0 <= k < order.len() ==> {
            let now = replayed(cells, order.take(k), results.take(k));
            &&& (#[trigger] results[k]).0 == evaluator(
                now[order[k]].expression,
                resolved(now, expression_references(now[order[k]].expression)),
            )
            &&& results[k].1 > now[order[k]].last_update_time
        }
}

/// What a change reaches is assigned.
pub proof fn lemma_reached_is_assigned(cells: Cells, origin: CellIdentifier, id: CellIdentifier)
    requires
        dependents_sound(cells),
        reaches(cells, origin, id),
    ensures
        cells.contains_key(id),
{
    let before = crate::model::lemma_reached_is_notified(cells, origin, id);
    assert(notifies(cells, before, id));
}

/// Whether the two stores hold, apart from `cell`, the same cells with the
/// same values, expressions and dependencies.
pub open spec fn differ_only_at(first: Cells, second: Cells, cell: CellIdentifier) -> bool {
    forall|id: CellIdentifier|
        id != cell ==> {
            &&& #[trigger] first.contains_key(id) == second.contains_key(id)
            &&& first.contains_key(id) ==> {
                &&& second[id].value == first[id].value
                &&& second[id].expression == first[id].expression
                &&& second[id].dependencies == first[id].dependencies
            }
        }
}

/// A change of one cell does not change what an expression is evaluated
/// with, unless the expression reads the changed cell.
pub proof fn lemma_change_elsewhere(
    first: Cells,
    second: Cells,
    changed: CellIdentifier,
    variables: Seq<(Seq<char>, CellReference)>,
)
    requires
        differ_only_at(first, second, changed),
        !variables_cells(variables).contains(changed),
    ensures
        resolved(first, variables) == resolved(second, variables),
{
    let reads = variables_cells(variables);
    assert forall|read: CellIdentifier| #[trigger] reads.contains(read) implies {
        &&& first.contains_key(read) == second.contains_key(read)
        &&& first.contains_key(read) ==> first[read].value == second[read].value
    } by {
        assert(read != changed);
        assert(first.contains_key(read) == second.contains_key(read));
    }
    lemma_agree_resolved(first, second, variables);
}

/// In a store in which every reader is recorded as a dependent of what it
/// reads, and without cycles, no cell reads itself.
pub proof fn lemma_reads_not_itself(cells: Cells, id: CellIdentifier)
    requires
        dependents_complete(cells),
        acyclic(cells),
        cells.contains_key(id),
    ensures
        !cells[id].dependencies.contains(id),
{
    if cells[id].dependencies.contains(id) {
        assert(notifies(cells, id, id));
        lemma_notified_is_reached(cells, id, id);
    }
}

/// The store when the first `done` cells of an order have been recomputed.
pub open spec fn replayed_until(
    cells: Cells,
    order: Seq<CellIdentifier>,
    results: Seq<(Value, u64)>,
    done: int,
) -> Cells {
    replayed(cells, order.take(done), results.take(done))
}

/// While the cells that a change reaches are recomputed in order, each
/// purely and each written, every cell of the order that is not still to be
/// recomputed holds the evaluation of its expression, and a cell outside
/// the order holds it if it did before.
proof fn lemma_settling(
    cells: Cells,
    origin: CellIdentifier,
    order: Seq<CellIdentifier>,
    results: Seq<(Value, u64)>,
    evaluator: Evaluator,
    done: int,
)
    requires
        dependents_sound(cells),
        dependents_complete(cells),
        reads_what_it_names(cells),
        acyclic(cells),
        is_update_order(cells, origin, order),
        results.len() == order.len(),
        recomputed_purely(cells, order, results, evaluator),
        0 <= done <= order.len(),
    ensures
        forall|id: CellIdentifier|
            cells.contains_key(id) && !order.skip(done).contains(id) ==> #[trigger] evaluated(
                replayed_until(cells, order, results, done),
                id,
                evaluator,
            ) == (order.contains(id) || evaluated(cells, id, evaluator)),
    decreases done,
{
    let now = replayed_until(cells, order, results, done);
    if done == 0 {
        assert(order.take(0) =~= Seq::<CellIdentifier>::empty());
        assert(now == cells);
        assert(order.skip(0) =~= order);
    } else {
        let k = done - 1;
        let then = replayed_until(cells, order, results, k);
        let cell = order[k];
        lemma_settling(cells, origin, order, results, evaluator, k);
        crate::model::lemma_replayed(cells, order.take(k), results.take(k));
        // the step from `then` to `now`
        assert(order.take(done).drop_last() =~= order.take(k));
        assert(results.take(done).drop_last() =~= results.take(k));
        assert(order.take(done).last() == cell);
        assert(results.take(done).last() == results[k]);
        assert(now == recomputed(then, cell, results[k].0, results[k].1));
        assert(order.contains(cell));
        lemma_reached_is_assigned(cells, origin, cell);
        assert(then.dom().contains(cell));
        assert(then.contains_key(cell));
        assert(differ_only_at(then, now, cell));
        assert forall|id: CellIdentifier|
            cells.contains_key(id) && !order.skip(done).contains(id) implies #[trigger] evaluated(
            now,
            id,
            evaluator,
        ) == (order.contains(id) || evaluated(cells, id, evaluator)) by {
            assert(then.dom().contains(id));
            assert(then.contains_key(id));
            let variables = expression_references(then[id].expression);
            assert(variables_cells(variables) == cells[id].dependencies);
            assert(then[id].dependencies == cells[id].dependencies);
            // no cell that `id` reads is the one recomputed
            assert(!cells[id].dependencies.contains(cell)) by {
                if cells[id].dependencies.contains(cell) {
                    lemma_step_is_late(cells, origin, order, k, id, done);
                }
            }
            lemma_change_elsewhere(then, now, cell, variables);
            if id == cell {
                assert(now[cell].value == results[k].0);
            } else {
                assert(order.skip(k) =~= seq![cell] + order.skip(done));
                assert(!order.skip(k).contains(id)) by {
                    if order.skip(k).contains(id) {
                        let i = choose|i: int| 0 <= i < order.skip(k).len() && order.skip(k)[i] == id;
                        assert(i > 0);
                        assert(order.skip(done)[i - 1] == id);
                    }
                }
                assert(evaluated(then, id, evaluator) == (order.contains(id) || evaluated(
                    cells,
                    id,
                    evaluator,
                )));
                assert(now[id] == then[id]);
            }
        }
    }
}

/// A cell that reads the cell recomputed at step `step` is itself
/// recomputed later: it cannot be past, nor be the cell of the step.
proof fn lemma_step_is_late(
    cells: Cells,
    origin: CellIdentifier,
    order: Seq<CellIdentifier>,
    step: int,
    reader: CellIdentifier,
    done: int,
)
    requires
        dependents_sound(cells),
        dependents_complete(cells),
        acyclic(cells),
        is_update_order(cells, origin, order),
        0 <= step < order.len(),
        done == step + 1,
        cells.contains_key(reader),
        cells[reader].dependencies.contains(order[step]),
    ensures
        order.skip(done).contains(reader),
{
    let cell = order[step];
    assert(order.contains(cell));
    lemma_reached_is_assigned(cells, origin, cell);
    assert(notifies(cells, cell, reader));
    lemma_reaches_then_notifies(cells, origin, cell, reader);
    assert(order.contains(reader));
    let at = choose|at: int| 0 <= at < order.len() && order[at] == reader;
    assert(notifies(cells, order[step], order[at]));
    if at <= step {
        assert(reaches(cells, order[at], order[step]));
        lemma_reaches_then_notifies(cells, reader, cell, reader);
        assert(reaches(cells, reader, reader));
    }
    assert(order.skip(done)[at - done] == reader);
}

/// Whether every assigned cell either holds the evaluation of its
/// expression or is reached by a change that waits to be propagated.
pub open spec fn awaited(cells: Cells, pending: Seq<CellIdentifier>, evaluator: Evaluator) -> bool {
    forall|id: CellIdentifier| #[trigger]
        cells.contains_key(id) ==> evaluated(cells, id, evaluator) || is_reached(
            cells,
            pending,
            id,
        )
}

/// Whether one of the changes that wait reaches the cell.
pub open spec fn is_reached(cells: Cells, pending: Seq<CellIdentifier>, id: CellIdentifier) -> bool {
    exists|i: int| 0 <= i < pending.len() && reaches(cells, #[trigger] pending[i], id)
}

/// An assignment keeps every notification but those of the assigned cell by
/// the cells that it read.
proof fn lemma_assignment_keeps_notifications(
    before: Cells,
    cell: CellIdentifier,
    value: Value,
    expression: Seq<char>,
    dependencies: Seq<CellIdentifier>,
    time: u64,
    producer: CellIdentifier,
    consumer: CellIdentifier,
)
    requires
        notifies(before, producer, consumer),
        consumer != cell,
    ensures
        notifies(
            assigned(before, cell, value, expression, dependencies, time),
            producer,
            consumer,
        ),
{
}

/// What a cell reached before an assignment, it reaches after it, or the
/// assigned cell does.
proof fn lemma_reached_after_assignment(
    before: Cells,
    cell: CellIdentifier,
    value: Value,
    expression: Seq<char>,
    dependencies: Seq<CellIdentifier>,
    time: u64,
    path: Seq<CellIdentifier>,
)
    requires
        crate::model::is_path(before, path),
        path.last() != cell,
    ensures
        reaches(assigned(before, cell, value, expression, dependencies, time), path[0], path.last())
            || reaches(
            assigned(before, cell, value, expression, dependencies, time),
            cell,
            path.last(),
        ),
    decreases path.len(),
{
    let after = assigned(before, cell, value, expression, dependencies, time);
    let n = path.len() as int;
    let to = path[n - 1];
    let through = path[n - 2];
    assert(notifies(before, path[n - 2], path[n - 2 + 1]));
    lemma_assignment_keeps_notifications(
        before,
        cell,
        value,
        expression,
        dependencies,
        time,
        through,
        to,
    );
    lemma_notified_is_reached(after, through, to);
    if through != cell && n > 2 {
        let shorter = path.drop_last();
        assert forall|i: int| 0 <= i < shorter.len() - 1 implies notifies(
            before,
            #[trigger] shorter[i],
            shorter[i + 1],
        ) by {
            assert(notifies(before, path[i], path[i + 1]));
        }
        assert(shorter.last() == through);
        lemma_reached_after_assignment(
            before,
            cell,
            value,
            expression,
            dependencies,
            time,
            shorter,
        );
        if reaches(after, path[0], through) {
            lemma_reaches_then_notifies(after, path[0], through, to);
        } else {
            lemma_reaches_then_notifies(after, cell, through, to);
        }
    }
}

/// Where no change waits, every cell holds the evaluation of its
/// expression.
pub proof fn law_nothing_awaited(cells: Cells, evaluator: Evaluator)
    ensures
        awaited(cells, Seq::empty(), evaluator) == settled(cells, evaluator),
{
}

/// An assignment is awaited. Take a store in which every cell holds the
/// evaluation of its expression or is reached by a change that waits, with
/// the evaluator a function of the expression and of what its variables are
/// bound to. Assign an expression to a cell, with the evaluation of it as
/// the value, and let the change wait with the others. Then again every
/// cell holds the evaluation of its expression or is reached by a change
/// that waits, provided that after the assignment every reader is recorded
/// as a dependent of what it reads and that no cell is reached by a change
/// of itself.
pub proof fn law_assignment_is_awaited(
    before: Cells,
    pending: Seq<CellIdentifier>,
    cell: CellIdentifier,
    expression: Seq<char>,
    time: u64,
    evaluator: Evaluator,
)
    requires
        reads_what_it_names(before),
        awaited(before, pending, evaluator),
        ({
            let after = assigned(
                before,
                cell,
                evaluator(expression, resolved(before, expression_references(expression))),
                expression,
                expression_cells(expression),
                time,
            );
            &&& dependents_complete(after)
            &&& acyclic(after)
        }),
    ensures
        awaited(
            assigned(
                before,
                cell,
                evaluator(expression, resolved(before, expression_references(expression))),
                expression,
                expression_cells(expression),
                time,
            ),
            pending.push(cell),
            evaluator,
        ),
        reads_what_it_names(
            assigned(
                before,
                cell,
                evaluator(expression, resolved(before, expression_references(expression))),
                expression,
                expression_cells(expression),
                time,
            ),
        ),
{
    let value = evaluator(expression, resolved(before, expression_references(expression)));
    let after = assigned(before, cell, value, expression, expression_cells(expression), time);
    let longer = pending.push(cell);
    assert(differ_only_at(before, after, cell));
    assert(after.contains_key(cell));
    assert(longer[pending.len() as int] == cell);
    assert forall|id: CellIdentifier| #[trigger] after.contains_key(id) implies after[id].dependencies
        == expression_cells(after[id].expression) by {
        if id != cell {
            assert(before.contains_key(id));
        }
    }
    assert forall|id: CellIdentifier| #[trigger] after.contains_key(id) implies evaluated(
        after,
        id,
        evaluator,
    ) || is_reached(after, longer, id) by {
        if reaches(after, cell, id) {
            assert(reaches(after, longer[pending.len() as int], id));
        } else if id == cell {
            let variables = expression_references(expression);
            assert(variables_cells(variables) == after[cell].dependencies);
            lemma_reads_not_itself(after, cell);
            lemma_change_elsewhere(before, after, cell, variables);
        } else if evaluated(before, id, evaluator) {
            assert(before.contains_key(id));
            let variables = expression_references(before[id].expression);
            assert(variables_cells(variables) == before[id].dependencies);
            assert(after[id].dependencies == before[id].dependencies);
            if variables_cells(variables).contains(cell) {
                assert(notifies(after, cell, id));
                lemma_notified_is_reached(after, cell, id);
            }
            lemma_change_elsewhere(before, after, cell, variables);
        } else {
            assert(before.contains_key(id));
            let i = choose|i: int| 0 <= i < pending.len() && reaches(before, #[trigger] pending[i], id);
            let path = choose|path: Seq<CellIdentifier>| #[trigger]
                crate::model::is_path(before, path) && path[0] == pending[i] && path.last() == id;
            lemma_reached_after_assignment(
                before,
                cell,
                value,
                expression,
                expression_cells(expression),
                time,
                path,
            );
            assert(reaches(after, longer[i], id));
        }
    }
}

/// When the cells that a change reaches have all been recomputed in order,
/// each purely and each written, every one of them holds the evaluation of
/// its expression, and any other cell holds it if it did before.
proof fn lemma_settled(
    cells: Cells,
    origin: CellIdentifier,
    order: Seq<CellIdentifier>,
    results: Seq<(Value, u64)>,
    evaluator: Evaluator,
)
    requires
        dependents_sound(cells),
        dependents_complete(cells),
        reads_what_it_names(cells),
        acyclic(cells),
        is_update_order(cells, origin, order),
        results.len() == order.len(),
        recomputed_purely(cells, order, results, evaluator),
    ensures
        forall|id: CellIdentifier|
            cells.contains_key(id) ==> #[trigger] evaluated(
                replayed(cells, order, results),
                id,
                evaluator,
            ) == (order.contains(id) || evaluated(cells, id, evaluator)),
{
    lemma_settling(cells, origin, order, results, evaluator, order.len() as int);
    assert(order.take(order.len() as int) =~= order);
    assert(results.take(order.len() as int) =~= results);
    assert(order.skip(order.len() as int) =~= Seq::<CellIdentifier>::empty());
    assert(replayed_until(cells, order, results, order.len() as int) == replayed(
        cells,
        order,
        results,
    ));
}

/// A cell that one of several changes reaches, but not the first of them,
/// is reached by one of the others, in any store of the same structure.
proof fn lemma_reached_by_the_rest(
    cells: Cells,
    last: Cells,
    pending: Seq<CellIdentifier>,
    id: CellIdentifier,
)
    requires
        crate::model::same_structure(cells, last),
        pending.len() > 0,
        is_reached(cells, pending, id),
        !reaches(cells, pending[0], id),
    ensures
        is_reached(last, pending.drop_first(), id),
{
    let rest = pending.drop_first();
    let i = choose|i: int| 0 <= i < pending.len() && reaches(cells, #[trigger] pending[i], id);
    assert(i > 0);
    crate::model::lemma_same_structure_reaches(cells, last, pending[i], id);
    assert(rest[i - 1] == pending[i]);
    assert(reaches(last, rest[i - 1], id));
}

/// A propagation serves the change that waited longest. Take a store in
/// which every cell holds the evaluation of its expression or is reached by
/// a change that waits. Recompute the cells that the first of the changes
/// reaches, in an order of recomputation, each with the evaluation of its
/// expression in the store as it is then, and each beginning after its cell
/// was last written. Then every cell holds the evaluation of its expression
/// or is reached by one of the other changes, provided that every reader is
/// recorded as a dependent of what it reads and that no cell is reached by
/// a change of itself. So when no change is left, every cell holds the
/// evaluation of its expression.
pub proof fn law_propagation_serves(
    cells: Cells,
    pending: Seq<CellIdentifier>,
    order: Seq<CellIdentifier>,
    results: Seq<(Value, u64)>,
    evaluator: Evaluator,
)
    requires
        dependents_sound(cells),
        dependents_complete(cells),
        reads_what_it_names(cells),
        acyclic(cells),
        awaited(cells, pending, evaluator),
        pending.len() > 0,
        is_update_order(cells, pending[0], order),
        results.len() == order.len(),
        recomputed_purely(cells, order, results, evaluator),
    ensures
        awaited(replayed(cells, order, results), pending.drop_first(), evaluator),
        pending.len() == 1 ==> settled(replayed(cells, order, results), evaluator),
        reads_what_it_names(replayed(cells, order, results)),
{
    let last = replayed(cells, order, results);
    let rest = pending.drop_first();
    lemma_settled(cells, pending[0], order, results, evaluator);
    crate::model::lemma_replayed(cells, order, results);
    assert forall|id: CellIdentifier| #[trigger] last.contains_key(id) implies evaluated(
        last,
        id,
        evaluator,
    ) || is_reached(last, rest, id) by {
        assert(cells.dom().contains(id));
        assert(cells.contains_key(id));
        assert(evaluated(last, id, evaluator) == (order.contains(id) || evaluated(
            cells,
            id,
            evaluator,
        )));
        if !order.contains(id) && !evaluated(cells, id, evaluator) {
            assert(is_reached(cells, pending, id));
            assert(!reaches(cells, pending[0], id));
            lemma_reached_by_the_rest(cells, last, pending, id);
        }
    }
    assert forall|id: CellIdentifier| #[trigger] last.contains_key(id) implies last[id].dependencies
        == expression_cells(last[id].expression) by {
        assert(cells.dom().contains(id));
        assert(cells.contains_key(id));
    }
    if pending.len() == 1 {
        assert forall|id: CellIdentifier| #[trigger] last.contains_key(id) implies evaluated(
            last,
            id,
            evaluator,
        ) by {
            assert(!is_reached(last, rest, id));
        }
    }
}

} // verus!
