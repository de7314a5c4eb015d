//! The spreadsheet as mathematics: a map from cells to records, what a read
//! of it shows, what an assignment and a recomputation make of it, and which
//! cells a change reaches.

use crate::cell::{depends_on_error, Argument, CellIdentifier, Value};
use crate::reference::CellReference;
use vstd::prelude::*;

verus! {

/// What the store keeps of one assigned cell.
pub struct CellRecord {
    /// The value last written.
    pub value: Value,
    /// The source text last assigned.
    pub expression: Seq<char>,
    /// The cells that the expression reads, in the order of the expression,
    /// a cell as often as it is read.
    pub dependencies: Seq<CellIdentifier>,
    /// The cells whose expressions read this one.
    pub dependents: Set<CellIdentifier>,
    /// The time of the last write of the value.
    pub last_update_time: u64,
}

/// The records of all assigned cells.
pub type Cells = Map<CellIdentifier, CellRecord>;

/// The cell in column `col` and row `row`.
pub open spec fn cell_at(col: int, row: int) -> CellIdentifier {
    CellIdentifier { col: col as u32, row: row as u32 }
}

/// Whether the cell is assigned and its stored value is an error.
pub open spec fn holds_error(cells: Cells, id: CellIdentifier) -> bool {
    cells.contains_key(id) && cells[id].value is Error
}

/// Whether one of the cells that `id` reads holds an error.
pub open spec fn reads_error(cells: Cells, id: CellIdentifier) -> bool {
    exists|i: int|
        0 <= i < cells[id].dependencies.len() && holds_error(
            cells,
            #[trigger] cells[id].dependencies[i],
        )
}

/// What a read of the cell shows: nothing for a cell never assigned, the
/// marker of a tainted input where a cell that it reads holds an error, and
/// its stored value otherwise.
pub open spec fn shown(cells: Cells, id: CellIdentifier) -> Value {
    if !cells.contains_key(id) {
        Value::Absent
    } else if reads_error(cells, id) {
        depends_on_error()
    } else {
        cells[id].value
    }
}

/// The value that the store holds for the cell: nothing for a cell never
/// assigned, and the value last written otherwise.
pub open spec fn stored(cells: Cells, id: CellIdentifier) -> Value {
    if cells.contains_key(id) {
        cells[id].value
    } else {
        Value::Absent
    }
}

/// The number of positions from `first` to `last`, both included.
pub open spec fn span(first: u32, last: u32) -> nat {
    if first <= last {
        (last - first + 1) as nat
    } else {
        0
    }
}

/// Whether a cell of the rectangle from `start` to `end` holds an error.
pub open spec fn range_holds_error(
    cells: Cells,
    start: CellIdentifier,
    end: CellIdentifier,
) -> bool {
    exists|col: int, row: int|
        start.col <= col <= end.col && start.row <= row <= end.row && holds_error(
            cells,
            #[trigger] cell_at(col, row),
        )
}

/// The values of the cells of column `col`, from row `first` down to row
/// `last`.
pub open spec fn column_stored(cells: Cells, col: u32, first: u32, last: u32) -> Seq<Value> {
    Seq::new(span(first, last), |i: int| stored(cells, cell_at(col as int, first + i)))
}

/// The values of the cells of row `row`, from column `first` to column
/// `last`.
pub open spec fn row_stored(cells: Cells, row: u32, first: u32, last: u32) -> Seq<Value> {
    Seq::new(span(first, last), |i: int| stored(cells, cell_at(first + i, row as int)))
}

/// The values of the cells of the rectangle from `start` to `end`, row by
/// row.
pub open spec fn rectangle_stored(cells: Cells, start: CellIdentifier, end: CellIdentifier) -> Seq<
    Seq<Value>,
> {
    Seq::new(
        span(start.row, end.row),
        |i: int| row_stored(cells, (start.row + i) as u32, start.col, end.col),
    )
}

/// What a range variable is bound to: the marker of a tainted input where a
/// cell of the range holds an error; else the values of its cells, as a
/// vector for a range within one column or one row, and as a matrix for any
/// other.
pub open spec fn range_argument(cells: Cells, start: CellIdentifier, end: CellIdentifier) -> Argument {
    if range_holds_error(cells, start, end) {
        Argument::Value(depends_on_error())
    } else if start.col == end.col {
        Argument::Vector(column_stored(cells, start.col, start.row, end.row))
    } else if start.row == end.row {
        Argument::Vector(row_stored(cells, start.row, start.col, end.col))
    } else {
        Argument::Matrix(rectangle_stored(cells, start, end))
    }
}

/// What a variable is bound to: the value of the cell for the name of a
/// cell, the argument of the range for the name of a range.
pub open spec fn reference_argument(cells: Cells, reference: CellReference) -> Argument {
    match reference {
        CellReference::Cell(cell) => Argument::Value(stored(cells, cell)),
        CellReference::Range(start, end) => range_argument(cells, start, end),
    }
}

/// The scope that a list of variables gives in the store: each name bound
/// to the argument of what it refers to.
pub open spec fn resolved(cells: Cells, variables: Seq<(Seq<char>, CellReference)>) -> Map<
    Seq<char>,
    Argument,
>
    decreases variables.len(),
{
    if variables.len() == 0 {
        Map::empty()
    } else {
        resolved(cells, variables.drop_last()).insert(
            variables.last().0,
            reference_argument(cells, variables.last().1),
        )
    }
}

/// The store in which `cell` is no longer a dependent of any assigned cell
/// among `targets`.
pub open spec fn unlinked(cells: Cells, targets: Seq<CellIdentifier>, cell: CellIdentifier) -> Cells {
    Map::new(
        |id: CellIdentifier| cells.contains_key(id),
        |id: CellIdentifier|
            if targets.contains(id) {
                CellRecord { dependents: cells[id].dependents.remove(cell), ..cells[id] }
            } else {
                cells[id]
            },
    )
}

/// The store in which `cell` is a dependent of every assigned cell among
/// `targets`.
pub open spec fn linked(cells: Cells, targets: Seq<CellIdentifier>, cell: CellIdentifier) -> Cells {
    Map::new(
        |id: CellIdentifier| cells.contains_key(id),
        |id: CellIdentifier|
            if targets.contains(id) {
                CellRecord { dependents: cells[id].dependents.insert(cell), ..cells[id] }
            } else {
                cells[id]
            },
    )
}

/// The cells that `cell` reads in the store, none if it is not assigned.
pub open spec fn dependencies_of(cells: Cells, cell: CellIdentifier) -> Seq<CellIdentifier> {
    if cells.contains_key(cell) {
        cells[cell].dependencies
    } else {
        Seq::empty()
    }
}

/// The cells that read `cell` in the store, none if it is not assigned.
pub open spec fn dependents_of(cells: Cells, cell: CellIdentifier) -> Set<CellIdentifier> {
    if cells.contains_key(cell) {
        cells[cell].dependents
    } else {
        Set::empty()
    }
}

/// The store after an assignment to `cell`. The cell leaves the dependents
/// of what it read before and joins those of what it reads now, in both
/// cases only where the other cell is assigned; then its record is written
/// anew, with the dependents that it had before the assignment.
pub open spec fn assigned(
    cells: Cells,
    cell: CellIdentifier,
    value: Value,
    expression: Seq<char>,
    dependencies: Seq<CellIdentifier>,
    time: u64,
) -> Cells {
    linked(unlinked(cells, dependencies_of(cells, cell), cell), dependencies, cell).insert(
        cell,
        CellRecord {
            value,
            expression,
            dependencies,
            dependents: dependents_of(cells, cell),
            last_update_time: time,
        },
    )
}

/// The store after a recomputation of `cell` that started at `time` and gave
/// `value`: the value is written only where the cell is assigned and was last
/// written before `time`.
pub open spec fn recomputed(cells: Cells, cell: CellIdentifier, value: Value, time: u64) -> Cells {
    if cells.contains_key(cell) && time > cells[cell].last_update_time {
        cells.insert(cell, CellRecord { value, last_update_time: time, ..cells[cell] })
    } else {
        cells
    }
}

/// Whether the two stores hold the same cells, each with the same
/// expression, dependencies and dependents.
pub open spec fn same_structure(before: Cells, after: Cells) -> bool {
    &&& before.dom() == after.dom()
    &&& forall|id: CellIdentifier| #[trigger]
        before.contains_key(id) ==> {
            &&& after[id].expression == before[id].expression
            &&& after[id].dependencies == before[id].dependencies
            &&& after[id].dependents == before[id].dependents
        }
}

/// Whether no cell of the first store was last written earlier in the
/// second, and every cell whose record differs was last written later.
pub open spec fn written_forward(before: Cells, after: Cells) -> bool {
    forall|id: CellIdentifier| #[trigger]
        before.contains_key(id) && after.contains_key(id) ==> {
            &&& after[id].last_update_time >= before[id].last_update_time
            &&& after[id] == before[id] || after[id].last_update_time
                > before[id].last_update_time
        }
}

/// Whether no cell of the first store was last written earlier in the
/// second.
pub open spec fn never_back(before: Cells, after: Cells) -> bool {
    forall|id: CellIdentifier| #[trigger]
        before.contains_key(id) && after.contains_key(id) ==> after[id].last_update_time
            >= before[id].last_update_time
}

/// Whether no cell was written later than `latest`.
pub open spec fn written_by(cells: Cells, latest: u64) -> bool {
    forall|id: CellIdentifier| #[trigger]
        cells.contains_key(id) ==> cells[id].last_update_time <= latest
}

/// The later of two times.
pub open spec fn later(first: u64, second: u64) -> u64 {
    if second > first {
        second
    } else {
        first
    }
}

/// The store after the cells of `order` were recomputed one after another,
/// the recomputation of each giving the value and beginning at the time that
/// `results` has at its place.
pub open spec fn replayed(cells: Cells, order: Seq<CellIdentifier>, results: Seq<(Value, u64)>) -> Cells
    decreases order.len(),
{
    if order.len() == 0 {
        cells
    } else {
        recomputed(
            replayed(cells, order.drop_last(), results.drop_last()),
            order.last(),
            results.last().0,
            results.last().1,
        )
    }
}

/// Whether `consumer` is recorded as reading `producer`.
pub open spec fn notifies(cells: Cells, producer: CellIdentifier, consumer: CellIdentifier) -> bool {
    cells.contains_key(producer) && cells[producer].dependents.contains(consumer)
}

/// Whether each cell of `path` but the last notifies the next.
pub open spec fn is_path(cells: Cells, path: Seq<CellIdentifier>) -> bool {
    path.len() >= 2 && forall|i: int|
        0 <= i < path.len() - 1 ==> notifies(cells, #[trigger] path[i], path[i + 1])
}

/// Whether a change of `from` reaches `to`: over one notification, or over
/// several in a row.
pub open spec fn reaches(cells: Cells, from: CellIdentifier, to: CellIdentifier) -> bool {
    exists|path: Seq<CellIdentifier>| #[trigger]
        is_path(cells, path) && path[0] == from && path.last() == to
}

/// Whether a change of `origin` reaches no cell.
pub open spec fn reaches_nothing(cells: Cells, origin: CellIdentifier) -> bool {
    forall|id: CellIdentifier| !#[trigger] reaches(cells, origin, id)
}

/// Whether `order` is an order in which to recompute after a change of
/// `origin`: it holds each cell that the change reaches, once, and no other;
/// and a cell stands after every cell of the order that notifies it, unless
/// the two lie on a cycle of notifications.
pub open spec fn is_update_order(cells: Cells, origin: CellIdentifier, order: Seq<CellIdentifier>) -> bool {
    &&& order.no_duplicates()
    &&& forall|id: CellIdentifier| #[trigger] order.contains(id) <==> reaches(cells, origin, id)
    &&& forall|i: int, j: int|
        0 <= i < order.len() && 0 <= j < order.len() && #[trigger] notifies(
            cells,
            order[i],
            order[j],
        ) ==> i < j || reaches(cells, order[j], order[i])
}

/// Every recorded dependent is an assigned cell other than the cell itself,
/// and its expression reads the cell.
pub open spec fn dependents_sound(cells: Cells) -> bool {
    forall|producer: CellIdentifier, consumer: CellIdentifier| #[trigger]
        notifies(cells, producer, consumer) ==> {
            &&& cells.contains_key(consumer)
            &&& consumer != producer
            &&& cells[consumer].dependencies.contains(producer)
        }
}

/// Every assigned cell is recorded as a dependent of each assigned cell that
/// its expression reads.
pub open spec fn dependents_complete(cells: Cells) -> bool {
    forall|consumer: CellIdentifier, producer: CellIdentifier|
        cells.contains_key(consumer) && cells.contains_key(producer)
            && #[trigger] cells[consumer].dependencies.contains(producer)
            ==> cells[producer].dependents.contains(consumer)
}

/// Unlinking from no cell changes nothing, and unlinking from one cell more
/// is unlinking from that cell after the others.
pub proof fn lemma_unlinked_step(
    cells: Cells,
    targets: Seq<CellIdentifier>,
    done: int,
    cell: CellIdentifier,
)
    requires
        0 <= done < targets.len(),
    ensures
        unlinked(cells, targets.take(0), cell) == cells,
        unlinked(unlinked(cells, targets.take(done), cell), seq![targets[done]], cell) == unlinked(
            cells,
            targets.take(done + 1),
            cell,
        ),
{
    assert(unlinked(cells, targets.take(0), cell) =~= cells);
    let before = unlinked(cells, targets.take(done), cell);
    let one = unlinked(before, seq![targets[done]], cell);
    let after = unlinked(cells, targets.take(done + 1), cell);
    assert forall|id: CellIdentifier| one.contains_key(id) implies one[id] == after[id] by {
        assert(seq![targets[done]].contains(id) <==> id == targets[done]) by {
            assert(seq![targets[done]][0] == targets[done]);
        }
        assert(targets.take(done + 1).contains(id) <==> targets.take(done).contains(id) || id
            == targets[done]) by {
            if targets.take(done).contains(id) {
                let i = choose|i: int| 0 <= i < done && targets.take(done)[i] == id;
                assert(targets.take(done + 1)[i] == id);
            }
            if id == targets[done] {
                assert(targets.take(done + 1)[done] == id);
            }
        }
        assert(one[id].dependents =~= after[id].dependents);
    }
    assert(one =~= after);
}

/// Linking to no cell changes nothing, and linking to one cell more is
/// linking to that cell after the others.
pub proof fn lemma_linked_step(
    cells: Cells,
    targets: Seq<CellIdentifier>,
    done: int,
    cell: CellIdentifier,
)
    requires
        0 <= done < targets.len(),
    ensures
        linked(cells, targets.take(0), cell) == cells,
        linked(linked(cells, targets.take(done), cell), seq![targets[done]], cell) == linked(
            cells,
            targets.take(done + 1),
            cell,
        ),
{
    assert(linked(cells, targets.take(0), cell) =~= cells);
    let before = linked(cells, targets.take(done), cell);
    let one = linked(before, seq![targets[done]], cell);
    let after = linked(cells, targets.take(done + 1), cell);
    assert forall|id: CellIdentifier| one.contains_key(id) implies one[id] == after[id] by {
        assert(seq![targets[done]].contains(id) <==> id == targets[done]) by {
            assert(seq![targets[done]][0] == targets[done]);
        }
        assert(targets.take(done + 1).contains(id) <==> targets.take(done).contains(id) || id
            == targets[done]) by {
            if targets.take(done).contains(id) {
                let i = choose|i: int| 0 <= i < done && targets.take(done)[i] == id;
                assert(targets.take(done + 1)[i] == id);
            }
            if id == targets[done] {
                assert(targets.take(done + 1)[done] == id);
            }
        }
        assert(one[id].dependents =~= after[id].dependents);
    }
    assert(one =~= after);
}

/// An assignment keeps the recorded dependents sound.
pub proof fn lemma_assigned_sound(
    cells: Cells,
    cell: CellIdentifier,
    value: Value,
    expression: Seq<char>,
    dependencies: Seq<CellIdentifier>,
    time: u64,
)
    requires
        dependents_sound(cells),
    ensures
        dependents_sound(assigned(cells, cell, value, expression, dependencies, time)),
{
    let after = assigned(cells, cell, value, expression, dependencies, time);
    assert forall|producer: CellIdentifier, consumer: CellIdentifier| #[trigger]
        notifies(after, producer, consumer) implies after.contains_key(consumer) && consumer
        != producer && after[consumer].dependencies.contains(producer) by {
        if producer == cell {
            assert(notifies(cells, producer, consumer));
        } else if consumer == cell {
            if !dependencies.contains(producer) {
                assert(notifies(cells, producer, consumer));
            }
        } else {
            assert(notifies(cells, producer, consumer));
        }
    }
}

/// A recomputation changes at most the value and the time of its cell, and
/// the time only forward.
pub proof fn lemma_recomputed(cells: Cells, cell: CellIdentifier, value: Value, time: u64)
    ensures
        same_structure(cells, recomputed(cells, cell, value, time)),
        written_forward(cells, recomputed(cells, cell, value, time)),
        forall|id: CellIdentifier|
            id != cell && cells.contains_key(id) ==> #[trigger] recomputed(
                cells,
                cell,
                value,
                time,
            )[id] == cells[id],
        dependents_sound(cells) ==> dependents_sound(recomputed(cells, cell, value, time)),
{
    let after = recomputed(cells, cell, value, time);
    assert(cells.dom() =~= after.dom());
    if dependents_sound(cells) {
        assert forall|producer: CellIdentifier, consumer: CellIdentifier| #[trigger]
            notifies(after, producer, consumer) implies after.contains_key(consumer) && consumer
            != producer && after[consumer].dependencies.contains(producer) by {
            assert(notifies(cells, producer, consumer));
        }
    }
}

/// A recomputation after changes that kept the structure and wrote forward
/// keeps the structure and writes forward.
pub proof fn lemma_recomputed_after(
    before: Cells,
    now: Cells,
    cell: CellIdentifier,
    value: Value,
    time: u64,
)
    requires
        same_structure(before, now),
        written_forward(before, now),
    ensures
        same_structure(before, recomputed(now, cell, value, time)),
        written_forward(before, recomputed(now, cell, value, time)),
{
    let after = recomputed(now, cell, value, time);
    lemma_recomputed(now, cell, value, time);
    assert forall|id: CellIdentifier| #[trigger] before.contains_key(id) implies {
        &&& after[id].expression == before[id].expression
        &&& after[id].dependencies == before[id].dependencies
        &&& after[id].dependents == before[id].dependents
    } by {
        assert(now.dom().contains(id));
        assert(now.contains_key(id));
    }
    assert forall|id: CellIdentifier| #[trigger]
        before.contains_key(id) && after.contains_key(id) implies {
        &&& after[id].last_update_time >= before[id].last_update_time
        &&& after[id] == before[id] || after[id].last_update_time > before[id].last_update_time
    } by {
        assert(now.dom().contains(id));
        assert(now.contains_key(id));
    }
}

/// Recomputations one after another keep the structure and write forward,
/// and they leave alone every cell that is not among them.
pub proof fn lemma_replayed(cells: Cells, order: Seq<CellIdentifier>, results: Seq<(Value, u64)>)
    ensures
        same_structure(cells, replayed(cells, order, results)),
        written_forward(cells, replayed(cells, order, results)),
        forall|id: CellIdentifier|
            cells.contains_key(id) && !order.contains(id) ==> #[trigger] replayed(
                cells,
                order,
                results,
            )[id] == cells[id],
    decreases order.len(),
{
    if order.len() == 0 {
        assert(cells.dom() =~= replayed(cells, order, results).dom());
    } else {
        let before = replayed(cells, order.drop_last(), results.drop_last());
        lemma_replayed(cells, order.drop_last(), results.drop_last());
        lemma_recomputed_after(cells, before, order.last(), results.last().0, results.last().1);
        assert forall|id: CellIdentifier|
            cells.contains_key(id) && !order.contains(id) implies #[trigger] replayed(
            cells,
            order,
            results,
        )[id] == cells[id] by {
            assert(order.last() == order[order.len() - 1]);
            assert(id != order.last());
            if order.drop_last().contains(id) {
                let i = choose|i: int| 0 <= i < order.drop_last().len() && order.drop_last()[i] == id;
                assert(order[i] == id);
            }
            assert(before.dom().contains(id));
        }
    }
}

/// Stores with the same structure have the same notifications, and so the
/// same cells reach the same cells.
pub proof fn lemma_same_structure_reaches(
    before: Cells,
    after: Cells,
    from: CellIdentifier,
    to: CellIdentifier,
)
    requires
        same_structure(before, after),
    ensures
        reaches(before, from, to) == reaches(after, from, to),
{
    assert forall|u: CellIdentifier, v: CellIdentifier|
        notifies(before, u, v) == notifies(after, u, v) by {
        assert(before.contains_key(u) == after.contains_key(u)) by {
            assert(before.dom().contains(u) == after.dom().contains(u));
        }
    }
    if reaches(before, from, to) {
        let path = choose|path: Seq<CellIdentifier>| #[trigger]
            is_path(before, path) && path[0] == from && path.last() == to;
        assert forall|i: int| 0 <= i < path.len() - 1 implies notifies(
            after,
            #[trigger] path[i],
            path[i + 1],
        ) by {
            assert(notifies(before, path[i], path[i + 1]));
        }
        assert(is_path(after, path));
    }
    if reaches(after, from, to) {
        let path = choose|path: Seq<CellIdentifier>| #[trigger]
            is_path(after, path) && path[0] == from && path.last() == to;
        assert forall|i: int| 0 <= i < path.len() - 1 implies notifies(
            before,
            #[trigger] path[i],
            path[i + 1],
        ) by {
            assert(notifies(after, path[i], path[i + 1]));
        }
        assert(is_path(before, path));
    }
}

/// A notification is a way of reaching.
pub proof fn lemma_notified_is_reached(cells: Cells, from: CellIdentifier, to: CellIdentifier)
    requires
        notifies(cells, from, to),
    ensures
        reaches(cells, from, to),
{
    let path = seq![from, to];
    assert(is_path(cells, path));
    assert(path[0] == from && path.last() == to);
}

/// What is reached notifies on: a cell that `from` reaches, and that notifies
/// `to`, makes `from` reach `to`.
pub proof fn lemma_reaches_then_notifies(
    cells: Cells,
    from: CellIdentifier,
    through: CellIdentifier,
    to: CellIdentifier,
)
    requires
        reaches(cells, from, through),
        notifies(cells, through, to),
    ensures
        reaches(cells, from, to),
{
    let path = choose|path: Seq<CellIdentifier>| #[trigger]
        is_path(cells, path) && path[0] == from && path.last() == through;
    let longer = path.push(to);
    assert forall|i: int| 0 <= i < longer.len() - 1 implies notifies(
        cells,
        #[trigger] longer[i],
        longer[i + 1],
    ) by {
        if i < path.len() - 1 {
            assert(notifies(cells, path[i], path[i + 1]));
        }
    }
    assert(is_path(cells, longer));
    assert(longer[0] == from && longer.last() == to);
}

/// Reaching is transitive.
pub proof fn lemma_reaches_transitive(
    cells: Cells,
    from: CellIdentifier,
    through: CellIdentifier,
    to: CellIdentifier,
)
    requires
        reaches(cells, from, through),
        reaches(cells, through, to),
    ensures
        reaches(cells, from, to),
{
    let first = choose|path: Seq<CellIdentifier>| #[trigger]
        is_path(cells, path) && path[0] == from && path.last() == through;
    let second = choose|path: Seq<CellIdentifier>| #[trigger]
        is_path(cells, path) && path[0] == through && path.last() == to;
    let whole = first + second.drop_first();
    assert forall|i: int| 0 <= i < whole.len() - 1 implies notifies(
        cells,
        #[trigger] whole[i],
        whole[i + 1],
    ) by {
        if i < first.len() - 1 {
            assert(notifies(cells, first[i], first[i + 1]));
        } else {
            let k = i - first.len() + 1;
            assert(notifies(cells, second[k], second[k + 1]));
        }
    }
    assert(is_path(cells, whole));
    assert(whole[0] == from && whole.last() == to);
}

/// A set of cells that holds every cell that `origin` notifies, and with a
/// cell every cell that it notifies, holds every cell that `origin` reaches.
pub proof fn lemma_closed_holds_reached(
    cells: Cells,
    origin: CellIdentifier,
    closed: Set<CellIdentifier>,
    to: CellIdentifier,
)
    requires
        forall|v: CellIdentifier| notifies(cells, origin, v) ==> closed.contains(v),
        forall|u: CellIdentifier, v: CellIdentifier|
            closed.contains(u) && #[trigger] notifies(cells, u, v) ==> closed.contains(v),
        reaches(cells, origin, to),
    ensures
        closed.contains(to),
{
    let path = choose|path: Seq<CellIdentifier>| #[trigger]
        is_path(cells, path) && path[0] == origin && path.last() == to;
    lemma_closed_holds_path(cells, origin, closed, path);
}

/// The induction behind `lemma_closed_holds_reached`, over the length of the
/// path.
proof fn lemma_closed_holds_path(
    cells: Cells,
    origin: CellIdentifier,
    closed: Set<CellIdentifier>,
    path: Seq<CellIdentifier>,
)
    requires
        forall|v: CellIdentifier| notifies(cells, origin, v) ==> closed.contains(v),
        forall|u: CellIdentifier, v: CellIdentifier|
            closed.contains(u) && #[trigger] notifies(cells, u, v) ==> closed.contains(v),
        is_path(cells, path),
        path[0] == origin,
    ensures
        closed.contains(path.last()),
    decreases path.len(),
{
    let n = path.len() as int;
    assert(notifies(cells, path[n - 2], path[n - 2 + 1]));
    if n > 2 {
        let shorter = path.drop_last();
        assert forall|i: int| 0 <= i < shorter.len() - 1 implies notifies(
            cells,
            #[trigger] shorter[i],
            shorter[i + 1],
        ) by {
            assert(notifies(cells, path[i], path[i + 1]));
        }
        lemma_closed_holds_path(cells, origin, closed, shorter);
        assert(shorter.last() == path[n - 2]);
    }
}

/// The cell before the last on a way from `from` to `to` is `from` itself or
/// a cell that `from` reaches, and it notifies `to`.
pub proof fn lemma_reached_is_notified(cells: Cells, from: CellIdentifier, to: CellIdentifier) -> (before:
    CellIdentifier)
    requires
        reaches(cells, from, to),
    ensures
        notifies(cells, before, to),
        before == from || reaches(cells, from, before),
{
    let path = choose|path: Seq<CellIdentifier>| #[trigger]
        is_path(cells, path) && path[0] == from && path.last() == to;
    let n = path.len() as int;
    assert(notifies(cells, path[n - 2], path[n - 2 + 1]));
    if n > 2 {
        let shorter = path.drop_last();
        assert forall|i: int| 0 <= i < shorter.len() - 1 implies notifies(
            cells,
            #[trigger] shorter[i],
            shorter[i + 1],
        ) by {
            assert(notifies(cells, path[i], path[i + 1]));
        }
        assert(is_path(cells, shorter));
        assert(shorter[0] == from && shorter.last() == path[n - 2]);
    }
    path[n - 2]
}

} // verus!
