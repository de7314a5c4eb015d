//! The cell store: the records of all assigned cells, the changes that wait
//! to be propagated, reads of cells and of ranges, the beginning of an
//! evaluation, and assignment with its outcome.

use crate::cell::{
    depends_on_error, rows_view, values_view, Argument, BoundValue, CellExprEvalError,
    CellIdentifier, CellValue, Value,
};
use crate::clock::Clock;
use crate::expression::{bind, bound, empty_scope, Scope};
use crate::laws::{is_read, law_assignment_links_dependents};
use crate::model::{
    assigned, cell_at, column_stored, dependencies_of, dependents_complete, dependents_of,
    dependents_sound, holds_error, later, lemma_assigned_sound, lemma_linked_step, lemma_recomputed,
    lemma_unlinked_step, linked, never_back, range_argument, range_holds_error, reads_error,
    recomputed, rectangle_stored, resolved, row_stored, same_structure, shown, stored, unlinked,
    written_by, written_forward, CellRecord, Cells,
};
use crate::reference::{
    expand_dependencies, expression_cells, expression_references, find_variables,
    variables_view, CellReference, Variable,
};
use std::collections::HashMap;
use std::collections::HashSet;
use std::collections::VecDeque;
use vstd::std_specs::iter::IteratorSpec;
use vstd::prelude::*;

verus! {

/// What the store keeps of one assigned cell.
#[derive(Debug)]
pub struct CellInfo {
    value: CellValue,
    expression: String,
    dependencies: Vec<CellIdentifier>,
    dependents: HashSet<u64>,
    last_update_time: u64,
}

impl View for CellInfo {
    type V = CellRecord;

    closed spec fn view(&self) -> CellRecord {
        CellRecord {
            value: self.value@,
            expression: self.expression@,
            dependencies: self.dependencies@,
            dependents: Set::new(|id: CellIdentifier| self.dependents@.contains(id.key())),
            last_update_time: self.last_update_time,
        }
    }
}

/// The state of a spreadsheet as mathematics.
pub struct SheetView {
    /// The records of the assigned cells.
    pub cells: Cells,
    /// The cells whose change has not been propagated yet, oldest first.
    pub pending: Seq<CellIdentifier>,
    /// The cells that the change in propagation reaches and that are not
    /// recomputed yet, in the order of their recomputation.
    pub remaining: Seq<CellIdentifier>,
    /// The latest time that the clock has shown or that a write has carried.
    pub latest: u64,
}

/// A spreadsheet: its cells, each with value, expression and dependencies,
/// the queue of changes that its dependents have not seen yet, and the cells
/// that are still to be recomputed for the change in propagation.
#[derive(Debug)]
pub struct Spreadsheet {
    cells: HashMap<u64, CellInfo>,
    pending: VecDeque<CellIdentifier>,
    remaining: VecDeque<CellIdentifier>,
    clock: Clock,
}

impl View for Spreadsheet {
    type V = SheetView;

    closed spec fn view(&self) -> SheetView {
        SheetView {
            cells: Map::new(
                |id: CellIdentifier| self.cells@.contains_key(id.key()),
                |id: CellIdentifier| self.cells@[id.key()]@,
            ),
            pending: self.pending@,
            remaining: self.remaining@,
            latest: self.clock.latest(),
        }
    }
}

/// What there is to evaluate: an expression, the scope to evaluate it with,
/// the cells that it reads, and the time at which the evaluation begins.
#[derive(Debug)]
pub struct Evaluation {
    pub expression: String,
    pub scope: Scope,
    pub dependencies: Vec<CellIdentifier>,
    pub started: u64,
}

/// Whether `evaluation` is what there is to evaluate for `expression` in the
/// spreadsheet `before`, which is `after` once the evaluation has begun: the
/// variables are bound as the store has them, and the time is no earlier
/// than any time before and the latest from then on.
pub open spec fn begins(
    before: SheetView,
    after: SheetView,
    expression: Seq<char>,
    evaluation: Evaluation,
) -> bool {
    &&& after.cells == before.cells
    &&& after.pending == before.pending
    &&& after.remaining == before.remaining
    &&& after.latest == evaluation.started
    &&& evaluation.started >= before.latest
    &&& evaluation.expression@ == expression
    &&& evaluation.dependencies@ == expression_cells(expression)
    &&& bound(evaluation.scope) == resolved(before.cells, expression_references(expression))
}

/// Whether every cell of the list is assigned.
pub open spec fn all_assigned(cells: Cells, list: Seq<CellIdentifier>) -> bool {
    forall|i: int| 0 <= i < list.len() ==> cells.contains_key(#[trigger] list[i])
}

/// The value that an outcome of the evaluator stands for: the value that it
/// computed, or the marker of a tainted input where it failed.
pub open spec fn outcome_value(outcome: Result<CellValue, CellExprEvalError>) -> Value {
    match outcome {
        Ok(value) => value@,
        Err(_) => depends_on_error(),
    }
}

/// The value to store for an outcome of the evaluator.
pub fn value_of(outcome: Result<CellValue, CellExprEvalError>) -> (value: CellValue)
    ensures
        value@ == outcome_value(outcome),
{
    match outcome {
        Ok(value) => value,
        Err(CellExprEvalError::VariableDependsOnError) => CellValue::depends_on_error(),
    }
}

/// A copy of a list of cells.
pub fn copy_cells(cells: &Vec<CellIdentifier>) -> (copy: Vec<CellIdentifier>)
    ensures
        copy@ == cells@,
{
    let mut copy: Vec<CellIdentifier> = Vec::new();
    let mut i: usize = 0;
    while i < cells.len()
        invariant
            0 <= i <= cells.len(),
            copy@ == cells@.take(i as int),
        decreases cells.len() - i,
    {
        copy.push(cells[i]);
        proof {
            assert(cells@.take(i as int).push(cells@[i as int]) =~= cells@.take(i + 1));
        }
        i += 1;
    }
    proof {
        assert(cells@.take(cells.len() as int) =~= cells@);
    }
    copy
}

/// A copy of a set of keys.
fn copy_keys(keys: &HashSet<u64>) -> (copy: HashSet<u64>)
    ensures
        copy@ == keys@,
{
    broadcast use vstd::std_specs::hash::group_hash_axioms;

    let mut copy: HashSet<u64> = HashSet::new();
    for key in iter: keys.iter()
        invariant
            iter.seq() == vstd::std_specs::hash::spec_hash_keys_iter(keys).remaining(),
            copy@ == iter.seq().unref().take(iter.index()).to_set(),
    {
        proof {
            let all = iter.seq().unref();
            let at = iter.index();
            assert(all.take(at).push(all[at]) =~= all.take(at + 1));
            all.take(at).lemma_push_to_set_commute(all[at]);
        }
        copy.insert(*key);
    }
    proof {
        let all = vstd::std_specs::hash::spec_hash_keys_iter(keys).remaining().unref();
        assert(all.take(all.len() as int) =~= all);
    }
    copy
}

/// The cells whose keys a set holds, each once.
pub(crate) fn cells_of(keys: &HashSet<u64>) -> (cells: Vec<CellIdentifier>)
    ensures
        cells@.no_duplicates(),
        forall|id: CellIdentifier| cells@.contains(id) <==> keys@.contains(id.key()),
{
    broadcast use vstd::std_specs::hash::group_hash_axioms;

    let mut cells: Vec<CellIdentifier> = Vec::new();
    for key in iter: keys.iter()
        invariant
            iter.seq() == vstd::std_specs::hash::spec_hash_keys_iter(keys).remaining(),
            cells@.len() == iter.index(),
            forall|i: int|
                0 <= i < cells@.len() ==> (#[trigger] cells@[i]).key() == iter.seq().unref()[i],
    {
        cells.push(CellIdentifier::from_key(*key));
    }
    proof {
        let all = vstd::std_specs::hash::spec_hash_keys_iter(keys).remaining();
        assert(all.unref().to_set() == keys@);
        assert(all.no_duplicates());
        assert forall|i: int, j: int|
            0 <= i < cells@.len() && 0 <= j < cells@.len() && i != j implies cells@[i]
            != cells@[j] by {
            assert(all.unref()[i] == *all[i] && all.unref()[j] == *all[j]);
            assert(all[i] != all[j]);
        }
        assert forall|id: CellIdentifier| cells@.contains(id) <==> keys@.contains(id.key()) by {
            if cells@.contains(id) {
                let i = choose|i: int| 0 <= i < cells@.len() && cells@[i] == id;
                assert(all.unref()[i] == id.key());
                assert(all.unref().to_set().contains(id.key()));
            }
            if keys@.contains(id.key()) {
                assert(all.unref().to_set().contains(id.key()));
                let i = choose|i: int| 0 <= i < all.unref().len() && all.unref()[i] == id.key();
                CellIdentifier::lemma_key_injective(cells@[i], id);
                assert(cells@[i] == id);
            }
        }
    }
    cells
}

impl Spreadsheet {
    /// The invariant of the store: every recorded dependent is an assigned
    /// cell that reads the cell it is recorded with, no cell was written
    /// later than the latest time, and every cell that is still to be
    /// recomputed is assigned.
    pub closed spec fn wf(&self) -> bool {
        &&& dependents_sound(self@.cells)
        &&& written_by(self@.cells, self@.latest)
        &&& all_assigned(self@.cells, self@.remaining)
    }

    /// In a well-formed store the assigned cells are finitely many, every
    /// recorded dependent is sound, no cell was written later than the
    /// latest time, and every cell that is still to be recomputed is
    /// assigned.
    pub proof fn lemma_wf(&self)
        requires
            self.wf(),
        ensures
            dependents_sound(self@.cells),
            written_by(self@.cells, self@.latest),
            all_assigned(self@.cells, self@.remaining),
            self@.cells.dom().finite(),
    {
        broadcast use vstd::std_specs::hash::group_hash_axioms;

        let keys = self.cells@.dom();
        let ids = keys.map(|key: u64| CellIdentifier::spec_from_key(key));
        keys.lemma_map_finite(|key: u64| CellIdentifier::spec_from_key(key));
        assert(self@.cells.dom() =~= ids) by {
            assert forall|id: CellIdentifier| self@.cells.dom().contains(id) implies ids.contains(
                id,
            ) by {
                assert(keys.contains(id.key()));
                assert(CellIdentifier::spec_from_key(id.key()) == id);
            }
        }
    }

    /// A spreadsheet without cells, its clock started.
    pub fn new() -> (sheet: Spreadsheet)
        ensures
            sheet.wf(),
            sheet@.cells == Map::<CellIdentifier, CellRecord>::empty(),
            sheet@.pending == Seq::<CellIdentifier>::empty(),
            sheet@.remaining == Seq::<CellIdentifier>::empty(),
            sheet@.latest == 0,
    {
        let sheet = Spreadsheet {
            cells: HashMap::new(),
            pending: VecDeque::new(),
            remaining: VecDeque::new(),
            clock: Clock::start(),
        };
        assert(sheet@.cells =~= Map::<CellIdentifier, CellRecord>::empty());
        sheet
    }

    /// Whether the cell has been assigned.
    pub fn contains(&self, cell_id: &CellIdentifier) -> (assigned: bool)
        ensures
            assigned == self@.cells.contains_key(*cell_id),
    {
        broadcast use vstd::std_specs::hash::group_hash_axioms;

        self.cells.contains_key(&cell_id.to_key())
    }

    /// The source text last assigned to the cell, if it has been assigned.
    pub fn expression(&self, cell_id: &CellIdentifier) -> (expression: Option<String>)
        ensures
            expression is Some <==> self@.cells.contains_key(*cell_id),
            expression matches Some(source) ==> source@ == self@.cells[*cell_id].expression,
    {
        broadcast use vstd::std_specs::hash::group_hash_axioms;

        match self.cells.get(&cell_id.to_key()) {
            Some(info) => Some(info.expression.clone()),
            None => None,
        }
    }

    /// The time of the last write of the cell's value, if it has been
    /// assigned.
    pub fn last_update_time(&self, cell_id: &CellIdentifier) -> (time: Option<u64>)
        ensures
            time is Some <==> self@.cells.contains_key(*cell_id),
            time matches Some(t) ==> t == self@.cells[*cell_id].last_update_time,
    {
        broadcast use vstd::std_specs::hash::group_hash_axioms;

        match self.cells.get(&cell_id.to_key()) {
            Some(info) => Some(info.last_update_time),
            None => None,
        }
    }

    /// The cells that the cell's expression reads, in the order of the
    /// expression; none for a cell never assigned.
    pub fn dependencies(&self, cell_id: &CellIdentifier) -> (dependencies: Vec<CellIdentifier>)
        ensures
            dependencies@ == dependencies_of(self@.cells, *cell_id),
    {
        broadcast use vstd::std_specs::hash::group_hash_axioms;

        match self.cells.get(&cell_id.to_key()) {
            Some(info) => copy_cells(&info.dependencies),
            None => Vec::new(),
        }
    }

    /// The cells recorded as reading the cell, each once; none for a cell
    /// never assigned.
    pub fn dependents(&self, cell_id: &CellIdentifier) -> (dependents: Vec<CellIdentifier>)
        ensures
            dependents@.no_duplicates(),
            dependents@.to_set() == dependents_of(self@.cells, *cell_id),
    {
        broadcast use vstd::std_specs::hash::group_hash_axioms;

        match self.cells.get(&cell_id.to_key()) {
            Some(info) => {
                let dependents = cells_of(&info.dependents);
                proof {
                    assert(dependents@.to_set() =~= dependents_of(self@.cells, *cell_id));
                }
                dependents
            },
            None => {
                assert(Seq::<CellIdentifier>::empty().to_set() =~= Set::<CellIdentifier>::empty());
                Vec::new()
            },
        }
    }

    /// The value that the store holds for a cell: nothing for a cell never
    /// assigned, and the value last written otherwise, whatever the cells
    /// that it reads hold.
    pub fn value(&self, cell_id: &CellIdentifier) -> (value: CellValue)
        ensures
            value@ == stored(self@.cells, *cell_id),
    {
        broadcast use vstd::std_specs::hash::group_hash_axioms;

        match self.cells.get(&cell_id.to_key()) {
            Some(info) => info.value.clone(),
            None => CellValue::Absent,
        }
    }

    /// Reads a cell. A cell never assigned shows nothing. An assigned cell
    /// shows the marker of a tainted input, `Error("VariableDependsOnError")`,
    /// whenever a cell that it reads holds an error, and its stored value
    /// otherwise.
    pub fn get(&self, cell_id: &CellIdentifier) -> (value: CellValue)
        ensures
            value@ == shown(self@.cells, *cell_id),
            self@.cells.contains_key(*cell_id) && reads_error(self@.cells, *cell_id) ==> value@
                == depends_on_error(),
    {
        broadcast use vstd::std_specs::hash::group_hash_axioms;

        match self.cells.get(&cell_id.to_key()) {
            Some(info) => {
                let mut i: usize = 0;
                while i < info.dependencies.len()
                    invariant
                        0 <= i <= info.dependencies.len(),
                        self.cells@.contains_key(cell_id.key()),
                        *info == self.cells@[cell_id.key()],
                        forall|j: int|
                            0 <= j < i ==> !holds_error(
                                self@.cells,
                                #[trigger] info.dependencies@[j],
                            ),
                    decreases info.dependencies.len() - i,
                {
                    let dependency = info.dependencies[i];
                    match self.cells.get(&dependency.to_key()) {
                        Some(read) => {
                            if read.value.is_error() {
                                assert(holds_error(
                                    self@.cells,
                                    self@.cells[*cell_id].dependencies[i as int],
                                ));
                                return CellValue::depends_on_error();
                            }
                        },
                        None => {},
                    }
                    i += 1;
                }
                info.value.clone()
            },
            None => CellValue::Absent,
        }
    }

    /// Whether the cell is assigned and its stored value is an error.
    fn stores_error(&self, cell_id: &CellIdentifier) -> (res: bool)
        ensures
            res == holds_error(self@.cells, *cell_id),
    {
        broadcast use vstd::std_specs::hash::group_hash_axioms;

        match self.cells.get(&cell_id.to_key()) {
            Some(info) => info.value.is_error(),
            None => false,
        }
    }

    /// Whether a cell of the rectangle from `start` to `end` holds an error.
    fn range_stores_error(&self, start: &CellIdentifier, end: &CellIdentifier) -> (res: bool)
        ensures
            res == range_holds_error(self@.cells, *start, *end),
    {
        let mut row: u64 = start.row as u64;
        while row <= end.row as u64
            invariant
                start.row <= row,
                forall|c: int, r: int|
                    start.col <= c <= end.col && start.row <= r < row ==> !holds_error(
                        self@.cells,
                        #[trigger] cell_at(c, r),
                    ),
            decreases end.row + 1 - row,
        {
            let mut col: u64 = start.col as u64;
            while col <= end.col as u64
                invariant
                    start.col <= col,
                    start.row <= row <= end.row,
                    forall|c: int, r: int|
                        start.col <= c <= end.col && start.row <= r < row ==> !holds_error(
                            self@.cells,
                            #[trigger] cell_at(c, r),
                        ),
                    forall|c: int|
                        start.col <= c < col ==> !holds_error(
                            self@.cells,
                            #[trigger] cell_at(c, row as int),
                        ),
                decreases end.col + 1 - col,
            {
                let cell = CellIdentifier { col: col as u32, row: row as u32 };
                if self.stores_error(&cell) {
                    assert(cell == cell_at(col as int, row as int));
                    return true;
                }
                col += 1;
            }
            row += 1;
        }
        false
    }

    /// The values of the cells of row `row`, from column `first` to column
    /// `last`.
    fn row_values(&self, row: u32, first: u32, last: u32) -> (values: Vec<CellValue>)
        ensures
            values_view(values@) == row_stored(self@.cells, row, first, last),
    {
        let mut values: Vec<CellValue> = Vec::new();
        let mut col: u64 = first as u64;
        while col <= last as u64
            invariant
                first <= col,
                col <= last + 1 || col == first,
                values.len() == col - first,
                forall|i: int|
                    0 <= i < values.len() ==> (#[trigger] values@[i])@ == stored(
                        self@.cells,
                        cell_at(first + i, row as int),
                    ),
            decreases last + 1 - col,
        {
            let value = self.value(&CellIdentifier { col: col as u32, row });
            values.push(value);
            col += 1;
        }
        proof {
            assert(values_view(values@) =~= row_stored(self@.cells, row, first, last));
        }
        values
    }

    /// The values of the cells of column `col`, from row `first` down to
    /// row `last`.
    fn column_values(&self, col: u32, first: u32, last: u32) -> (values: Vec<CellValue>)
        ensures
            values_view(values@) == column_stored(self@.cells, col, first, last),
    {
        let mut values: Vec<CellValue> = Vec::new();
        let mut row: u64 = first as u64;
        while row <= last as u64
            invariant
                first <= row,
                row <= last + 1 || row == first,
                values.len() == row - first,
                forall|i: int|
                    0 <= i < values.len() ==> (#[trigger] values@[i])@ == stored(
                        self@.cells,
                        cell_at(col as int, first + i),
                    ),
            decreases last + 1 - row,
        {
            let value = self.value(&CellIdentifier { col, row: row as u32 });
            values.push(value);
            row += 1;
        }
        proof {
            assert(values_view(values@) =~= column_stored(self@.cells, col, first, last));
        }
        values
    }

    /// The vector of the values of the cells from `start` down to the row
    /// of `end`, in the column of `start`.
    pub fn get_vertical_vector(&self, start: &CellIdentifier, end: &CellIdentifier) -> (argument:
        BoundValue)
        ensures
            argument@ == Argument::Vector(
                column_stored(self@.cells, start.col, start.row, end.row),
            ),
    {
        BoundValue::Vector(self.column_values(start.col, start.row, end.row))
    }

    /// The vector of the values of the cells from `start` to the column of
    /// `end`, in the row of `start`.
    pub fn get_horizontal_vector(&self, start: &CellIdentifier, end: &CellIdentifier) -> (argument:
        BoundValue)
        ensures
            argument@ == Argument::Vector(row_stored(self@.cells, start.row, start.col, end.col)),
    {
        BoundValue::Vector(self.row_values(start.row, start.col, end.col))
    }

    /// The matrix of the values of the cells of the rectangle from `start`
    /// to `end`, row by row.
    pub fn get_matrix(&self, start: &CellIdentifier, end: &CellIdentifier) -> (argument: BoundValue)
        ensures
            argument@ == Argument::Matrix(rectangle_stored(self@.cells, *start, *end)),
    {
        let mut rows: Vec<Vec<CellValue>> = Vec::new();
        let mut row: u64 = start.row as u64;
        while row <= end.row as u64
            invariant
                start.row <= row,
                row <= end.row + 1 || row == start.row,
                rows.len() == row - start.row,
                forall|i: int|
                    0 <= i < rows.len() ==> values_view((#[trigger] rows@[i])@) == row_stored(
                        self@.cells,
                        (start.row + i) as u32,
                        start.col,
                        end.col,
                    ),
            decreases end.row + 1 - row,
        {
            let values = self.row_values(row as u32, start.col, end.col);
            rows.push(values);
            row += 1;
        }
        proof {
            assert(rows_view(rows@) =~= rectangle_stored(self@.cells, *start, *end));
        }
        BoundValue::Matrix(rows)
    }

    /// What a range variable is bound to. Where a cell of the rectangle
    /// holds an error, that is the marker of a tainted input alone. Else it
    /// is a vector for a range within one column or within one row, and a
    /// matrix for any other.
    pub fn get_range_argument(&self, start: &CellIdentifier, end: &CellIdentifier) -> (argument:
        BoundValue)
        ensures
            argument@ == range_argument(self@.cells, *start, *end),
    {
        if self.range_stores_error(start, end) {
            return BoundValue::Value(CellValue::depends_on_error());
        }
        if start.col == end.col {
            self.get_vertical_vector(start, end)
        } else if start.row == end.row {
            self.get_horizontal_vector(start, end)
        } else {
            self.get_matrix(start, end)
        }
    }

    /// Binds each variable to what it refers to in the store: the name of a
    /// cell to the value of the cell, nothing if it is not assigned, and
    /// the name of a range to the argument of the range.
    pub fn resolve_variables(&self, variables: &Vec<Variable>) -> (scope: Scope)
        ensures
            bound(scope) == resolved(self@.cells, variables_view(variables@)),
    {
        let mut scope = empty_scope();
        let mut i: usize = 0;
        proof {
            assert(variables_view(variables@).take(0) =~= Seq::<(Seq<char>, CellReference)>::empty());
            assert(bound(scope) =~= Map::<Seq<char>, Argument>::empty());
        }
        while i < variables.len()
            invariant
                0 <= i <= variables.len(),
                bound(scope) == resolved(self@.cells, variables_view(variables@).take(i as int)),
            decreases variables.len() - i,
        {
            proof {
                let prefix = variables_view(variables@).take(i + 1);
                assert(prefix.drop_last() =~= variables_view(variables@).take(i as int));
                assert(prefix.last() == variables@[i as int]@);
            }
            let argument = match variables[i].reference {
                CellReference::Cell(cell) => BoundValue::Value(self.value(&cell)),
                CellReference::Range(start, end) => self.get_range_argument(&start, &end),
            };
            bind(&mut scope, variables[i].name.as_str(), &argument);
            i += 1;
        }
        proof {
            assert(variables_view(variables@).take(variables.len() as int) =~= variables_view(
                variables@,
            ));
        }
        scope
    }

    /// Takes `cell` out of the dependents of `target`, if `target` is
    /// assigned.
    fn unlink(&mut self, target: CellIdentifier, cell: CellIdentifier)
        ensures
            final(self)@.pending == old(self)@.pending,
            final(self)@.remaining == old(self)@.remaining,
            final(self)@.latest == old(self)@.latest,
            final(self)@.cells == unlinked(old(self)@.cells, seq![target], cell),
    {
        broadcast use vstd::std_specs::hash::group_hash_axioms;

        let key = target.to_key();
        match self.cells.remove(&key) {
            Some(info) => {
                let mut info = info;
                info.dependents.remove(&cell.to_key());
                self.cells.insert(key, info);
            },
            None => {},
        }
        proof {
            let before = old(self)@.cells;
            let after = unlinked(before, seq![target], cell);
            assert forall|id: CellIdentifier| self@.cells.contains_key(id) <==> after.contains_key(
                id,
            ) by {
                CellIdentifier::lemma_key_injective(id, target);
            }
            assert forall|id: CellIdentifier| self@.cells.contains_key(id) implies self@.cells[id]
                == after[id] by {
                CellIdentifier::lemma_key_injective(id, target);
                assert(seq![target].contains(id) <==> id == target) by {
                    assert(seq![target][0] == target);
                }
                assert(self@.cells[id].dependents =~= after[id].dependents);
            }
            assert(self@.cells =~= after);
        }
    }

    /// Puts `cell` among the dependents of `target`, if `target` is
    /// assigned.
    fn link(&mut self, target: CellIdentifier, cell: CellIdentifier)
        ensures
            final(self)@.pending == old(self)@.pending,
            final(self)@.remaining == old(self)@.remaining,
            final(self)@.latest == old(self)@.latest,
            final(self)@.cells == linked(old(self)@.cells, seq![target], cell),
    {
        broadcast use vstd::std_specs::hash::group_hash_axioms;

        let key = target.to_key();
        match self.cells.remove(&key) {
            Some(info) => {
                let mut info = info;
                info.dependents.insert(cell.to_key());
                self.cells.insert(key, info);
            },
            None => {},
        }
        proof {
            let before = old(self)@.cells;
            let after = linked(before, seq![target], cell);
            assert forall|id: CellIdentifier| self@.cells.contains_key(id) <==> after.contains_key(
                id,
            ) by {
                CellIdentifier::lemma_key_injective(id, target);
            }
            assert forall|id: CellIdentifier| self@.cells.contains_key(id) implies self@.cells[id]
                == after[id] by {
                CellIdentifier::lemma_key_injective(id, target);
                assert(seq![target].contains(id) <==> id == target) by {
                    assert(seq![target][0] == target);
                }
                assert(self@.cells[id].dependents =~= after[id].dependents);
            }
            assert(self@.cells =~= after);
        }
    }

    /// Commits an assignment: the record of `cell_id` is written with
    /// `value`, `expression`, `dependencies` and `current_time`. The cell
    /// leaves the dependents of the cells that it read before and joins
    /// those of the cells that it reads now, where they are assigned; its
    /// own dependents stay as they were. The change is queued for
    /// propagation.
    pub fn update_cell_info(
        &mut self,
        cell_id: CellIdentifier,
        value: CellValue,
        expression: String,
        dependencies: Vec<CellIdentifier>,
        current_time: u64,
    ) -> (res: Result<(), CellExprEvalError>)
        requires
            old(self).wf(),
        ensures
            final(self).wf(),
            res is Ok,
            final(self)@.cells == assigned(
                old(self)@.cells,
                cell_id,
                value@,
                expression@,
                dependencies@,
                current_time,
            ),
            final(self)@.pending == old(self)@.pending.push(cell_id),
            final(self)@.remaining == old(self)@.remaining,
            final(self)@.latest == later(old(self)@.latest, current_time),
            dependents_sound(final(self)@.cells),
            dependents_complete(old(self)@.cells) ==> (dependents_complete(final(self)@.cells) <==> {
                &&& !dependencies@.contains(cell_id)
                &&& old(self)@.cells.contains_key(cell_id) || !is_read(old(self)@.cells, cell_id)
            }),
            final(self)@.cells[cell_id].last_update_time == current_time,
            forall|id: CellIdentifier|
                id != cell_id && old(self)@.cells.contains_key(id) ==> (#[trigger] final(self)@.cells[id]).last_update_time == old(self)@.cells[id].last_update_time,
    {
        broadcast use vstd::std_specs::hash::group_hash_axioms;

        let ghost before = self@.cells;
        proof {
            if dependents_complete(before) {
                law_assignment_links_dependents(
                    before,
                    cell_id,
                    value@,
                    expression@,
                    dependencies@,
                    current_time,
                );
            }
        }
        let old_dependencies = self.dependencies(&cell_id);
        let old_dependents = match self.cells.get(&cell_id.to_key()) {
            Some(info) => copy_keys(&info.dependents),
            None => HashSet::new(),
        };

        let mut i: usize = 0;
        proof {
            assert(unlinked(before, old_dependencies@.take(0), cell_id) =~= before);
        }
        while i < old_dependencies.len()
            invariant
                0 <= i <= old_dependencies.len(),
                self@.pending == old(self)@.pending,
                self@.remaining == old(self)@.remaining,
                self@.latest == old(self)@.latest,
                self@.cells == unlinked(before, old_dependencies@.take(i as int), cell_id),
            decreases old_dependencies.len() - i,
        {
            proof {
                lemma_unlinked_step(before, old_dependencies@, i as int, cell_id);
            }
            self.unlink(old_dependencies[i], cell_id);
            i += 1;
        }
        let ghost apart = self@.cells;
        proof {
            assert(old_dependencies@.take(old_dependencies.len() as int) =~= old_dependencies@);
            assert(linked(apart, dependencies@.take(0), cell_id) =~= apart);
        }
        let mut j: usize = 0;
        while j < dependencies.len()
            invariant
                0 <= j <= dependencies.len(),
                self@.pending == old(self)@.pending,
                self@.remaining == old(self)@.remaining,
                self@.latest == old(self)@.latest,
                self@.cells == linked(apart, dependencies@.take(j as int), cell_id),
            decreases dependencies.len() - j,
        {
            proof {
                lemma_linked_step(apart, dependencies@, j as int, cell_id);
            }
            self.link(dependencies[j], cell_id);
            j += 1;
        }
        let ghost joined = self@.cells;
        proof {
            assert(dependencies@.take(dependencies.len() as int) =~= dependencies@);
        }
        let info = CellInfo {
            value,
            expression,
            dependencies,
            dependents: old_dependents,
            last_update_time: current_time,
        };
        let ghost record = info@;
        proof {
            assert(record.dependents =~= dependents_of(before, cell_id));
        }
        self.cells.insert(cell_id.to_key(), info);
        self.pending.push_back(cell_id);
        self.clock.advance(current_time);
        proof {
            let after = joined.insert(cell_id, record);
            assert forall|id: CellIdentifier| self@.cells.contains_key(id) <==> after.contains_key(
                id,
            ) by {
                CellIdentifier::lemma_key_injective(id, cell_id);
            }
            assert forall|id: CellIdentifier| self@.cells.contains_key(id) implies self@.cells[id]
                == after[id] by {
                CellIdentifier::lemma_key_injective(id, cell_id);
            }
            assert(self@.cells =~= after);
            lemma_assigned_sound(
                before,
                cell_id,
                value@,
                expression@,
                dependencies@,
                current_time,
            );
        }
        Ok(())
    }

    /// Commits a recomputation of `cell_id` that started at `current_time`
    /// and gave `value`. The value and the time are written only where the
    /// cell is assigned and was last written before `current_time`: a write
    /// that is not later than the last one is dropped.
    pub fn store_recomputed(
        &mut self,
        cell_id: &CellIdentifier,
        value: CellValue,
        current_time: u64,
    ) -> (written: bool)
        requires
            old(self).wf(),
        ensures
            final(self).wf(),
            final(self)@.pending == old(self)@.pending,
            final(self)@.remaining == old(self)@.remaining,
            final(self)@.latest == later(old(self)@.latest, current_time),
            final(self)@.cells == recomputed(old(self)@.cells, *cell_id, value@, current_time),
            written == (old(self)@.cells.contains_key(*cell_id) && current_time > old(self)@.cells[*cell_id].last_update_time),
            same_structure(old(self)@.cells, final(self)@.cells),
            written_forward(old(self)@.cells, final(self)@.cells),
    {
        broadcast use vstd::std_specs::hash::group_hash_axioms;

        let ghost before = self@.cells;
        let key = cell_id.to_key();
        proof {
            lemma_recomputed(before, *cell_id, value@, current_time);
        }
        self.clock.advance(current_time);
        match self.cells.remove(&key) {
            Some(info) => {
                let mut info = info;
                let written = current_time > info.last_update_time;
                if written {
                    info.value = value;
                    info.last_update_time = current_time;
                }
                self.cells.insert(key, info);
                proof {
                    let after = recomputed(before, *cell_id, value@, current_time);
                    assert forall|id: CellIdentifier|
                        self@.cells.contains_key(id) <==> after.contains_key(id) by {
                        CellIdentifier::lemma_key_injective(id, *cell_id);
                    }
                    assert forall|id: CellIdentifier|
                        self@.cells.contains_key(id) implies self@.cells[id] == after[id] by {
                        CellIdentifier::lemma_key_injective(id, *cell_id);
                    }
                    assert(self@.cells =~= after);
                }
                written
            },
            None => {
                proof {
                    assert(self@.cells =~= before);
                }
                false
            },
        }
    }

    /// The oldest change that waits to be propagated, taken from the queue.
    pub fn next_update(&mut self) -> (update: Option<CellIdentifier>)
        requires
            old(self).wf(),
        ensures
            final(self).wf(),
            final(self)@.cells == old(self)@.cells,
            final(self)@.remaining == old(self)@.remaining,
            final(self)@.latest == old(self)@.latest,
            old(self)@.pending.len() == 0 ==> update is None && final(self)@.pending == old(self)@.pending,
            old(self)@.pending.len() > 0 ==> update == Some(old(self)@.pending[0]) && final(self)@.pending == old(self)@.pending.drop_first(),
    {
        let update = self.pending.pop_front();
        proof {
            if old(self)@.pending.len() > 0 {
                assert(self@.pending =~= old(self)@.pending.drop_first());
            }
        }
        update
    }

    /// The time of the spreadsheet's clock, which is no earlier than the
    /// latest time so far, and is the latest from now on.
    pub fn now(&mut self) -> (time: u64)
        requires
            old(self).wf(),
        ensures
            final(self).wf(),
            final(self)@.cells == old(self)@.cells,
            final(self)@.pending == old(self)@.pending,
            final(self)@.remaining == old(self)@.remaining,
            time >= old(self)@.latest,
            final(self)@.latest == time,
    {
        self.clock.now()
    }

    /// Begins an evaluation of `expression`: the time is read, the
    /// variables of the expression are found and bound as the store has them
    /// now, and the cells that it reads are listed. The evaluation itself is
    /// the caller's to make, with the scope that is handed out.
    pub fn evaluation(&mut self, expression: String) -> (evaluation: Evaluation)
        requires
            old(self).wf(),
        ensures
            final(self).wf(),
            begins(old(self)@, final(self)@, expression@, evaluation),
    {
        let started = self.now();
        let variables = find_variables(expression.as_str());
        let dependencies = expand_dependencies(&variables);
        let scope = self.resolve_variables(&variables);
        Evaluation { expression, scope, dependencies, started }
    }

    /// Assigns an expression to a cell, once it has been evaluated: the
    /// record of the cell is written with the value that the outcome stands
    /// for, which is the marker of a tainted input where the evaluation
    /// failed, and with the expression, the cells that it reads and the time
    /// at which the evaluation began. The change is queued for propagation.
    /// No time of a last write moves back if the evaluation began no earlier
    /// than the latest time.
    pub fn set(
        &mut self,
        cell_id: CellIdentifier,
        evaluation: Evaluation,
        outcome: Result<CellValue, CellExprEvalError>,
    ) -> (res: Result<(), CellExprEvalError>)
        requires
            old(self).wf(),
        ensures
            final(self).wf(),
            res is Ok,
            final(self)@.cells == assigned(
                old(self)@.cells,
                cell_id,
                outcome_value(outcome),
                evaluation.expression@,
                evaluation.dependencies@,
                evaluation.started,
            ),
            final(self)@.pending == old(self)@.pending.push(cell_id),
            final(self)@.remaining == old(self)@.remaining,
            final(self)@.latest == later(old(self)@.latest, evaluation.started),
            evaluation.started >= old(self)@.latest ==> never_back(
                old(self)@.cells,
                final(self)@.cells,
            ),
    {
        proof {
            self.lemma_wf();
        }
        let value = value_of(outcome);
        self.update_cell_info(
            cell_id,
            value,
            evaluation.expression,
            evaluation.dependencies,
            evaluation.started,
        )
    }

    /// The first of the cells that are still to be recomputed, taken from
    /// their list.
    pub(crate) fn take_remaining(&mut self) -> (cell: Option<CellIdentifier>)
        requires
            old(self).wf(),
        ensures
            final(self).wf(),
            final(self)@.cells == old(self)@.cells,
            final(self)@.pending == old(self)@.pending,
            final(self)@.latest == old(self)@.latest,
            old(self)@.remaining.len() == 0 ==> cell is None && final(self)@.remaining == old(self)@.remaining,
            old(self)@.remaining.len() > 0 ==> cell == Some(old(self)@.remaining[0]) && final(self)@.remaining == old(self)@.remaining.drop_first(),
            cell matches Some(id) ==> final(self)@.cells.contains_key(id),
    {
        let cell = self.remaining.pop_front();
        proof {
            if old(self)@.remaining.len() > 0 {
                assert(self@.remaining =~= old(self)@.remaining.drop_first());
                assert(old(self)@.cells.contains_key(old(self)@.remaining[0]));
                assert forall|i: int| 0 <= i < self@.remaining.len() implies self@.cells.contains_key(
                    #[trigger] self@.remaining[i],
                ) by {
                    assert(self@.remaining[i] == old(self)@.remaining[i + 1]);
                }
            }
        }
        cell
    }

    /// Makes the cells of `order` from position `from` on the cells that are
    /// still to be recomputed.
    pub(crate) fn plan(&mut self, order: &Vec<CellIdentifier>, from: usize)
        requires
            old(self).wf(),
            from <= order.len(),
            all_assigned(old(self)@.cells, order@),
        ensures
            final(self).wf(),
            final(self)@.cells == old(self)@.cells,
            final(self)@.pending == old(self)@.pending,
            final(self)@.latest == old(self)@.latest,
            final(self)@.remaining == order@.skip(from as int),
    {
        self.remaining.clear();
        let mut i: usize = from;
        proof {
            assert(order@.subrange(from as int, from as int) =~= Seq::<CellIdentifier>::empty());
        }
        while i < order.len()
            invariant
                from <= i <= order.len(),
                self@.cells == old(self)@.cells,
                self@.pending == old(self)@.pending,
                self@.latest == old(self)@.latest,
                self@.remaining == order@.subrange(from as int, i as int),
            decreases order.len() - i,
        {
            self.remaining.push_back(order[i]);
            proof {
                assert(order@.subrange(from as int, i as int).push(order@[i as int])
                    =~= order@.subrange(from as int, i + 1));
            }
            i += 1;
        }
        proof {
            assert(order@.subrange(from as int, order.len() as int) =~= order@.skip(from as int));
            assert forall|k: int| 0 <= k < self@.remaining.len() implies self@.cells.contains_key(
                #[trigger] self@.remaining[k],
            ) by {
                assert(self@.remaining[k] == order@[from + k]);
            }
        }
    }
}

} // verus!
