//! References to cells in an expression: a variable names one cell, as in
//! `A1`, or the rectangle between two cells, as in `A1_B2`.

use crate::cell::CellIdentifier;
use crate::expression::{
    capitals, column_fits, column_number, expression_variables, find_variable_names,
    lemma_capitals, lemma_capitals_are, lemma_capitals_reach, lemma_column_grows, parse_cell,
    parsed_cell,
};
use crate::model::{cell_at, span};
use vstd::prelude::*;
use vstd::string::StrSliceExecFns;

verus! {

/// What a variable of an expression refers to.
#[derive(Clone, Copy, PartialEq, Eq, Debug, Structural)]
pub enum CellReference {
    /// One cell.
    Cell(CellIdentifier),
    /// The rectangle between two cells, the first above and left of the
    /// second, or equal to it in row or column.
    Range(CellIdentifier, CellIdentifier),
}

/// A variable of an expression: its name and the cells that it refers to.
#[derive(Debug)]
pub struct Variable {
    pub name: String,
    pub reference: CellReference,
}

impl View for Variable {
    type V = (Seq<char>, CellReference);

    open spec fn view(&self) -> (Seq<char>, CellReference) {
        (self.name@, self.reference)
    }
}

/// The views of a list of variables.
pub open spec fn variables_view(variables: Seq<Variable>) -> Seq<(Seq<char>, CellReference)> {
    Seq::new(variables.len(), |i: int| variables[i]@)
}

/// The cell that `token` names: a column in capital letters, which counted
/// from one is a number of 32 bits, and a row in digits, counted from one.
pub open spec fn cell_named(token: Seq<char>) -> Option<CellIdentifier> {
    if column_fits(token) {
        parsed_cell(token)
    } else {
        None
    }
}

/// The position of the first underscore of `token`, or its length if it has
/// none.
pub open spec fn first_underscore(token: Seq<char>) -> int
    decreases token.len(),
{
    if token.len() == 0 || token[0] == '_' {
        0
    } else {
        1 + first_underscore(token.drop_first())
    }
}

/// The range that `token` names: two cell names with one underscore between
/// them, the first cell not below and not right of the second.
pub open spec fn range_named(token: Seq<char>) -> Option<(CellIdentifier, CellIdentifier)> {
    let at = first_underscore(token);
    if at >= token.len() {
        None
    } else {
        let rest = token.subrange(at + 1, token.len() as int);
        if first_underscore(rest) < rest.len() {
            None
        } else {
            match (cell_named(token.subrange(0, at)), cell_named(rest)) {
                (Some(start), Some(end)) => if start.col <= end.col && start.row <= end.row {
                    Some((start, end))
                } else {
                    None
                },
                _ => None,
            }
        }
    }
}

/// What `token` refers to: a cell where it has no underscore, a range where
/// it has one.
pub open spec fn reference_named(token: Seq<char>) -> Option<CellReference> {
    if first_underscore(token) >= token.len() {
        match cell_named(token) {
            Some(cell) => Some(CellReference::Cell(cell)),
            None => None,
        }
    } else {
        match range_named(token) {
            Some((start, end)) => Some(CellReference::Range(start, end)),
            None => None,
        }
    }
}

/// The first underscore of a token lies within it or at its end, and no
/// underscore stands before it.
pub proof fn lemma_first_underscore(token: Seq<char>)
    ensures
        0 <= first_underscore(token) <= token.len(),
        first_underscore(token) < token.len() ==> token[first_underscore(token)] == '_',
        forall|i: int| 0 <= i < first_underscore(token) ==> token[i] != '_',
    decreases token.len(),
{
    if token.len() == 0 || token[0] == '_' {
    } else {
        let rest = token.drop_first();
        lemma_first_underscore(rest);
        assert forall|i: int| 0 <= i < first_underscore(token) implies token[i] != '_' by {
            if i > 0 {
                assert(token[i] == rest[i - 1]);
            }
        }
    }
}

/// A position that holds an underscore, with none before it, is the first
/// underscore.
pub proof fn lemma_first_underscore_is(token: Seq<char>, at: int)
    requires
        0 <= at <= token.len(),
        at < token.len() ==> token[at] == '_',
        forall|i: int| 0 <= i < at ==> token[i] != '_',
    ensures
        first_underscore(token) == at,
{
    lemma_first_underscore(token);
    let first = first_underscore(token);
    if first < at {
        assert(token[first] != '_');
    }
}

/// Whether the column that the text names with the capitals at its
/// beginning, counted from one, is a number of 32 bits.
pub fn column_within(token: &str) -> (res: bool)
    ensures
        res == column_fits(token@),
{
    let length = token.unicode_len();
    let mut number: u64 = 0;
    let mut i: usize = 0;
    proof {
        assert(token@.take(0) =~= Seq::<char>::empty());
    }
    while i < length
        invariant
            0 <= i <= length,
            length == token@.len(),
            forall|j: int| 0 <= j < i ==> 'A' <= #[trigger] token@[j] <= 'Z',
            number == column_number(token@.take(i as int)),
            number <= u32::MAX,
        decreases length - i,
    {
        let c = token.get_char(i);
        if !('A' <= c && c <= 'Z') {
            proof {
                lemma_capitals_are(token@, i as int);
            }
            return true;
        }
        proof {
            let longer = token@.take(i + 1);
            assert(longer.drop_last() =~= token@.take(i as int));
            assert(longer.last() == c);
        }
        number = number * 26 + (c as u32 as u64 - 'A' as u32 as u64 + 1);
        if number > 0xffff_ffff {
            proof {
                lemma_capitals_reach(token@, i + 1);
                lemma_capitals(token@);
                let letters = token@.take(capitals(token@) as int);
                assert forall|j: int| 0 <= j < letters.len() implies 'A' <= #[trigger] letters[j]
                    <= 'Z' by {
                    assert(letters[j] == token@[j]);
                }
                lemma_column_grows(letters, i + 1);
                assert(letters.take(i + 1) =~= token@.take(i + 1));
            }
            return false;
        }
        i += 1;
    }
    proof {
        lemma_capitals_are(token@, length as int);
    }
    true
}

/// Reads the name of one cell.
pub fn parse_cell_name(token: &str) -> (cell: Option<CellIdentifier>)
    ensures
        cell == cell_named(token@),
{
    if column_within(token) {
        parse_cell(token)
    } else {
        None
    }
}

/// The position of the first underscore in the text from `from` on, or the
/// length of the text if there is none.
fn find_underscore(token: &str, from: usize) -> (at: usize)
    requires
        from <= token@.len(),
    ensures
        from <= at <= token@.len(),
        at - from == first_underscore(token@.subrange(from as int, token@.len() as int)),
{
    let length = token.unicode_len();
    let mut at: usize = from;
    while at < length && token.get_char(at) != '_'
        invariant
            from <= at <= length,
            length == token@.len(),
            forall|i: int| from <= i < at ==> token@[i] != '_',
        decreases length - at,
    {
        at += 1;
    }
    proof {
        let rest = token@.subrange(from as int, length as int);
        assert forall|i: int| 0 <= i < at - from implies rest[i] != '_' by {
            assert(rest[i] == token@[from + i]);
        }
        lemma_first_underscore_is(rest, at - from);
    }
    at
}

/// Reads the name of a range. A name with no underscore or with more than
/// one, a part that names no cell, and a range whose first cell lies below
/// or right of its second are all refused.
pub fn parse_range(range: &str) -> (parsed: Option<(CellIdentifier, CellIdentifier)>)
    ensures
        parsed == range_named(range@),
{
    let length = range.unicode_len();
    let at = find_underscore(range, 0);
    proof {
        assert(range@.subrange(0, length as int) =~= range@);
    }
    if at >= length {
        return None;
    }
    let after = find_underscore(range, at + 1);
    if after < length {
        return None;
    }
    let first = range.substring_char(0, at);
    let second = range.substring_char(at + 1, length);
    match (parse_cell_name(first), parse_cell_name(second)) {
        (Some(start), Some(end)) => {
            if start.col <= end.col && start.row <= end.row {
                Some((start, end))
            } else {
                None
            }
        },
        _ => None,
    }
}

/// Reads the name of a variable: that of a cell or that of a range.
pub fn parse_reference(token: &str) -> (parsed: Option<CellReference>)
    ensures
        parsed == reference_named(token@),
{
    let length = token.unicode_len();
    let at = find_underscore(token, 0);
    proof {
        assert(token@.subrange(0, length as int) =~= token@);
    }
    if at >= length {
        match parse_cell_name(token) {
            Some(cell) => Some(CellReference::Cell(cell)),
            None => None,
        }
    } else {
        match parse_range(token) {
            Some((start, end)) => Some(CellReference::Range(start, end)),
            None => None,
        }
    }
}

/// The variables among `names`: each name that refers to a cell or a range,
/// with what it refers to, in the order of the names.
pub open spec fn variables_named(names: Seq<Seq<char>>) -> Seq<(Seq<char>, CellReference)>
    decreases names.len(),
{
    if names.len() == 0 {
        Seq::empty()
    } else {
        let before = variables_named(names.drop_last());
        match reference_named(names.last()) {
            Some(reference) => before.push((names.last(), reference)),
            None => before,
        }
    }
}

/// Reads a list of names: those that refer to nothing are left out.
pub fn parse_variables(names: &Vec<String>) -> (variables: Vec<Variable>)
    ensures
        variables_view(variables@) == variables_named(names.deep_view()),
{
    let mut variables: Vec<Variable> = Vec::new();
    let mut i: usize = 0;
    proof {
        assert(names.deep_view().take(0) =~= Seq::<Seq<char>>::empty());
        assert(variables_view(variables@) =~= Seq::<(Seq<char>, CellReference)>::empty());
    }
    while i < names.len()
        invariant
            0 <= i <= names.len(),
            variables_view(variables@) == variables_named(names.deep_view().take(i as int)),
        decreases names.len() - i,
    {
        let ghost before = variables_view(variables@);
        proof {
            let prefix = names.deep_view().take(i + 1);
            assert(prefix.drop_last() =~= names.deep_view().take(i as int));
            assert(prefix.last() == names@[i as int]@);
        }
        match parse_reference(names[i].as_str()) {
            Some(reference) => {
                variables.push(Variable { name: names[i].clone(), reference });
                proof {
                    assert(variables_view(variables@) =~= before.push((names@[i as int]@, reference)));
                }
            },
            None => {},
        }
        i += 1;
    }
    proof {
        assert(names.deep_view().take(names.len() as int) =~= names.deep_view());
    }
    variables
}

/// The cells of row `row` from column `first` to column `last`.
pub open spec fn row_cells(row: u32, first: u32, last: u32) -> Seq<CellIdentifier> {
    Seq::new(span(first, last), |i: int| cell_at(first + i, row as int))
}

/// The cells of the first `rows` rows of the rectangle from `start` to
/// `end`, row by row.
pub open spec fn rows_cells(start: CellIdentifier, end: CellIdentifier, rows: nat) -> Seq<
    CellIdentifier,
>
    decreases rows,
{
    if rows == 0 {
        Seq::empty()
    } else {
        rows_cells(start, end, (rows - 1) as nat) + row_cells(
            (start.row + rows - 1) as u32,
            start.col,
            end.col,
        )
    }
}

/// The cells of the rectangle from `start` to `end`, row by row.
pub open spec fn range_cells(start: CellIdentifier, end: CellIdentifier) -> Seq<CellIdentifier> {
    rows_cells(start, end, span(start.row, end.row))
}

/// The cells that a reference reads.
pub open spec fn reference_cells(reference: CellReference) -> Seq<CellIdentifier> {
    match reference {
        CellReference::Cell(cell) => seq![cell],
        CellReference::Range(start, end) => range_cells(start, end),
    }
}

/// The cells that a list of variables reads: those of each variable in turn,
/// a cell as often as it is read.
pub open spec fn variables_cells(variables: Seq<(Seq<char>, CellReference)>) -> Seq<CellIdentifier>
    decreases variables.len(),
{
    if variables.len() == 0 {
        Seq::empty()
    } else {
        variables_cells(variables.drop_last()) + reference_cells(variables.last().1)
    }
}

/// Appends the cells of the rectangle from `start` to `end`, row by row.
pub fn push_range(cells: &mut Vec<CellIdentifier>, start: CellIdentifier, end: CellIdentifier)
    ensures
        final(cells)@ == old(cells)@ + range_cells(start, end),
{
    let ghost before = cells@;
    let mut row: u64 = start.row as u64;
    proof {
        assert(cells@ =~= before + rows_cells(start, end, 0));
    }
    while row <= end.row as u64
        invariant
            start.row <= row,
            row <= end.row + 1 || row == start.row,
            cells@ == before + rows_cells(start, end, (row - start.row) as nat),
        decreases end.row + 1 - row,
    {
        let ghost rows_before = cells@;
        let mut col: u64 = start.col as u64;
        proof {
            assert(cells@ =~= rows_before + row_cells(row as u32, start.col, end.col).take(0));
        }
        while col <= end.col as u64
            invariant
                start.col <= col,
                col <= end.col + 1 || col == start.col,
                start.row <= row <= end.row,
                cells@ == rows_before + row_cells(row as u32, start.col, end.col).take(
                    col - start.col,
                ),
            decreases end.col + 1 - col,
        {
            cells.push(CellIdentifier { col: col as u32, row: row as u32 });
            proof {
                let whole = row_cells(row as u32, start.col, end.col);
                let k = col - start.col;
                assert(whole[k] == cell_at(col as int, row as int));
                assert(whole.take(k).push(whole[k]) =~= whole.take(k + 1));
            }
            col += 1;
        }
        proof {
            let whole = row_cells(row as u32, start.col, end.col);
            assert(whole.take(span(start.col, end.col) as int) =~= whole);
            let rows = (row - start.row + 1) as nat;
            assert(rows_cells(start, end, rows) == rows_cells(start, end, (rows - 1) as nat) + whole);
            assert(cells@ =~= before + rows_cells(start, end, rows));
        }
        row += 1;
    }
}

/// The cells that the variables read, in the order of the variables: one
/// cell for the name of a cell, the cells of the rectangle, row by row, for
/// the name of a range.
pub fn expand_dependencies(variables: &Vec<Variable>) -> (cells: Vec<CellIdentifier>)
    ensures
        cells@ == variables_cells(variables_view(variables@)),
{
    let mut cells: Vec<CellIdentifier> = Vec::new();
    let mut i: usize = 0;
    proof {
        assert(variables_view(variables@).take(0) =~= Seq::<(Seq<char>, CellReference)>::empty());
    }
    while i < variables.len()
        invariant
            0 <= i <= variables.len(),
            cells@ == variables_cells(variables_view(variables@).take(i as int)),
        decreases variables.len() - i,
    {
        proof {
            let prefix = variables_view(variables@).take(i + 1);
            assert(prefix.drop_last() =~= variables_view(variables@).take(i as int));
            assert(prefix.last() == variables@[i as int]@);
        }
        match variables[i].reference {
            CellReference::Cell(cell) => {
                let ghost before = cells@;
                cells.push(cell);
                proof {
                    assert(cells@ =~= before + seq![cell]);
                }
            },
            CellReference::Range(start, end) => {
                push_range(&mut cells, start, end);
            },
        }
        i += 1;
    }
    proof {
        assert(variables_view(variables@).take(variables.len() as int) =~= variables_view(
            variables@,
        ));
    }
    cells
}

/// The variables of the expression `source`, each with what it refers to.
#[verifier::opaque]
pub open spec fn expression_references(source: Seq<char>) -> Seq<(Seq<char>, CellReference)> {
    variables_named(expression_variables(source))
}

/// The cells that the expression `source` reads.
pub open spec fn expression_cells(source: Seq<char>) -> Seq<CellIdentifier> {
    variables_cells(expression_references(source))
}

/// The variables of an expression, in the order in which the evaluator
/// reports them, each with what it refers to. Names that refer to nothing
/// are left out.
pub fn find_variables(source: &str) -> (variables: Vec<Variable>)
    ensures
        variables_view(variables@) == expression_references(source@),
{
    proof {
        reveal(expression_references);
    }
    let names = find_variable_names(source);
    parse_variables(&names)
}

} // verus!
