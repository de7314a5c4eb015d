//! The expression evaluator, as far as the engine calls it: the names of the
//! variables of an expression, the names of cells, and the scope that an
//! expression is evaluated with. The evaluator is not verified; each
//! function here states what is taken on trust. The evaluation itself is not
//! called from here: it may take as long as the expression asks, so it is
//! left to whoever drives the engine, who hands its outcome back.

use crate::cell::{Argument, BoundValue, CellIdentifier, CellValue};
use rsheet_lib::cell_expr::CellArgument as Bound;
use rsheet_lib::cell_expr::CellExpr;
use rsheet_lib::cell_value::CellValue as Given;
use std::collections::HashMap;
use vstd::prelude::*;

verus! {

/// What the evaluator takes a variable to be bound to.
#[verifier::external_type_specification]
#[verifier::external_body]
pub struct ExCellArgument(rsheet_lib::cell_expr::CellArgument);

/// The variables that an expression is evaluated with.
pub type Scope = HashMap<String, rsheet_lib::cell_expr::CellArgument>;

/// What each variable of a scope is bound to.
pub uninterp spec fn bound(scope: Scope) -> Map<Seq<char>, Argument>;

/// The variable names that the evaluator finds in the expression `source`,
/// in the order in which it reports them. They depend on the source text
/// alone, for one build of the evaluator: how deep an expression may nest
/// before it is refused is fixed when the evaluator is built.
pub uninterp spec fn expression_variables(source: Seq<char>) -> Seq<Seq<char>>;

/// The number of capital letters that `token` begins with.
pub open spec fn capitals(token: Seq<char>) -> nat
    decreases token.len(),
{
    if token.len() > 0 && 'A' <= token[0] <= 'Z' {
        1 + capitals(token.drop_first())
    } else {
        0
    }
}

/// The column, counted from one, that capital letters name: `A` to `Z` are
/// 1 to 26, `AA` is 27.
pub open spec fn column_number(letters: Seq<char>) -> nat
    decreases letters.len(),
{
    if letters.len() == 0 {
        0
    } else {
        (column_number(letters.drop_last()) * 26 + (letters.last() as u32 - 'A' as u32 + 1)) as nat
    }
}

/// Whether the text is made of decimal digits alone.
pub open spec fn all_digits(text: Seq<char>) -> bool {
    forall|i: int| 0 <= i < text.len() ==> '0' <= #[trigger] text[i] <= '9'
}

/// The number that decimal digits stand for.
pub open spec fn digits_value(digits: Seq<char>) -> nat
    decreases digits.len(),
{
    if digits.len() == 0 {
        0
    } else {
        (digits_value(digits.drop_last()) * 10 + (digits.last() as u32 - '0' as u32)) as nat
    }
}

/// The row, counted from one, that a text names: decimal digits, at least
/// one, before which a plus sign may stand, for a number of 32 bits.
pub open spec fn row_number(text: Seq<char>) -> Option<nat> {
    let digits = if text.len() > 0 && text[0] == '+' {
        text.drop_first()
    } else {
        text
    };
    if digits.len() > 0 && all_digits(digits) && digits_value(digits) <= u32::MAX {
        Some(digits_value(digits))
    } else {
        None
    }
}

/// The cell that `token` names: capital letters, at least one, for the
/// column, and after them the row, counted from one. It is what the
/// evaluator's library reads from a token whose column fits 32 bits.
#[verifier::opaque]
pub open spec fn parsed_cell(token: Seq<char>) -> Option<CellIdentifier> {
    let letters = capitals(token);
    if letters == 0 {
        None
    } else {
        match row_number(token.skip(letters as int)) {
            Some(row) => if row >= 1 {
                Some(
                    CellIdentifier {
                        col: (column_number(token.take(letters as int)) - 1) as u32,
                        row: (row - 1) as u32,
                    },
                )
            } else {
                None
            },
            None => None,
        }
    }
}

/// The column, counted from one, that the capitals at the beginning of
/// `token` name.
pub open spec fn named_column(token: Seq<char>) -> nat {
    column_number(token.take(capitals(token) as int))
}

/// Whether the column that `token` names, counted from one, is a number of
/// 32 bits. The library counts it in 32 bits, and not beyond.
pub open spec fn column_fits(token: Seq<char>) -> bool {
    named_column(token) <= u32::MAX
}

/// `rsheet_lib::cell_expr::CellExpr::find_variable_names`, on the expression
/// that `CellExpr::new` makes of `source`: the expression is parsed, not
/// evaluated, and the names are read off what was parsed.
#[verifier::external_body]
pub(crate) fn find_variable_names(source: &str) -> (names: Vec<String>)
    ensures
        names.deep_view() == expression_variables(source@),
{
    CellExpr::new(source).find_variable_names()
}

/// `str::parse` into `rsheet_lib::command::CellIdentifier`. The leading
/// upper-case letters name the column, which the library counts from one in
/// base 26 and then lessens by one. The rest is read by `str::parse` into
/// `u32`, which takes decimal digits with an optional plus sign before them,
/// and is lessened by one as well; a row of zero is refused.
#[verifier::external_body]
pub(crate) fn parse_cell(token: &str) -> (cell: Option<CellIdentifier>)
    requires
        column_fits(token@),
    ensures
        cell == parsed_cell(token@),
{
    match token.parse::<rsheet_lib::command::CellIdentifier>() {
        Ok(id) => Some(CellIdentifier { col: id.col, row: id.row }),
        Err(_) => None,
    }
}

/// `HashMap::new`: a scope without variables.
#[verifier::external_body]
pub(crate) fn empty_scope() -> (scope: Scope)
    ensures
        forall|name: Seq<char>| !bound(scope).contains_key(name),
{
    HashMap::new()
}

/// `HashMap::insert` of `name` with `argument`, written as the evaluator's
/// own `CellArgument`: the variable is bound anew, the others stay.
#[verifier::external_body]
pub(crate) fn bind(scope: &mut Scope, name: &str, argument: &BoundValue)
    ensures
        bound(*final(scope)) == bound(*old(scope)).insert(name@, argument@),
{
    let given = |value: &CellValue| match value {
        CellValue::Int(i) => Given::Int(*i),
        CellValue::String(s) => Given::String(s.clone()),
        CellValue::Error(s) => Given::Error(s.clone()),
        CellValue::Absent => Given::None,
    };
    let bound = match argument {
        BoundValue::Value(v) => Bound::Value(given(v)),
        BoundValue::Vector(r) => Bound::Vector(r.iter().map(given).collect()),
        BoundValue::Matrix(m) => Bound::Matrix(m.iter().map(|r| r.iter().map(given).collect()).collect()),
    };
    scope.insert(name.to_string(), bound);
}

/// The letters that a token begins with are capitals, and they lie within
/// the token.
pub proof fn lemma_capitals(token: Seq<char>)
    ensures
        capitals(token) <= token.len(),
        forall|i: int| 0 <= i < capitals(token) ==> 'A' <= #[trigger] token[i] <= 'Z',
    decreases token.len(),
{
    if token.len() > 0 && 'A' <= token[0] <= 'Z' {
        let rest = token.drop_first();
        lemma_capitals(rest);
        assert forall|i: int| 0 <= i < capitals(token) implies 'A' <= #[trigger] token[i]
            <= 'Z' by {
            if i > 0 {
                assert(token[i] == rest[i - 1]);
            }
        }
    }
}

/// Capital letters, at least one, name a column from one on.
pub proof fn lemma_column_number(letters: Seq<char>)
    requires
        letters.len() > 0,
        forall|i: int| 0 <= i < letters.len() ==> 'A' <= #[trigger] letters[i] <= 'Z',
    ensures
        column_number(letters) >= 1,
{
    assert('A' <= letters[letters.len() - 1] <= 'Z');
}

/// The more of its capitals are read, the larger the column: no column that
/// a part of the capitals names lies beyond the column that all of them
/// name.
pub proof fn lemma_column_grows(letters: Seq<char>, part: int)
    requires
        0 <= part <= letters.len(),
        forall|i: int| 0 <= i < letters.len() ==> 'A' <= #[trigger] letters[i] <= 'Z',
    ensures
        column_number(letters.take(part)) <= column_number(letters),
    decreases letters.len() - part,
{
    if part == letters.len() {
        assert(letters.take(part) =~= letters);
    } else {
        let before = letters.drop_last();
        assert forall|i: int| 0 <= i < before.len() implies 'A' <= #[trigger] before[i]
            <= 'Z' by {
            assert(before[i] == letters[i]);
        }
        lemma_column_grows(before, part);
        assert(before.take(part) =~= letters.take(part));
        assert('A' <= letters[letters.len() - 1] <= 'Z');
    }
}

/// Where the first `count` characters of a token are capitals, and the next
/// is none or the token ends, `count` is the number of its capitals.
pub proof fn lemma_capitals_are(token: Seq<char>, count: int)
    requires
        0 <= count <= token.len(),
        forall|i: int| 0 <= i < count ==> 'A' <= #[trigger] token[i] <= 'Z',
        count < token.len() ==> !('A' <= token[count] <= 'Z'),
    ensures
        capitals(token) == count,
    decreases token.len(),
{
    if count > 0 {
        let rest = token.drop_first();
        assert forall|i: int| 0 <= i < count - 1 implies 'A' <= #[trigger] rest[i] <= 'Z' by {
            assert(rest[i] == token[i + 1]);
        }
        assert('A' <= token[0] <= 'Z');
        lemma_capitals_are(rest, count - 1);
    }
}

/// Where the first `count` characters of a token are capitals, the token
/// has at least as many.
pub proof fn lemma_capitals_reach(token: Seq<char>, count: int)
    requires
        0 <= count <= token.len(),
        forall|i: int| 0 <= i < count ==> 'A' <= #[trigger] token[i] <= 'Z',
    ensures
        capitals(token) >= count,
    decreases token.len(),
{
    if count > 0 {
        let rest = token.drop_first();
        assert forall|i: int| 0 <= i < count - 1 implies 'A' <= #[trigger] rest[i] <= 'Z' by {
            assert(rest[i] == token[i + 1]);
        }
        assert('A' <= token[0] <= 'Z');
        lemma_capitals_reach(rest, count - 1);
    }
}

/// A token whose column fits 32 bits names, if it names a cell at all, a
/// column below the largest.
pub proof fn lemma_parsed_column(token: Seq<char>)
    requires
        column_fits(token),
    ensures
        parsed_cell(token) matches Some(cell) ==> cell.col < u32::MAX,
{
    reveal(parsed_cell);
    lemma_capitals(token);
    let count = capitals(token);
    if count > 0 {
        let letters = token.take(count as int);
        assert forall|i: int| 0 <= i < letters.len() implies 'A' <= #[trigger] letters[i]
            <= 'Z' by {
            assert(letters[i] == token[i]);
        }
        lemma_column_number(letters);
    }
}

} // verus!
