//! A session with one client: each message is read as a command; a `get`
//! is answered at once, a `set` asks for an evaluation, and the outcome of
//! the evaluation decides whether the `set` has a reply.

use crate::cell::{depends_on_error, CellExprEvalError, CellIdentifier, CellValue, Value};
use crate::expression::{column_fits, lemma_parsed_column, parsed_cell};
use crate::model::shown;
use crate::reference::column_within;
use crate::spreadsheet::{begins, Evaluation, SheetView, Spreadsheet};
use vstd::prelude::*;
use vstd::string::StrSliceExecFns;
use vstd::string::StringExecFns;

verus! {

/// What a client asks for.
#[derive(Debug)]
pub enum Command {
    /// The value of a cell.
    Get { cell_identifier: CellIdentifier },
    /// The assignment of an expression to a cell.
    Assign { cell_identifier: CellIdentifier, cell_expr: String },
}

/// A command as mathematics.
pub enum Request {
    Get(CellIdentifier),
    Assign(CellIdentifier, Seq<char>),
}

impl View for Command {
    type V = Request;

    open spec fn view(&self) -> Request {
        match self {
            Command::Get { cell_identifier } => Request::Get(*cell_identifier),
            Command::Assign { cell_identifier, cell_expr } => Request::Assign(
                *cell_identifier,
                cell_expr@,
            ),
        }
    }
}

/// What a client is told.
#[derive(PartialEq, Eq, Debug)]
pub enum Reply {
    /// The name of a cell and what it shows.
    Value(String, CellValue),
    /// What went wrong.
    Error(String),
}

/// A reply as mathematics.
pub enum Answer {
    Value(Seq<char>, Value),
    Error(Seq<char>),
}

impl View for Reply {
    type V = Answer;

    open spec fn view(&self) -> Answer {
        match self {
            Reply::Value(name, value) => Answer::Value(name@, value@),
            Reply::Error(text) => Answer::Error(text@),
        }
    }
}


/// The capital letter at place `i` of the alphabet, counted from zero.
pub open spec fn capital(i: int) -> char {
    seq![
        'A', 'B', 'C', 'D', 'E', 'F', 'G', 'H', 'I', 'J', 'K', 'L', 'M', 'N', 'O', 'P', 'Q', 'R',
        'S', 'T', 'U', 'V', 'W', 'X', 'Y', 'Z',
    ][i]
}

/// The letters for the `n`-th column, counted from one: `A` to `Z`, then
/// `AA` to `AZ`, `BA` and so on.
pub open spec fn letters(n: nat) -> Seq<char>
    decreases n,
{
    if n == 0 {
        Seq::empty()
    } else {
        letters(((n - 1) / 26) as nat).push(capital((n - 1) % 26))
    }
}

/// The letters by which a column is named.
pub open spec fn column_letters(col: u32) -> Seq<char> {
    letters((col + 1) as nat)
}

/// Whether the character is white space in ASCII.
pub open spec fn is_space(c: char) -> bool {
    c == ' ' || c == '\t' || c == '\n' || c == '\x0C' || c == '\r'
}

/// The position of the first white space of `text`, or its length if it
/// has none.
pub open spec fn first_space(text: Seq<char>) -> int
    decreases text.len(),
{
    if text.len() == 0 || is_space(text[0]) {
        0
    } else {
        1 + first_space(text.drop_first())
    }
}

/// The second word of a message: what stands between its first white space
/// and the next. It is where a command names its cell.
pub open spec fn second_word(message: Seq<char>) -> Seq<char> {
    let first = first_space(message);
    if first >= message.len() {
        Seq::empty()
    } else {
        let rest = message.subrange(first + 1, message.len() as int);
        rest.subrange(0, first_space(rest))
    }
}

/// The digit for a number below ten.
pub open spec fn digit(d: int) -> char {
    seq!['0', '1', '2', '3', '4', '5', '6', '7', '8', '9'][d]
}

/// A number in decimal.
pub open spec fn decimal(n: nat) -> Seq<char>
    decreases n,
{
    if n < 10 {
        seq![digit(n as int)]
    } else {
        decimal(n / 10).push(digit((n % 10) as int))
    }
}

/// The name by which a cell is shown: the letters of its column, then its
/// row, counted from one.
pub open spec fn shown_name(cell: CellIdentifier) -> Seq<char> {
    column_letters(cell.col) + decimal((cell.row + 1) as nat)
}

/// What a client is told of a cell that shows `value`: that the cell
/// depends on a cell in error where it shows the marker of a tainted input,
/// and the name and the value otherwise.
pub open spec fn answer_to_get(name: Seq<char>, value: Value) -> Answer {
    if value == depends_on_error() {
        Answer::Error("Cell depends on another error cell"@)
    } else {
        Answer::Value(name, value)
    }
}

/// The complaint about a message that is no command.
pub open spec fn refusal(message: Seq<char>) -> Seq<char> {
    "Error parsing request: "@ + message
}

/// What a message is read as. Its first word is `get` or `set`, its second
/// word names a cell, and white space stands between them. After `get`
/// nothing follows, not even white space. After `set` white space follows,
/// and the rest of the message, as it stands, is the expression. Anything
/// else is answered with a complaint.
pub open spec fn parsed_command(message: Seq<char>) -> Result<Request, Seq<char>> {
    let first = first_space(message);
    if first >= message.len() {
        Err(refusal(message))
    } else {
        let rest = message.subrange(first + 1, message.len() as int);
        let end = first_space(rest);
        match parsed_cell(rest.subrange(0, end)) {
            None => Err(refusal(message)),
            Some(cell) => {
                let word = message.subrange(0, first);
                if word == "get"@ && end >= rest.len() {
                    Ok(Request::Get(cell))
                } else if word == "set"@ && end < rest.len() {
                    Ok(Request::Assign(cell, rest.subrange(end + 1, rest.len() as int)))
                } else {
                    Err(refusal(message))
                }
            },
        }
    }
}

/// `str::parse` into `rsheet_lib::command::Command`. The message is split at
/// its first two characters of white space; the second part is read as the
/// name of a cell before the first is looked at; `get` takes no third part
/// and `set` takes one; the complaint is `Error parsing request: ` and the
/// message.
#[verifier::external_body]
pub(crate) fn parse_command(message: &str) -> (command: Result<Command, String>)
    requires
        column_fits(second_word(message@)),
    ensures
        match command {
            Ok(read) => parsed_command(message@) == Ok::<Request, Seq<char>>(read@),
            Err(text) => parsed_command(message@) == Err::<Request, Seq<char>>(text@),
        },
{
    match message.parse::<rsheet_lib::command::Command>() {
        Ok(rsheet_lib::command::Command::Get { cell_identifier }) => Ok(Command::Get {
            cell_identifier: CellIdentifier { col: cell_identifier.col, row: cell_identifier.row },
        }),
        Ok(rsheet_lib::command::Command::Set { cell_identifier, cell_expr }) => Ok(Command::Assign {
            cell_identifier: CellIdentifier { col: cell_identifier.col, row: cell_identifier.row },
            cell_expr,
        }),
        Err(text) => Err(text),
    }
}

/// `rsheet_lib::cells::column_number_to_name`. The library counts the
/// column from one and takes its letters from the right, each the remainder
/// by 26 with `Z` for none. It adds the one in 32 bits, so the largest
/// column is left out.
#[verifier::external_body]
pub(crate) fn column_name(col: u32) -> (name: String)
    requires
        col < u32::MAX,
    ensures
        name@ == column_letters(col),
{
    rsheet_lib::cells::column_number_to_name(col)
}

/// The text of one decimal digit.
fn digit_text(d: u64) -> (text: &'static str)
    requires
        d < 10,
    ensures
        text@ == seq![digit(d as int)],
{
    proof {
        reveal_strlit("0");
        reveal_strlit("1");
        reveal_strlit("2");
        reveal_strlit("3");
        reveal_strlit("4");
        reveal_strlit("5");
        reveal_strlit("6");
        reveal_strlit("7");
        reveal_strlit("8");
        reveal_strlit("9");
    }
    let text = if d == 0 {
        "0"
    } else if d == 1 {
        "1"
    } else if d == 2 {
        "2"
    } else if d == 3 {
        "3"
    } else if d == 4 {
        "4"
    } else if d == 5 {
        "5"
    } else if d == 6 {
        "6"
    } else if d == 7 {
        "7"
    } else if d == 8 {
        "8"
    } else {
        "9"
    };
    proof {
        assert(text@ =~= seq![digit(d as int)]);
    }
    text
}

/// A number written in decimal.
pub fn decimal_text(number: u64) -> (text: String)
    ensures
        text@ == decimal(number as nat),
    decreases number,
{
    if number < 10 {
        digit_text(number).to_string()
    } else {
        let mut text = decimal_text(number / 10);
        text.append(digit_text(number % 10));
        proof {
            assert(text@ =~= decimal((number / 10) as nat).push(digit((number % 10) as int)));
        }
        text
    }
}

/// The name by which a cell is shown.
pub fn display_name(cell: &CellIdentifier) -> (name: String)
    requires
        cell.col < u32::MAX,
    ensures
        name@ == shown_name(*cell),
{
    let row = decimal_text(cell.row as u64 + 1);
    column_name(cell.col).concat(row.as_str())
}

/// What a client is told of a cell with the name `name` that shows
/// `value`.
pub fn reply_to_get(name: String, value: CellValue) -> (reply: Reply)
    ensures
        reply@ == answer_to_get(name@, value@),
{
    match value {
        CellValue::Error(text) => {
            let marker = "VariableDependsOnError".to_string();
            if text == marker {
                Reply::Error("Cell depends on another error cell".to_string())
            } else {
                Reply::Value(name, CellValue::Error(text))
            }
        },
        other => Reply::Value(name, other),
    }
}

/// What a session does next.
#[derive(Debug)]
pub enum Action {
    /// Tell the client.
    Reply(Reply),
    /// Evaluate the expression for the cell, assign it with the outcome, and
    /// tell the client what `reply_to_set` makes of the result.
    Evaluate(CellIdentifier, Evaluation),
}

/// Whether `action` and `after` are what a command makes of the
/// spreadsheet `before`. A `get` leaves the spreadsheet as it is and is
/// answered with what the cell shows. A `set` begins the evaluation of its
/// expression for its cell.
pub open spec fn responded(
    before: SheetView,
    after: SheetView,
    request: Request,
    action: Action,
) -> bool {
    match request {
        Request::Get(cell) => {
            &&& after == before
            &&& action matches Action::Reply(told)
            &&& told@ == answer_to_get(shown_name(cell), shown(before.cells, cell))
        },
        Request::Assign(cell, expression) => {
            &&& action matches Action::Evaluate(target, evaluation)
            &&& target == cell
            &&& begins(before, after, expression, evaluation)
        },
    }
}

/// Takes up a command: the reply to a `get`, or the evaluation that a `set`
/// asks for.
pub fn respond(sheet: &mut Spreadsheet, command: Command) -> (action: Action)
    requires
        old(sheet).wf(),
        command matches Command::Get { cell_identifier } ==> cell_identifier.col < u32::MAX,
    ensures
        final(sheet).wf(),
        responded(old(sheet)@, final(sheet)@, command@, action),
{
    match command {
        Command::Get { cell_identifier } => {
            let name = display_name(&cell_identifier);
            let value = sheet.get(&cell_identifier);
            Action::Reply(reply_to_get(name, value))
        },
        Command::Assign { cell_identifier, cell_expr } => {
            Action::Evaluate(cell_identifier, sheet.evaluation(cell_expr))
        },
    }
}

/// What a client is told of a `set`: nothing where it succeeded, and the
/// error where it failed.
pub fn reply_to_set(result: Result<(), CellExprEvalError>) -> (reply: Option<Reply>)
    ensures
        result is Ok ==> reply is None,
        result is Err ==> {
            &&& reply matches Some(told)
            &&& told@ == Answer::Error("Error: VariableDependsOnError"@)
        },
{
    match result {
        Ok(()) => None,
        Err(CellExprEvalError::VariableDependsOnError) => Some(
            Reply::Error("Error: VariableDependsOnError".to_string()),
        ),
    }
}

/// A position that holds white space, with none before it, is the first
/// white space.
proof fn lemma_first_space_is(text: Seq<char>, at: int)
    requires
        0 <= at <= text.len(),
        at < text.len() ==> is_space(text[at]),
        forall|i: int| 0 <= i < at ==> !is_space(text[i]),
    ensures
        first_space(text) == at,
    decreases text.len(),
{
    if text.len() == 0 || is_space(text[0]) {
    } else {
        let rest = text.drop_first();
        assert forall|i: int| 0 <= i < at - 1 implies !is_space(rest[i]) by {
            assert(rest[i] == text[i + 1]);
        }
        lemma_first_space_is(rest, at - 1);
    }
}

/// The position of the first white space in the text from `from` on, or
/// the length of the text if there is none.
fn find_space(text: &str, from: usize) -> (at: usize)
    requires
        from <= text@.len(),
    ensures
        from <= at <= text@.len(),
        at - from == first_space(text@.subrange(from as int, text@.len() as int)),
{
    let length = text.unicode_len();
    let mut at: usize = from;
    while at < length
        invariant
            from <= at <= length,
            length == text@.len(),
            forall|i: int| from <= i < at ==> !is_space(text@[i]),
        decreases length - at,
    {
        let c = text.get_char(at);
        if c == ' ' || c == '\t' || c == '\n' || c == '\x0C' || c == '\r' {
            proof {
                let rest = text@.subrange(from as int, length as int);
                assert forall|i: int| 0 <= i < at - from implies !is_space(rest[i]) by {
                    assert(rest[i] == text@[from + i]);
                }
                assert(rest[at - from] == text@[at as int]);
                lemma_first_space_is(rest, at - from);
            }
            return at;
        }
        at += 1;
    }
    proof {
        let rest = text@.subrange(from as int, length as int);
        assert forall|i: int| 0 <= i < at - from implies !is_space(rest[i]) by {
            assert(rest[i] == text@[from + i]);
        }
        lemma_first_space_is(rest, at - from);
    }
    at
}

/// What a message is read as by the library: a command as `parsed_command`
/// says, where the column that its second word names is a number of 32
/// bits, and a complaint beyond that.
pub open spec fn command_read(message: Seq<char>) -> Result<Request, Seq<char>> {
    if column_fits(second_word(message)) {
        parsed_command(message)
    } else {
        Err(refusal(message))
    }
}

/// Whether the column that the second word of the message names is a number
/// of 32 bits.
fn names_column_within(message: &str) -> (res: bool)
    ensures
        res == column_fits(second_word(message@)),
{
    let length = message.unicode_len();
    let first = find_space(message, 0);
    proof {
        assert(message@.subrange(0, length as int) =~= message@);
    }
    if first >= length {
        proof {
            let word = second_word(message@);
            assert(word =~= Seq::<char>::empty());
            assert(word.take(0) =~= Seq::<char>::empty());
        }
        return true;
    }
    let end = find_space(message, first + 1);
    let word = message.substring_char(first + 1, end);
    proof {
        let rest = message@.subrange(first + 1, length as int);
        assert(word@ =~= rest.subrange(0, first_space(rest)));
    }
    column_within(word)
}

/// Reads a message as a command. A message that is no command is answered
/// with a complaint; so is a message whose second word names a column
/// beyond the numbers of 32 bits. The column of a cell to get is below the
/// largest column.
pub fn read_command(message: &str) -> (command: Result<Command, Reply>)
    ensures
        match command_read(message@) {
            Ok(request) => {
                &&& command matches Ok(read)
                &&& read@ == request
            },
            Err(text) => {
                &&& command matches Err(told)
                &&& told@ == Answer::Error(text)
            },
        },
        command matches Ok(Command::Get { cell_identifier }) ==> cell_identifier.col < u32::MAX,
{
    if !names_column_within(message) {
        let mut text = "Error parsing request: ".to_string();
        text.append(message);
        return Err(Reply::Error(text));
    }
    proof {
        lemma_parsed_column(second_word(message@));
    }
    match parse_command(message) {
        Ok(command) => Ok(command),
        Err(text) => Err(Reply::Error(text)),
    }
}

/// Reads a message as a command and takes the command up. A message that
/// is no command is answered with a complaint, as `read_command` says.
pub fn handle_message(sheet: &mut Spreadsheet, message: &str) -> (action: Action)
    requires
        old(sheet).wf(),
    ensures
        final(sheet).wf(),
        match command_read(message@) {
            Ok(request) => responded(old(sheet)@, final(sheet)@, request, action),
            Err(text) => {
                &&& final(sheet)@ == old(sheet)@
                &&& action matches Action::Reply(told)
                &&& told@ == Answer::Error(text)
            },
        },
{
    match read_command(message) {
        Ok(command) => respond(sheet, command),
        Err(told) => Action::Reply(told),
    }
}

} // verus!
