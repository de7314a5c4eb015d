use rsheet::session::{
    decimal_text, display_name, handle_message, read_command, reply_to_get, reply_to_set,
    respond, Action, Command, Reply,
};
use rsheet::{CellExprEvalError, CellIdentifier, CellValue, Evaluation, Spreadsheet};
use rsheet_lib::cell_expr::CellExpr;

fn outcome_of(evaluation: &Evaluation) -> Result<CellValue, CellExprEvalError> {
    match CellExpr::new(&evaluation.expression).evaluate(&evaluation.scope) {
        Ok(rsheet_lib::cell_value::CellValue::Int(i)) => Ok(CellValue::Int(i)),
        Ok(rsheet_lib::cell_value::CellValue::String(s)) => Ok(CellValue::String(s)),
        Ok(rsheet_lib::cell_value::CellValue::Error(s)) => Ok(CellValue::Error(s)),
        Ok(rsheet_lib::cell_value::CellValue::None) => Ok(CellValue::Absent),
        Err(rsheet_lib::cell_expr::CellExprEvalError::VariableDependsOnError) => {
            Err(CellExprEvalError::VariableDependsOnError)
        }
    }
}

fn carry_out(sheet: &mut Spreadsheet, action: Action) -> Option<Reply> {
    match action {
        Action::Reply(reply) => Some(reply),
        Action::Evaluate(cell_id, evaluation) => {
            let outcome = outcome_of(&evaluation);
            reply_to_set(sheet.set(cell_id, evaluation, outcome))
        }
    }
}

fn handle(sheet: &mut Spreadsheet, message: &str) -> Option<Reply> {
    let action = handle_message(sheet, message);
    carry_out(sheet, action)
}

fn cell(col: u32, row: u32) -> CellIdentifier {
    CellIdentifier { col, row }
}

#[test]
fn cell_is_shown_by_letters_and_row_from_one() {
    assert_eq!(display_name(&cell(0, 0)), "A1");
    assert_eq!(display_name(&cell(1, 6)), "B7");
    assert_eq!(display_name(&cell(25, 9)), "Z10");
    assert_eq!(display_name(&cell(26, 0)), "AA1");
    assert_eq!(display_name(&cell(702, 99)), "AAA100");
    assert_eq!(display_name(&cell(0, u32::MAX)), "A4294967296");
    assert_eq!(display_name(&cell(u32::MAX - 1, 0)), "MWLQKWU1");
    assert_eq!(display_name(&cell(51, 0)), "AZ1");
    assert_eq!(display_name(&cell(52, 0)), "BA1");
    assert_eq!(display_name(&cell(701, 0)), "ZZ1");
    assert_eq!(display_name(&cell(703, 9)), "AAB10");
}

#[test]
fn number_is_written_in_decimal() {
    assert_eq!(decimal_text(0), "0");
    assert_eq!(decimal_text(7), "7");
    assert_eq!(decimal_text(10), "10");
    assert_eq!(decimal_text(909), "909");
    assert_eq!(decimal_text(4_294_967_296), "4294967296");
    assert_eq!(decimal_text(u64::MAX), "18446744073709551615");
}

#[test]
fn get_is_answered_with_name_and_value() {
    assert_eq!(
        reply_to_get("A1".to_string(), CellValue::Int(3)),
        Reply::Value("A1".to_string(), CellValue::Int(3))
    );
    assert_eq!(
        reply_to_get("B2".to_string(), CellValue::Absent),
        Reply::Value("B2".to_string(), CellValue::Absent)
    );
    assert_eq!(
        reply_to_get("B2".to_string(), CellValue::String("VariableDependsOnError".to_string())),
        Reply::Value(
            "B2".to_string(),
            CellValue::String("VariableDependsOnError".to_string())
        )
    );
    assert_eq!(
        reply_to_get("C3".to_string(), CellValue::Error("local".to_string())),
        Reply::Value("C3".to_string(), CellValue::Error("local".to_string()))
    );
}

#[test]
fn get_of_a_tainted_cell_is_answered_with_an_error() {
    assert_eq!(
        reply_to_get(
            "A1".to_string(),
            CellValue::Error("VariableDependsOnError".to_string())
        ),
        Reply::Error("Cell depends on another error cell".to_string())
    );
}

#[test]
fn message_is_read_as_get_or_set() {
    match read_command("get B7") {
        Ok(Command::Get { cell_identifier }) => assert_eq!(cell_identifier, cell(1, 6)),
        other => panic!("Expected get, got {:?}", other),
    }
    match read_command("set AA1 1 + 2") {
        Ok(Command::Assign {
            cell_identifier,
            cell_expr,
        }) => {
            assert_eq!(cell_identifier, cell(26, 0));
            assert_eq!(cell_expr, "1 + 2");
        }
        other => panic!("Expected set, got {:?}", other),
    }
}

#[test]
fn message_is_split_at_its_first_two_spaces() {
    match read_command("set A1  5") {
        Ok(Command::Assign { cell_expr, .. }) => assert_eq!(cell_expr, " 5"),
        other => panic!("Expected set, got {:?}", other),
    }
    match read_command("set A1 ") {
        Ok(Command::Assign { cell_expr, .. }) => assert_eq!(cell_expr, ""),
        other => panic!("Expected set, got {:?}", other),
    }
    match read_command("set\tB2\n1 +\t2 ") {
        Ok(Command::Assign {
            cell_identifier,
            cell_expr,
        }) => {
            assert_eq!(cell_identifier, cell(1, 1));
            assert_eq!(cell_expr, "1 +\t2 ");
        }
        other => panic!("Expected set, got {:?}", other),
    }
    match read_command("get\rC3") {
        Ok(Command::Get { cell_identifier }) => assert_eq!(cell_identifier, cell(2, 2)),
        other => panic!("Expected get, got {:?}", other),
    }
    match read_command("get\u{c}C+3") {
        Ok(Command::Get { cell_identifier }) => assert_eq!(cell_identifier, cell(2, 2)),
        other => panic!("Expected get, got {:?}", other),
    }
    for message in [
        "get A1 ",
        " get A1",
        "get\u{a0}A1",
        "get\u{b}A1",
        "Get A1",
        "set A0 1",
        "SET A1 1",
        "get A1\n",
    ] {
        match read_command(message) {
            Err(Reply::Error(text)) => {
                assert_eq!(text, format!("Error parsing request: {}", message))
            }
            other => panic!("Expected complaint, got {:?}", other),
        }
    }
}

#[test]
fn what_is_no_command_is_answered_with_a_complaint() {
    for message in [
        "",
        "get",
        "get A0",
        "get A1 B2",
        "set A1",
        "put A1 3",
        "get  A1",
        "get a1",
    ] {
        match read_command(message) {
            Err(Reply::Error(text)) => {
                assert_eq!(text, format!("Error parsing request: {}", message))
            }
            other => panic!("Expected complaint, got {:?}", other),
        }
    }
}

#[test]
fn column_of_seven_letters_is_read_where_it_fits() {
    match read_command("get AAAAAAA1") {
        Ok(Command::Get { cell_identifier }) => {
            assert_eq!(cell_identifier, cell(321_272_406, 0))
        }
        other => panic!("Expected get, got {:?}", other),
    }
    match read_command("set MWLQKWU7 3") {
        Ok(Command::Assign {
            cell_identifier,
            cell_expr,
        }) => {
            assert_eq!(cell_identifier, cell(u32::MAX - 1, 6));
            assert_eq!(cell_expr, "3");
        }
        other => panic!("Expected set, got {:?}", other),
    }
    let mut sheet = Spreadsheet::new();
    assert_eq!(
        handle(&mut sheet, "get AAAAAAA1"),
        Some(Reply::Value("AAAAAAA1".to_string(), CellValue::Absent))
    );
    assert_eq!(handle(&mut sheet, "set AAAAAAA1 3"), None);
    assert_eq!(
        handle(&mut sheet, "get AAAAAAA1"),
        Some(Reply::Value("AAAAAAA1".to_string(), CellValue::Int(3)))
    );
    assert_eq!(handle(&mut sheet, "set B1 AAAAAAA1 + 1"), None);
    assert_eq!(sheet.dependencies(&cell(1, 0)), vec![cell(321_272_406, 0)]);
    assert_eq!(
        handle(&mut sheet, "get B1"),
        Some(Reply::Value("B1".to_string(), CellValue::Int(4)))
    );
}

#[test]
fn column_beyond_32_bits_is_answered_with_a_complaint() {
    for message in ["get MWLQKWV1", "set ZZZZZZZZ9 4", "x ABCDEFGHIJ", "get AAAAAAAA1"] {
        match read_command(message) {
            Err(Reply::Error(text)) => {
                assert_eq!(text, format!("Error parsing request: {}", message))
            }
            other => panic!("Expected complaint, got {:?}", other),
        }
    }
    // long words elsewhere do no harm
    match read_command("set A1 \"ABCDEFGHIJ\"") {
        Ok(Command::Assign { cell_expr, .. }) => assert_eq!(cell_expr, "\"ABCDEFGHIJ\""),
        other => panic!("Expected set, got {:?}", other),
    }
    assert!(read_command("ABCDEFGHIJ A1 1").is_err());
}

#[test]
fn set_has_no_reply_and_get_shows_the_value() {
    let mut sheet = Spreadsheet::new();
    assert_eq!(
        handle(&mut sheet, "get A1"),
        Some(Reply::Value("A1".to_string(), CellValue::Absent))
    );
    assert_eq!(handle(&mut sheet, "set A1 5"), None);
    assert_eq!(handle(&mut sheet, "set B1 A1 * 2"), None);
    assert_eq!(
        handle(&mut sheet, "get A1"),
        Some(Reply::Value("A1".to_string(), CellValue::Int(5)))
    );
    assert_eq!(
        handle(&mut sheet, "get B1"),
        Some(Reply::Value("B1".to_string(), CellValue::Int(10)))
    );
    assert_eq!(sheet.next_update(), Some(cell(0, 0)));
    assert_eq!(sheet.next_update(), Some(cell(1, 0)));
}

#[test]
fn set_of_what_cannot_be_evaluated_has_no_reply_either() {
    let mut sheet = Spreadsheet::new();
    assert_eq!(handle(&mut sheet, "set A1 1 +"), None);
    match handle(&mut sheet, "get A1") {
        Some(Reply::Value(name, CellValue::Error(_))) => assert_eq!(name, "A1"),
        other => panic!("Expected an error value, got {:?}", other),
    }
    assert_eq!(handle(&mut sheet, "set B1 A1"), None);
    assert_eq!(
        handle(&mut sheet, "get B1"),
        Some(Reply::Error(
            "Cell depends on another error cell".to_string()
        ))
    );
}

#[test]
fn set_asks_for_an_evaluation_and_writes_nothing_yet() {
    let mut sheet = Spreadsheet::new();
    assert_eq!(handle(&mut sheet, "set A1 4"), None);
    match handle_message(&mut sheet, "set B2 A1 + 1") {
        Action::Evaluate(cell_id, evaluation) => {
            assert_eq!(cell_id, cell(1, 1));
            assert_eq!(evaluation.expression, "A1 + 1");
            assert_eq!(evaluation.dependencies, vec![cell(0, 0)]);
            assert_eq!(outcome_of(&evaluation), Ok(CellValue::Int(5)));
        }
        other => panic!("Expected an evaluation, got {:?}", other),
    }
    assert!(!sheet.contains(&cell(1, 1)));
    assert_eq!(sheet.next_update(), Some(cell(0, 0)));
    assert_eq!(sheet.next_update(), None);
}

#[test]
fn set_is_answered_only_when_it_failed() {
    assert_eq!(reply_to_set(Ok(())), None);
    assert_eq!(
        reply_to_set(Err(CellExprEvalError::VariableDependsOnError)),
        Some(Reply::Error("Error: VariableDependsOnError".to_string()))
    );
}

#[test]
fn complaint_leaves_the_spreadsheet_alone() {
    let mut sheet = Spreadsheet::new();
    assert_eq!(
        handle(&mut sheet, "bogus"),
        Some(Reply::Error("Error parsing request: bogus".to_string()))
    );
    assert_eq!(
        handle(&mut sheet, "set AAAAAAAA1 3"),
        Some(Reply::Error(
            "Error parsing request: set AAAAAAAA1 3".to_string()
        ))
    );
    assert_eq!(sheet.next_update(), None);
}

#[test]
fn command_is_taken_up() {
    let mut sheet = Spreadsheet::new();
    let action = respond(
        &mut sheet,
        Command::Assign {
            cell_identifier: cell(2, 2),
            cell_expr: "7".to_string(),
        },
    );
    assert_eq!(carry_out(&mut sheet, action), None);
    let action = respond(
        &mut sheet,
        Command::Get {
            cell_identifier: cell(2, 2),
        },
    );
    assert_eq!(
        carry_out(&mut sheet, action),
        Some(Reply::Value("C3".to_string(), CellValue::Int(7)))
    );
}
