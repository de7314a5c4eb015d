use rsheet::{CellExprEvalError, CellIdentifier, CellValue, Evaluation, Spreadsheet};
use rsheet_lib::cell_expr::CellExpr;
use std::collections::HashMap;

fn outcome_of(evaluation: &Evaluation) -> Result<CellValue, CellExprEvalError> {
    match CellExpr::new(&evaluation.expression).evaluate(&evaluation.scope) {
        Ok(rsheet_lib::cell_value::CellValue::Int(i)) => Ok(CellValue::Int(i)),
        Ok(rsheet_lib::cell_value::CellValue::String(s)) => Ok(CellValue::String(s)),
        Ok(rsheet_lib::cell_value::CellValue::Error(s)) => Ok(CellValue::Error(s)),
        Ok(rsheet_lib::cell_value::CellValue::None) => Ok(CellValue::Absent),
        Err(rsheet_lib::cell_expr::CellExprEvalError::VariableDependsOnError) => {
            Err(CellExprEvalError::VariableDependsOnError)
        }
    }
}

fn set(
    sheet: &mut Spreadsheet,
    cell_id: CellIdentifier,
    expression: String,
) -> Result<(), CellExprEvalError> {
    let evaluation = sheet.evaluation(expression);
    let outcome = outcome_of(&evaluation);
    sheet.set(cell_id, evaluation, outcome)
}

fn settle(sheet: &mut Spreadsheet) {
    while let Some((cell_id, evaluation)) = sheet.next_recomputation() {
        let outcome = outcome_of(&evaluation);
        sheet.recompute(&cell_id, &evaluation, outcome);
    }
}


fn sorted(mut cells: Vec<CellIdentifier>) -> Vec<CellIdentifier> {
    cells.sort();
    cells
}

fn cell(col: u32, row: u32) -> CellIdentifier {
    CellIdentifier { col, row }
}

fn assign(sheet: &mut Spreadsheet, id: CellIdentifier, reads: &[CellIdentifier]) {
    assert!(sheet
        .update_cell_info(id, CellValue::Int(0), "0".to_string(), reads.to_vec(), 1)
        .is_ok());
}

fn position(order: &[CellIdentifier], id: CellIdentifier) -> usize {
    let found: Vec<usize> = (0..order.len()).filter(|i| order[*i] == id).collect();
    assert_eq!(found.len(), 1, "{:?} once in {:?}", id, order);
    found[0]
}

#[test]
fn change_of_a_cell_that_nothing_reads_reaches_nothing() {
    let mut sheet = Spreadsheet::new();
    assign(&mut sheet, cell(0, 0), &[]);
    assign(&mut sheet, cell(1, 0), &[]);
    assert_eq!(sheet.update_order(cell(0, 0)), Vec::new());
    assert_eq!(sheet.update_order(cell(7, 7)), Vec::new());
}

#[test]
fn chain_is_recomputed_from_the_origin_outwards() {
    let mut sheet = Spreadsheet::new();
    let cells: Vec<CellIdentifier> = (0..6).map(|row| cell(0, row)).collect();
    assign(&mut sheet, cells[0], &[]);
    for i in 1..6 {
        assign(&mut sheet, cells[i], &[cells[i - 1]]);
    }
    assert_eq!(sheet.update_order(cells[0]), cells[1..].to_vec());
    assert_eq!(sheet.update_order(cells[3]), cells[4..].to_vec());
    assert_eq!(sheet.update_order(cells[5]), Vec::new());
}

#[test]
fn origin_outside_a_cycle_is_not_recomputed() {
    let mut sheet = Spreadsheet::new();
    let a1 = cell(0, 0);
    let b1 = cell(1, 0);
    assign(&mut sheet, a1, &[]);
    assign(&mut sheet, b1, &[a1]);
    assert_eq!(sheet.update_order(a1), vec![b1]);
}

#[test]
fn diamond_is_recomputed_with_the_join_last() {
    let mut sheet = Spreadsheet::new();
    let a = cell(0, 0);
    let b = cell(1, 0);
    let c = cell(2, 0);
    let d = cell(3, 0);
    let e = cell(4, 0);
    assign(&mut sheet, a, &[]);
    assign(&mut sheet, b, &[a]);
    assign(&mut sheet, c, &[a]);
    assign(&mut sheet, d, &[b, c]);
    assign(&mut sheet, e, &[d, a]);
    let order = sheet.update_order(a);
    assert_eq!(order.len(), 4);
    assert!(position(&order, b) < position(&order, d));
    assert!(position(&order, c) < position(&order, d));
    assert!(position(&order, d) < position(&order, e));
}

#[test]
fn cell_read_over_a_long_and_a_short_way_comes_after_both() {
    let mut sheet = Spreadsheet::new();
    let a = cell(0, 0);
    let b = cell(1, 0);
    let c = cell(2, 0);
    let d = cell(3, 0);
    assign(&mut sheet, a, &[]);
    assign(&mut sheet, d, &[a]);
    assign(&mut sheet, b, &[a]);
    assign(&mut sheet, c, &[b]);
    assign(&mut sheet, d, &[a, c]);
    let order = sheet.update_order(a);
    assert_eq!(order, vec![b, c, d]);
}

#[test]
fn cycle_is_recomputed_once_and_ends() {
    let mut sheet = Spreadsheet::new();
    let a = cell(0, 0);
    let b = cell(1, 0);
    let c = cell(2, 0);
    assign(&mut sheet, a, &[]);
    assign(&mut sheet, b, &[a]);
    assign(&mut sheet, c, &[b]);
    assign(&mut sheet, a, &[c]);
    for origin in [a, b, c] {
        let order = sheet.update_order(origin);
        assert_eq!(order.len(), 3);
        for id in [a, b, c] {
            position(&order, id);
        }
    }
}

#[test]
fn cells_behind_a_cycle_come_after_it() {
    let mut sheet = Spreadsheet::new();
    let a = cell(0, 0);
    let b = cell(1, 0);
    let c = cell(2, 0);
    let d = cell(3, 0);
    assign(&mut sheet, a, &[]);
    assign(&mut sheet, b, &[a]);
    assign(&mut sheet, c, &[b]);
    assign(&mut sheet, b, &[a, c]);
    assign(&mut sheet, d, &[c]);
    let order = sheet.update_order(a);
    assert_eq!(order.len(), 3);
    assert!(position(&order, c) < position(&order, d));
    position(&order, b);
}

fn started_at(time: u64) -> Evaluation {
    Evaluation {
        expression: String::new(),
        scope: HashMap::new(),
        dependencies: Vec::new(),
        started: time,
    }
}

#[test]
fn worker_is_idle_when_nothing_waits() {
    let mut sheet = Spreadsheet::new();
    assert!(sheet.next_recomputation().is_none());
    assert!(sheet.next_recomputation().is_none());
}

#[test]
fn change_that_reaches_nothing_leaves_the_queue() {
    let mut sheet = Spreadsheet::new();
    assign(&mut sheet, cell(0, 0), &[]);
    assign(&mut sheet, cell(1, 0), &[]);
    assert!(sheet.next_recomputation().is_none());
    assert_eq!(sheet.next_update(), None);
}

#[test]
fn worker_takes_up_the_cells_in_their_order() {
    let mut sheet = Spreadsheet::new();
    let a = cell(0, 0);
    let b = cell(1, 0);
    let c = cell(2, 0);
    let d = cell(3, 0);
    assign(&mut sheet, a, &[]);
    assign(&mut sheet, b, &[a]);
    assign(&mut sheet, c, &[b]);
    assign(&mut sheet, d, &[]);
    // the queue holds a, b, c, d: a reaches b and c, b reaches c, c and d nothing
    let mut taken = Vec::new();
    while let Some((id, _)) = sheet.next_recomputation() {
        taken.push(id);
    }
    assert_eq!(taken, vec![b, c, c]);
    assert_eq!(sheet.next_update(), None);
}

#[test]
fn worker_leaves_later_changes_in_the_queue() {
    let mut sheet = Spreadsheet::new();
    let a = cell(0, 0);
    let b = cell(1, 0);
    assign(&mut sheet, a, &[]);
    assign(&mut sheet, b, &[a]);
    match sheet.next_recomputation() {
        Some((id, _)) => assert_eq!(id, b),
        None => panic!("Expected a cell to recompute"),
    }
    assert_eq!(sheet.next_update(), Some(b));
    assert_eq!(sheet.next_update(), None);
    assert!(sheet.next_recomputation().is_none());
}

#[test]
fn recomputation_begins_with_the_stored_expression_and_its_scope() {
    let mut sheet = Spreadsheet::new();
    let a1 = cell(0, 0);
    let b1 = cell(1, 0);
    sheet
        .update_cell_info(a1, CellValue::Int(4), "4".to_string(), Vec::new(), 7)
        .unwrap();
    sheet
        .update_cell_info(b1, CellValue::Int(0), "A1 * 10".to_string(), vec![a1], 9)
        .unwrap();
    let (id, evaluation) = sheet.next_recomputation().unwrap();
    assert_eq!(id, b1);
    assert_eq!(evaluation.expression, "A1 * 10");
    assert_eq!(evaluation.dependencies, vec![a1]);
    assert!(evaluation.started >= 9);
    assert_eq!(evaluation.scope.len(), 1);
    assert_eq!(
        evaluation.scope["A1"],
        rsheet_lib::cell_expr::CellArgument::Value(rsheet_lib::cell_value::CellValue::Int(4))
    );
    assert_eq!(outcome_of(&evaluation), Ok(CellValue::Int(40)));
    // nothing is written before the outcome is handed back
    assert_eq!(sheet.get(&b1), CellValue::Int(0));
    assert_eq!(sheet.last_update_time(&b1), Some(9));
}

#[test]
fn recomputation_of_an_unassigned_cell_does_nothing() {
    let mut sheet = Spreadsheet::new();
    assert!(!sheet.recompute(&cell(0, 0), &started_at(5), Ok(CellValue::Int(1))));
    assert!(!sheet.contains(&cell(0, 0)));
}

#[test]
fn recomputation_is_written_when_it_began_later() {
    let mut sheet = Spreadsheet::new();
    let b1 = cell(1, 0);
    sheet
        .update_cell_info(b1, CellValue::Int(0), "A1 * 10".to_string(), vec![cell(0, 0)], 1)
        .unwrap();
    assert!(sheet.recompute(&b1, &started_at(2), Ok(CellValue::Int(40))));
    assert_eq!(sheet.get(&b1), CellValue::Int(40));
    assert_eq!(sheet.last_update_time(&b1), Some(2));
    assert_eq!(sheet.expression(&b1), Some("A1 * 10".to_string()));
    assert_eq!(sheet.dependencies(&b1), vec![cell(0, 0)]);
}

#[test]
fn recomputation_that_is_not_later_is_dropped() {
    let mut sheet = Spreadsheet::new();
    let b1 = cell(1, 0);
    sheet
        .update_cell_info(b1, CellValue::Int(0), "1 + 1".to_string(), Vec::new(), 100)
        .unwrap();
    assert!(!sheet.recompute(&b1, &started_at(99), Ok(CellValue::Int(2))));
    assert!(!sheet.recompute(&b1, &started_at(100), Ok(CellValue::Int(2))));
    assert_eq!(sheet.get(&b1), CellValue::Int(0));
    assert_eq!(sheet.last_update_time(&b1), Some(100));
}

#[test]
fn recomputation_that_failed_stores_the_marker() {
    let mut sheet = Spreadsheet::new();
    let b1 = cell(1, 0);
    sheet
        .update_cell_info(b1, CellValue::Int(0), "A1 * 10".to_string(), Vec::new(), 1)
        .unwrap();
    assert!(sheet.recompute(
        &b1,
        &started_at(5),
        Err(CellExprEvalError::VariableDependsOnError)
    ));
    assert_eq!(sheet.get(&b1), CellValue::depends_on_error());
    assert_eq!(sheet.last_update_time(&b1), Some(5));
}

#[test]
fn cell_that_reads_an_error_is_recomputed_to_the_marker_at_a_later_time() {
    let mut sheet = Spreadsheet::new();
    let a1 = cell(0, 0);
    let b1 = cell(1, 0);
    let c1 = cell(2, 0);
    sheet
        .update_cell_info(a1, CellValue::Int(1), "1".to_string(), Vec::new(), 1)
        .unwrap();
    sheet
        .update_cell_info(b1, CellValue::Int(2), "A1 + 1".to_string(), vec![a1], 1)
        .unwrap();
    sheet
        .update_cell_info(c1, CellValue::Int(3), "sum(A1_B1)".to_string(), vec![a1, b1], 1)
        .unwrap();
    sheet
        .update_cell_info(a1, CellValue::Error("bad".to_string()), "x".to_string(), Vec::new(), 5)
        .unwrap();
    settle(&mut sheet);
    assert!(sheet.contains(&b1));
    // the marker is what is stored, not only what a read shows
    sheet
        .update_cell_info(a1, CellValue::Int(1), "1".to_string(), Vec::new(), 6)
        .unwrap();
    assert_eq!(sheet.next_update(), Some(a1));
    assert_eq!(sheet.get(&b1), CellValue::depends_on_error());
    assert_eq!(sheet.get(&c1), CellValue::depends_on_error());
    assert!(sheet.last_update_time(&b1).unwrap() >= 5);
    assert!(sheet.last_update_time(&c1).unwrap() >= 5);
}

#[test]
fn propagation_recomputes_what_the_change_reaches_and_nothing_else() {
    let mut sheet = Spreadsheet::new();
    let a1 = cell(0, 0);
    let b1 = cell(1, 0);
    let c1 = cell(2, 0);
    let d1 = cell(3, 0);
    set(&mut sheet, a1, "1".to_string()).unwrap();
    set(&mut sheet, b1, "A1 + 1".to_string()).unwrap();
    set(&mut sheet, c1, "B1 + 1".to_string()).unwrap();
    set(&mut sheet, d1, "100".to_string()).unwrap();
    let stamp_a = sheet.last_update_time(&a1);
    let stamp_d = sheet.last_update_time(&d1);
    let stamp_b = sheet.last_update_time(&b1).unwrap();

    sheet
        .update_cell_info(a1, CellValue::Int(5), "5".to_string(), Vec::new(), 0)
        .unwrap();
    settle(&mut sheet);

    assert_eq!(sheet.get(&a1), CellValue::Int(5));
    assert_eq!(sheet.get(&b1), CellValue::Int(6));
    assert_eq!(sheet.get(&c1), CellValue::Int(7));
    assert_eq!(sheet.get(&d1), CellValue::Int(100));
    assert_eq!(sheet.last_update_time(&a1), Some(0));
    assert_ne!(sheet.last_update_time(&a1), stamp_a);
    assert_eq!(sheet.last_update_time(&d1), stamp_d);
    assert!(sheet.last_update_time(&b1).unwrap() > stamp_b);
    assert_eq!(sheet.dependencies(&c1), vec![b1]);
    assert_eq!(sorted(sheet.dependents(&a1)), vec![b1]);
}

#[test]
fn evaluation_takes_no_change_from_the_queue() {
    let mut sheet = Spreadsheet::new();
    let a1 = cell(0, 0);
    set(&mut sheet, a1, "1".to_string()).unwrap();
    let evaluation = sheet.evaluation("A1 + 1".to_string());
    assert_eq!(evaluation.expression, "A1 + 1");
    assert_eq!(evaluation.dependencies, vec![a1]);
    assert_eq!(outcome_of(&evaluation), Ok(CellValue::Int(2)));
    assert_eq!(sheet.next_update(), Some(a1));
    assert_eq!(sheet.next_update(), None);
}

#[test]
fn queue_is_empty_after_processing() {
    let mut sheet = Spreadsheet::new();
    set(&mut sheet, cell(0, 0), "1".to_string()).unwrap();
    set(&mut sheet, cell(1, 0), "A1".to_string()).unwrap();
    settle(&mut sheet);
    assert_eq!(sheet.next_update(), None);
    settle(&mut sheet);
    assert_eq!(sheet.next_update(), None);
}

#[test]
fn error_is_cleared_by_a_later_assignment() {
    let mut sheet = Spreadsheet::new();
    let a1 = cell(0, 0);
    let b1 = cell(1, 0);
    let c1 = cell(2, 0);
    set(&mut sheet, a1, "1 +".to_string()).unwrap();
    set(&mut sheet, b1, "A1 + 1".to_string()).unwrap();
    set(&mut sheet, c1, "B1 + 1".to_string()).unwrap();
    settle(&mut sheet);
    assert_eq!(sheet.get(&b1), CellValue::depends_on_error());
    assert_eq!(sheet.get(&c1), CellValue::depends_on_error());

    set(&mut sheet, a1, "1".to_string()).unwrap();
    settle(&mut sheet);
    assert_eq!(sheet.get(&a1), CellValue::Int(1));
    assert_eq!(sheet.get(&b1), CellValue::Int(2));
    assert_eq!(sheet.get(&c1), CellValue::Int(3));
}

#[test]
fn times_of_writes_never_move_back_in_propagation() {
    let mut sheet = Spreadsheet::new();
    let cells: Vec<CellIdentifier> = (0..5).map(|row| cell(0, row)).collect();
    set(&mut sheet, cells[0], "1".to_string()).unwrap();
    for i in 1..5 {
        set(&mut sheet, cells[i], format!("A{} + 1", i))
            .unwrap();
    }
    let before: Vec<u64> = cells
        .iter()
        .map(|id| sheet.last_update_time(id).unwrap())
        .collect();
    settle(&mut sheet);
    let after: Vec<u64> = cells
        .iter()
        .map(|id| sheet.last_update_time(id).unwrap())
        .collect();
    for i in 0..5 {
        assert!(after[i] >= before[i]);
    }
    assert_eq!(sheet.get(&cells[4]), CellValue::Int(5));
}
