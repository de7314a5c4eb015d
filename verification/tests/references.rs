use rsheet::reference::{
    column_within, expand_dependencies, find_variables, parse_cell_name, parse_range,
    parse_reference, parse_variables, push_range, CellReference, Variable,
};
use rsheet::CellIdentifier;

fn cell(col: u32, row: u32) -> CellIdentifier {
    CellIdentifier { col, row }
}

#[test]
fn name_of_a_cell_is_letters_then_row_from_one() {
    assert_eq!(parse_cell_name("A1"), Some(cell(0, 0)));
    assert_eq!(parse_cell_name("B3"), Some(cell(1, 2)));
    assert_eq!(parse_cell_name("Z10"), Some(cell(25, 9)));
    assert_eq!(parse_cell_name("AA1"), Some(cell(26, 0)));
    assert_eq!(parse_cell_name("AAA7"), Some(cell(702, 6)));
    assert_eq!(parse_cell_name("ZZZZZZ1"), Some(cell(321_272_405, 0)));
}

#[test]
fn what_names_no_cell_is_refused() {
    assert_eq!(parse_cell_name(""), None);
    assert_eq!(parse_cell_name("A"), None);
    assert_eq!(parse_cell_name("1"), None);
    assert_eq!(parse_cell_name("A0"), None);
    assert_eq!(parse_cell_name("a1"), None);
    assert_eq!(parse_cell_name("A1B"), None);
    assert_eq!(parse_cell_name("A99999999999"), None);
}

#[test]
fn row_is_digits_with_an_optional_plus_sign() {
    assert_eq!(parse_cell_name("A+5"), Some(cell(0, 4)));
    assert_eq!(parse_cell_name("A007"), Some(cell(0, 6)));
    assert_eq!(parse_cell_name("A0000000000000001"), Some(cell(0, 0)));
    assert_eq!(parse_cell_name("C4294967295"), Some(cell(2, 4_294_967_294)));
    assert_eq!(parse_cell_name("C4294967296"), None);
    assert_eq!(parse_cell_name("A+"), None);
    assert_eq!(parse_cell_name("A++5"), None);
    assert_eq!(parse_cell_name("A-1"), None);
    assert_eq!(parse_cell_name("A+0"), None);
    assert_eq!(parse_cell_name("A 1"), None);
    assert_eq!(parse_cell_name("A1 "), None);
    assert_eq!(parse_cell_name("A\u{ff11}"), None);
    assert_eq!(parse_cell_name("A\u{e9}1"), None);
    assert_eq!(parse_cell_name("+1"), None);
    assert_eq!(parse_cell_name("\u{c9}1"), None);
}

#[test]
fn column_is_counted_in_letters() {
    assert_eq!(parse_cell_name("Y1"), Some(cell(24, 0)));
    assert_eq!(parse_cell_name("AZ1"), Some(cell(51, 0)));
    assert_eq!(parse_cell_name("BA1"), Some(cell(52, 0)));
    assert_eq!(parse_cell_name("ZZ1"), Some(cell(701, 0)));
    assert_eq!(parse_cell_name("AAB1"), Some(cell(703, 0)));
    assert_eq!(parse_cell_name("AAAAAA1"), Some(cell(12_356_630, 0)));
}

#[test]
fn column_within_32_bits_is_read() {
    assert!(column_within("AAAAAAA1"));
    assert!(column_within("MWLQKWU"));
    assert!(column_within("MWLQKWU99"));
    assert!(column_within("AAAAAAa"));
    assert!(column_within("1"));
    assert!(column_within(""));
    assert_eq!(parse_cell_name("AAAAAAA1"), Some(cell(321_272_406, 0)));
    assert_eq!(parse_cell_name("ABCDEFG2"), Some(cell(334_123_302, 1)));
    assert_eq!(parse_cell_name("MWLQKWU1"), Some(cell(u32::MAX - 1, 0)));
    assert_eq!(
        parse_reference("AAAAAAA1"),
        Some(CellReference::Cell(cell(321_272_406, 0)))
    );
    assert_eq!(
        parse_range("A1_AAAAAAA1"),
        Some((cell(0, 0), cell(321_272_406, 0)))
    );
}

#[test]
fn column_beyond_32_bits_is_refused() {
    assert!(!column_within("MWLQKWV"));
    assert!(!column_within("MWLQKWV1"));
    assert!(!column_within("ZZZZZZZ1"));
    assert!(!column_within("AAAAAAAA1"));
    assert!(!column_within("AAAAAAAAAAAAAAAAAAAAAAAAAAAAAAAAAAAAAAAAAAAAAAAAAAAA"));
    assert_eq!(parse_cell_name("MWLQKWV1"), None);
    assert_eq!(parse_cell_name("ZZZZZZZ1"), None);
    assert_eq!(parse_cell_name("AAAAAAAA1"), None);
    assert_eq!(parse_reference("AAAAAAAA1"), None);
    assert_eq!(parse_range("A1_MWLQKWV1"), None);
    assert_eq!(parse_range("MWLQKWV1_MWLQKWV2"), None);
}

#[test]
fn name_of_a_range_is_two_cells_and_one_underscore() {
    assert_eq!(parse_range("A1_B2"), Some((cell(0, 0), cell(1, 1))));
    assert_eq!(parse_range("A1_A1"), Some((cell(0, 0), cell(0, 0))));
    assert_eq!(parse_range("B2_D2"), Some((cell(1, 1), cell(3, 1))));
    assert_eq!(parse_range("C1_C9"), Some((cell(2, 0), cell(2, 8))));
}

#[test]
fn what_names_no_range_is_refused() {
    assert_eq!(parse_range("A1"), None);
    assert_eq!(parse_range(""), None);
    assert_eq!(parse_range("_"), None);
    assert_eq!(parse_range("A1_"), None);
    assert_eq!(parse_range("_A1"), None);
    assert_eq!(parse_range("A1_B2_C3"), None);
    assert_eq!(parse_range("A1__B2"), None);
    assert_eq!(parse_range("A1_b2"), None);
}

#[test]
fn range_that_runs_backwards_is_refused() {
    assert_eq!(parse_range("B1_A1"), None);
    assert_eq!(parse_range("A2_A1"), None);
    assert_eq!(parse_range("B2_A1"), None);
    assert_eq!(parse_range("A2_B1"), None);
    assert_eq!(parse_reference("B2_A1"), None);
}

#[test]
fn reference_is_a_cell_or_a_range() {
    assert_eq!(parse_reference("A1"), Some(CellReference::Cell(cell(0, 0))));
    assert_eq!(
        parse_reference("A1_B2"),
        Some(CellReference::Range(cell(0, 0), cell(1, 1)))
    );
    assert_eq!(parse_reference("A1_"), None);
    assert_eq!(parse_reference("x"), None);
}

#[test]
fn names_that_refer_to_nothing_are_left_out() {
    let names = vec![
        "A1".to_string(),
        "nothing".to_string(),
        "B2_C3".to_string(),
        "C3_B2".to_string(),
        "A1".to_string(),
    ];
    let variables = parse_variables(&names);
    assert_eq!(variables.len(), 3);
    assert_eq!(variables[0].name, "A1");
    assert_eq!(variables[0].reference, CellReference::Cell(cell(0, 0)));
    assert_eq!(variables[1].name, "B2_C3");
    assert_eq!(
        variables[1].reference,
        CellReference::Range(cell(1, 1), cell(2, 2))
    );
    assert_eq!(variables[2].name, "A1");
    assert_eq!(variables[2].reference, CellReference::Cell(cell(0, 0)));
}

#[test]
fn variables_of_an_expression_come_in_its_order() {
    let variables = find_variables("A1 + A2 * sum(A3_A4)");
    assert_eq!(variables.len(), 3);
    assert_eq!(variables[0].name, "A1");
    assert_eq!(variables[1].name, "A2");
    assert_eq!(variables[2].name, "A3_A4");
    assert_eq!(
        variables[2].reference,
        CellReference::Range(cell(0, 2), cell(0, 3))
    );
}

#[test]
fn expression_without_cells_has_no_variables() {
    assert_eq!(find_variables("42").len(), 0);
    assert_eq!(find_variables("invalid + expression").len(), 0);
    assert_eq!(find_variables("1 +").len(), 0);
    assert_eq!(find_variables("").len(), 0);
}

#[test]
fn range_is_expanded_row_by_row() {
    let mut cells = vec![cell(9, 9)];
    push_range(&mut cells, cell(0, 0), cell(1, 1));
    assert_eq!(
        cells,
        vec![cell(9, 9), cell(0, 0), cell(1, 0), cell(0, 1), cell(1, 1)]
    );
}

#[test]
fn range_that_runs_backwards_has_no_cells() {
    let mut cells = Vec::new();
    push_range(&mut cells, cell(1, 1), cell(0, 0));
    assert_eq!(cells, Vec::new());
    push_range(&mut cells, cell(1, 0), cell(0, 3));
    assert_eq!(cells, Vec::new());
}

#[test]
fn range_at_the_edge_of_the_sheet_is_expanded() {
    let mut cells = Vec::new();
    push_range(
        &mut cells,
        cell(u32::MAX - 1, u32::MAX),
        cell(u32::MAX, u32::MAX),
    );
    assert_eq!(
        cells,
        vec![cell(u32::MAX - 1, u32::MAX), cell(u32::MAX, u32::MAX)]
    );
}

#[test]
fn dependencies_hold_a_cell_as_often_as_it_is_read() {
    let variables = vec![
        Variable {
            name: "B1".to_string(),
            reference: CellReference::Cell(cell(1, 0)),
        },
        Variable {
            name: "A1_B2".to_string(),
            reference: CellReference::Range(cell(0, 0), cell(1, 1)),
        },
        Variable {
            name: "B1".to_string(),
            reference: CellReference::Cell(cell(1, 0)),
        },
    ];
    assert_eq!(
        expand_dependencies(&variables),
        vec![
            cell(1, 0),
            cell(0, 0),
            cell(1, 0),
            cell(0, 1),
            cell(1, 1),
            cell(1, 0)
        ]
    );
    assert_eq!(expand_dependencies(&Vec::new()), Vec::new());
}
