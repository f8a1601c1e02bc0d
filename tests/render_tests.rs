use eight_queens::board::Board;

#[test]
fn default_board_to_string_works() {
    let b = Board::new();
    let res = b.to_string();
    let expected = vec![
        "----------",
        "|        |",
        "|        |",
        "|        |",
        "|        |",
        "|        |",
        "|        |",
        "|        |",
        "|        |",
        "----------",
    ]
    .join("\n");
    assert_eq!(res, expected);
}

#[test]
fn board_with_3_queens_converts_correctly() {
    let b = Board::from_positions(vec![(0, 0), (0, 7), (6, 0), (6, 6)]).unwrap();
    let res = b.to_string();
    let expected = vec![
        "----------",
        "|Q       |",
        "|      Q |",
        "|        |",
        "|        |",
        "|        |",
        "|        |",
        "|        |",
        "|Q     Q |",
        "----------",
    ]
    .join("\n");
    assert_eq!(res, expected);
}

#[test]
fn small_board_renders_rows_top_down() {
    let mut b = Board::from_dims((3, 2));
    b.add_queen((2, 0)).unwrap();
    assert_eq!(b.to_string(), "-----\n|   |\n|  Q|\n-----");
    let m = b.initialize_char_matrix();
    assert_eq!(m, vec![vec![' ', ' ', 'Q'], vec![' ', ' ', ' ']]);
    let rows = Board::form_row_strings(m);
    assert_eq!(rows, vec!["  Q".to_string(), "   ".to_string()]);
    assert_eq!(b.add_borders(rows), vec!["-----", "|   |", "|  Q|", "-----"]);
    assert_eq!(b.form_horizontal_border(), "-----");
}
