use playfair::array::{Board, BoardShape};
use playfair::utils::convert_to_char;

const CHARS: &[u8; 25] = b"ABCDEFGHIJKLMNOPQRSTUVXYZ";

#[test]
fn is_shape_rectangle() {
    let chars = convert_to_char(CHARS);
    let board = Board::init(&chars);
    assert_eq!(BoardShape::RECTANGLE, board.get_shape(['A', 'R']));
}

#[test]
fn is_shape_column() {
    let chars = convert_to_char(CHARS);
    let board = Board::init(&chars);
    assert_eq!(BoardShape::COLUMN, board.get_shape(['G', 'Q']));
}

#[test]
fn is_shape_row() {
    let chars = convert_to_char(CHARS);
    let board = Board::init(&chars);
    assert_eq!(BoardShape::ROW, board.get_shape(['L', 'O']));
}

#[test]
fn get_position() {
    let chars = convert_to_char(CHARS);
    let board = Board::init(&chars);
    assert_eq!([3, 2], board.get_position('R').unwrap());
}

#[test]
fn get_position_missing_letter() {
    let chars = convert_to_char(CHARS);
    let board = Board::init(&chars);
    assert!(board.get_position('W').is_none());
    assert!(board.get_position('a').is_none());
}

#[test]
fn get_letter_reads_grid() {
    let chars = convert_to_char(CHARS);
    let board = Board::init(&chars);
    assert_eq!('A', board.get_letter(0, 0));
    assert_eq!('R', board.get_letter(3, 2));
    assert_eq!('Z', board.get_letter(4, 4));
}
