use board_parser::Board;
use board_parser::Stone;
use board_parser::count_score;

#[test]
fn it_works() {
    assert_eq!(2 + 2, 4);
}

#[test]
fn scoring_is_not_yet_provided() {
    let board = Board::NineByNine([[Stone::Vacant; 9]; 9]);
    assert!(count_score(board).is_none());
}
