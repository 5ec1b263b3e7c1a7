use bit_board::bitboard::Coord;
use bit_board::game::GameSituation;
use bit_board::othello::OthelloMove;
use bit_board::othello::OthelloMoveIterator;
use bit_board::othello::OthelloSituation;
use bit_board::othello::Player;

fn coord_move(row: u32, col: u32) -> OthelloMove {
    OthelloMove::Coord(Coord::new(row, col).unwrap())
}

#[test]
fn move_from_string() {
    let test_move = OthelloMove::from_str("d6").unwrap();
    assert_eq!(test_move, OthelloMove::Coord(Coord::new(5, 3).unwrap()));

    let test_move = OthelloMove::from_str("pass").unwrap();
    assert_eq!(test_move, OthelloMove::Pass);
}

#[test]
fn othello_play_on_top_white() {
    assert_eq!(OthelloSituation::new().copy_apply(coord_move(3, 3)), None);
}

#[test]
fn othello_play_on_top_black() {
    assert_eq!(OthelloSituation::new().copy_apply(coord_move(4, 3)), None);
}

#[test]
fn othello_play_in_corner() {
    assert_eq!(OthelloSituation::new().copy_apply(coord_move(0, 0)), None);
}

#[test]
fn othello_play_in_illegal() {
    assert_eq!(OthelloSituation::new().copy_apply(coord_move(5, 3)), None);
}

#[test]
fn othello_play_legal() {
    let situation = OthelloSituation::new()
        .copy_apply(coord_move(2, 3))
        .expect("First move failed");
    situation.copy_apply(coord_move(2, 2)).expect("Second move failed");
}

#[test]
fn mod_play_on_top_white() {
    assert_eq!(
        OthelloSituation::new().copy_apply(OthelloMove::from_str("d4").unwrap()),
        None
    );
}

#[test]
fn mod_play_on_top_black() {
    assert_eq!(
        OthelloSituation::new().copy_apply(OthelloMove::from_str("d5").unwrap()),
        None
    );
}

#[test]
fn mod_play_in_corner() {
    assert_eq!(
        OthelloSituation::new().copy_apply(OthelloMove::from_str("a1").unwrap()),
        None
    );
}

#[test]
fn mod_play_in_illegal() {
    assert_eq!(
        OthelloSituation::new().copy_apply(OthelloMove::from_str("d6").unwrap()),
        None
    );
}

#[test]
fn mod_play_legal() {
    let situation = OthelloSituation::new()
        .copy_apply(OthelloMove::from_str("d3").unwrap())
        .expect("First move failed");
    situation
        .copy_apply(OthelloMove::from_str("c3").unwrap())
        .expect("Second move failed");
}

#[test]
fn opening_has_exactly_four_moves() {
    let situation = OthelloSituation::new();
    let moves = situation.get_moves();
    // Ascending bit-index order: d3, c4, f5, e6.
    assert_eq!(
        moves,
        vec![
            OthelloMove::from_str("d3").unwrap(),
            OthelloMove::from_str("c4").unwrap(),
            OthelloMove::from_str("f5").unwrap(),
            OthelloMove::from_str("e6").unwrap(),
        ]
    );
    assert_eq!(situation.get_black_board().count_ones(), 2);
    assert_eq!(situation.get_white_board().count_ones(), 2);
}

#[test]
fn opening_move_flips_one_disc() {
    let situation = OthelloSituation::new();
    let next = situation
        .copy_apply(OthelloMove::from_str("d3").unwrap())
        .expect("The opening move failed");
    assert_eq!(next.get_turn(), Player::White);
    // d4 turned black; exactly one white disc was flipped.
    assert!(next.get_black_board().get_value_at(Coord::from_str("d4").unwrap()));
    assert_eq!(next.get_black_board().count_ones(), 4);
    assert_eq!(next.get_white_board().count_ones(), 1);
    assert_eq!(next.get_score(Player::Black), 3);
    assert_eq!(next.get_score(Player::White), -3);
}

#[test]
fn illegal_moves_leave_the_situation_alone() {
    let situation = OthelloSituation::new();
    assert_eq!(situation.copy_apply(coord_move(0, 0)), None);
    assert_eq!(situation.copy_apply(OthelloMove::Pass), None);
    // The original situation still plays normally afterwards.
    assert_eq!(situation, OthelloSituation::new());
    assert!(situation.copy_apply(coord_move(2, 3)).is_some());
}

#[test]
fn opening_is_not_finished() {
    let situation = OthelloSituation::new();
    assert!(!situation.is_finished());
    assert_eq!(situation.get_winner(), None);
    assert_eq!(situation.get_turn(), Player::Black);
    assert_eq!(situation.get_score(Player::Black), 0);
}

#[test]
fn player_opposite_swaps_sides() {
    assert_eq!(Player::Black.opposite(), Player::White);
    assert_eq!(Player::White.opposite(), Player::Black);
}

#[test]
fn move_iterator_yields_pass_only_when_empty() {
    let mut iter = OthelloMoveIterator::new(bit_board::bitboard::BitBoard::empty());
    assert_eq!(iter.next(), Some(OthelloMove::Pass));
    assert_eq!(iter.next(), None);

    let situation = OthelloSituation::new();
    let mut iter = OthelloMoveIterator::new(situation.get_moves_board());
    let mut collected: Vec<OthelloMove> = Vec::new();
    while let Some(m) = iter.next() {
        collected.push(m);
    }
    assert_eq!(collected, situation.get_moves());
}

#[test]
fn move_parser_rejects_bad_tokens() {
    assert_eq!(OthelloMove::from_str(""), None);
    assert_eq!(OthelloMove::from_str("i1"), None);
    assert_eq!(OthelloMove::from_str("a9"), None);
    assert_eq!(OthelloMove::from_str("passs"), None);
}

#[test]
fn wiped_out_game_is_finished_with_a_winner() {
    // The fastest possible game: Black captures every white disc.
    let sequence = ["e6", "f4", "e3", "f6", "g5", "d6", "e7", "f5", "c5"];
    let mut situation = OthelloSituation::new();
    for token in sequence {
        situation = situation
            .copy_apply(OthelloMove::from_str(token).unwrap())
            .expect("every move of the sequence is legal");
    }
    assert!(situation.is_finished());
    assert_eq!(situation.get_winner(), Some(Player::Black));
    assert_eq!(situation.get_black_board().count_ones(), 13);
    assert_eq!(situation.get_white_board().count_ones(), 0);
    // Passing is still possible and changes nothing about the outcome.
    let passed = situation
        .copy_apply(OthelloMove::Pass)
        .expect("a pass applies whenever no placement does");
    assert!(passed.is_finished());
    assert_eq!(passed.get_winner(), Some(Player::Black));
}
