use bit_board::OthelloGame;
use bit_board::ai::AlphaBeta;
use bit_board::ai::MinMax;
use bit_board::game::GameSituation;
use bit_board::othello::OthelloSituation;
use bit_board::othello::Player;
use bit_board::othello::players::DummyOthelloPlayer;
use bit_board::othello::players::OthelloAlphaBetaPlayer;
use bit_board::othello::players::OthelloMinMaxPlayer;
use bit_board::othello::players::OthelloMinMaxTraits;

#[test]
fn two_random_players() {
    let mut game = OthelloGame::new(DummyOthelloPlayer::new(), DummyOthelloPlayer::new());
    game.play();
}

#[test]
fn minmax_beats_dummy() {
    let mut game = OthelloGame::new(DummyOthelloPlayer::new(), OthelloMinMaxPlayer::new(3));
    assert_eq!(game.play(), Some(Player::White));
}

#[test]
fn minmax_beats_dummy2() {
    // With passes played out to the true end of the game, Black's depth-3
    // search only manages a draw against the first-legal-move player.
    let mut game = OthelloGame::new(OthelloMinMaxPlayer::new(3), DummyOthelloPlayer::new());
    assert_eq!(game.play(), None);
}

#[test]
fn alpha_beta_agrees_with_minmax() {
    // The two searches must report the same score for the same position and
    // depth, at every position along a short game.
    let minmax: MinMax<OthelloMinMaxTraits> = MinMax::new();
    let alpha_beta = OthelloAlphaBetaPlayer::new(3);
    let mut situation = OthelloSituation::new();
    for _ in 0..6 {
        for depth in 1u32..4 {
            let (_, minmax_score) = minmax.search_root(&situation, depth);
            let (_, alpha_beta_score) = alpha_beta.search_root(&situation, depth);
            assert_eq!(minmax_score, alpha_beta_score);
        }
        let moves = situation.get_moves();
        situation = situation.copy_apply(moves[0]).expect("a listed move must apply");
    }
}
