use mcts::game::{Game, GameError};
use mcts::tic_tac_toe::{Player, Spot, TicTacToe};

#[test]
fn test_new() {
    let game = TicTacToe::new();
    assert_eq!(game.spots, [[Spot::Empty; 3]; 3]);
    assert_eq!(game.current_player, Player::X);
}

#[test]
fn test_step() {
    let mut game = TicTacToe::new();
    assert!(game.step((0, 0)).is_ok());
    assert_eq!(game.spots[0][0], Spot::Filled(Player::X));
    assert_eq!(game.current_player, Player::O);

    assert!(game.step((0, 0)).is_err());
    assert_eq!(game.spots[0][0], Spot::Filled(Player::X));
    assert_eq!(game.current_player, Player::O);

    assert!(game.step((0, 1)).is_ok());
    assert_eq!(game.spots[0][1], Spot::Filled(Player::O));
    assert_eq!(game.current_player, Player::X);
}

#[test]
fn test_check_winner() {
    let mut game = TicTacToe::new();
    assert_eq!(game.check_winner(), None);

    game.spots = [
        [Spot::Filled(Player::X), Spot::Empty, Spot::Empty],
        [Spot::Empty, Spot::Filled(Player::X), Spot::Empty],
        [Spot::Empty, Spot::Empty, Spot::Filled(Player::X)],
    ];
    assert_eq!(game.check_winner(), Some(Player::X));

    game.spots = [
        [Spot::Filled(Player::O), Spot::Empty, Spot::Empty],
        [Spot::Empty, Spot::Filled(Player::O), Spot::Empty],
        [Spot::Empty, Spot::Empty, Spot::Filled(Player::O)],
    ];
    assert_eq!(game.check_winner(), Some(Player::O));

    game.spots = [
        [
            Spot::Filled(Player::X),
            Spot::Filled(Player::O),
            Spot::Empty,
        ],
        [
            Spot::Empty,
            Spot::Filled(Player::X),
            Spot::Filled(Player::O),
        ],
        [Spot::Filled(Player::O), Spot::Empty, Spot::Empty],
    ];
    assert_eq!(game.check_winner(), None);
}

#[test]
fn step_outside_the_board_is_illegal() {
    let mut game = TicTacToe::new();
    assert_eq!(game.step((3, 0)), Err(GameError::IllegalMove));
    assert_eq!(game.step((0, 7)), Err(GameError::IllegalMove));
    assert_eq!(game.spots, [[Spot::Empty; 3]; 3]);
    assert_eq!(game.current_player, Player::X);
}

#[test]
fn step_reports_reward_for_a_winning_move() {
    let mut game = TicTacToe::new();
    assert_eq!(game.step((0, 0)), Ok(0));
    assert_eq!(game.step((1, 0)), Ok(0));
    assert_eq!(game.step((0, 1)), Ok(0));
    assert_eq!(game.step((1, 1)), Ok(0));
    assert_eq!(game.step((0, 2)), Ok(1));
    assert_eq!(game.check_winner(), Some(Player::X));
    assert!(game.done());
}

#[test]
fn available_moves_in_row_major_order() {
    let mut game = TicTacToe::new();
    assert_eq!(game.get_available_moves().len(), 9);
    game.step((1, 1)).unwrap();
    game.step((0, 2)).unwrap();
    assert_eq!(
        game.get_available_moves(),
        vec![(0, 0), (0, 1), (1, 0), (1, 2), (2, 0), (2, 1), (2, 2)]
    );
    assert_eq!(game.current_player(), Player::X);
}

#[test]
fn winner_lines_columns_and_anti_diagonal() {
    let mut game = TicTacToe::new();
    game.spots = [
        [Spot::Empty, Spot::Filled(Player::O), Spot::Empty],
        [Spot::Empty, Spot::Filled(Player::O), Spot::Empty],
        [Spot::Empty, Spot::Filled(Player::O), Spot::Empty],
    ];
    assert_eq!(game.check_winner(), Some(Player::O));
    game.spots = [
        [Spot::Empty, Spot::Empty, Spot::Filled(Player::X)],
        [Spot::Empty, Spot::Filled(Player::X), Spot::Empty],
        [Spot::Filled(Player::X), Spot::Empty, Spot::Empty],
    ];
    assert_eq!(game.check_winner(), Some(Player::X));
    game.spots = [
        [Spot::Empty, Spot::Empty, Spot::Empty],
        [Spot::Empty, Spot::Empty, Spot::Empty],
        [Spot::Filled(Player::O), Spot::Filled(Player::O), Spot::Filled(Player::O)],
    ];
    assert_eq!(game.check_winner(), Some(Player::O));
}

#[test]
fn full_board_without_line_is_a_draw() {
    let mut game = TicTacToe::new();
    game.spots = [
        [Spot::Filled(Player::X), Spot::Filled(Player::O), Spot::Filled(Player::X)],
        [Spot::Filled(Player::X), Spot::Filled(Player::O), Spot::Filled(Player::O)],
        [Spot::Filled(Player::O), Spot::Filled(Player::X), Spot::Filled(Player::X)],
    ];
    assert_eq!(game.check_winner(), None);
    assert!(game.get_available_moves().is_empty());
    assert!(game.done());
}
