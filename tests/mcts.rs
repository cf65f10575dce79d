use mcts::game::Game;
use mcts::mcts::{Chooser, FirstChooser, Mcts, RandomChooser, SearchError};
use mcts::tic_tac_toe::{Player, Spot, TicTacToe};
use mcts::tree::NodeId;

fn play_all(moves: &[(usize, usize)]) -> TicTacToe {
    let mut game = TicTacToe::new();
    for &m in moves {
        game.step(m).unwrap();
    }
    game
}

#[test]
fn test_mcts() {
    let game = TicTacToe::new();
    let mcts = Mcts::new();
    let action = mcts.search(&game, 100).unwrap();
    println!("{:?}", action);
    assert!(game.get_available_moves().contains(&action));
}

#[test]
fn node_id_keeps_its_index() {
    assert_eq!(NodeId::new(7), NodeId(7));
    assert_eq!(NodeId::new(0).0, 0);
}

#[test]
fn search_returns_a_legal_action_from_many_states() {
    let mcts = Mcts::new();
    let openings: Vec<Vec<(usize, usize)>> = vec![
        vec![],
        vec![(1, 1)],
        vec![(0, 0), (2, 2)],
        vec![(0, 0), (1, 1), (2, 2), (0, 2)],
        vec![(0, 0), (0, 1), (0, 2), (1, 1), (1, 0), (1, 2), (2, 1), (2, 0)],
    ];
    for moves in openings {
        let game = play_all(&moves);
        for iterations in [1usize, 2, 30] {
            let action = mcts.search(&game, iterations).unwrap();
            assert!(game.get_available_moves().contains(&action));
        }
    }
}

#[test]
fn search_on_a_finished_game_fails() {
    let mcts = Mcts::new();
    let won = play_all(&[(0, 0), (1, 0), (0, 1), (1, 1), (0, 2)]);
    assert_eq!(mcts.search(&won, 10), Err(SearchError::GameOver));
    let drawn = play_all(&[
        (0, 0),
        (0, 1),
        (0, 2),
        (1, 1),
        (1, 0),
        (1, 2),
        (2, 1),
        (2, 0),
        (2, 2),
    ]);
    assert!(drawn.done());
    assert_eq!(mcts.search(&drawn, 10), Err(SearchError::GameOver));
}

#[test]
fn root_visits_equal_iterations() {
    let mcts = Mcts::new();
    for iterations in [1usize, 5, 9, 10, 57, 200] {
        let tree = mcts.grow_tree(&TicTacToe::new(), iterations, &mut RandomChooser);
        let root = tree.node(NodeId::new(0));
        assert_eq!(root.visits, iterations as u64);
        let child_visits: u64 = root.children.iter().map(|c| tree.node(c.1).visits).sum();
        assert_eq!(child_visits, iterations as u64);
        assert_eq!(tree.len(), iterations + 1);
    }
}

#[test]
fn tree_children_and_untried_partition_the_legal_actions() {
    let mcts = Mcts::new();
    let game = play_all(&[(1, 1)]);
    let legal = game.get_available_moves();
    for iterations in [1usize, 3, 8, 40] {
        let tree = mcts.grow_tree(&game, iterations, &mut RandomChooser);
        let root = tree.node(NodeId::new(0));
        let expanded: Vec<(usize, usize)> = root.children.iter().map(|c| c.0).collect();
        for a in &expanded {
            assert!(!root.untried_actions.contains(a));
            assert!(legal.contains(a));
        }
        for a in &root.untried_actions {
            assert!(legal.contains(a));
        }
        assert_eq!(expanded.len() + root.untried_actions.len(), legal.len());
        for k in 0..tree.len() {
            let node = tree.node(NodeId::new(k));
            for c in &node.children {
                assert!(c.1 .0 > k);
                assert_eq!(tree.node(c.1).parent, Some(NodeId::new(k)));
                assert!(!node.untried_actions.contains(&c.0));
            }
            assert!(node.score.unsigned_abs() <= node.visits);
            if node.terminal {
                assert!(node.children.is_empty());
            }
        }
    }
}

#[test]
fn immediate_win_is_found() {
    // X holds (0, 0) and (0, 1); O holds (1, 0) and (1, 1); X to move wins at (0, 2).
    let game = play_all(&[(0, 0), (1, 0), (0, 1), (1, 1)]);
    assert_eq!(game.current_player, Player::X);
    let mcts = Mcts::new();
    let runs = 40;
    let mut wins = 0;
    for _ in 0..runs {
        if mcts.search(&game, 200) == Ok((0, 2)) {
            wins += 1;
        }
    }
    assert!(wins * 100 >= runs * 95, "won {} of {}", wins, runs);
}

#[test]
fn self_play_from_empty_board_is_mostly_drawn() {
    let mcts = Mcts::new();
    let games = 10;
    let mut draws = 0;
    for _ in 0..games {
        let mut game = TicTacToe::new();
        while !game.done() {
            let action = mcts.search(&game, 600).unwrap();
            game.step(action).unwrap();
        }
        if game.check_winner().is_none() {
            draws += 1;
        }
    }
    assert!(draws * 10 >= games * 8, "{} draws of {}", draws, games);
}

#[test]
fn search_driven_games_only_play_legal_moves() {
    let mcts = Mcts::new();
    for _ in 0..20 {
        let mut game = TicTacToe::new();
        while !game.done() {
            let action = mcts.search(&game, 25).unwrap();
            assert!(game.get_available_moves().contains(&action));
            assert!(game.step(action).is_ok());
        }
    }
}

#[test]
fn first_choice_searches_are_reproducible() {
    let mcts = Mcts::new();
    let game = play_all(&[(0, 0)]);
    let summary = |tree: &mcts::tree::SearchTree<TicTacToe>| -> Vec<(u64, i64)> {
        (0..tree.len())
            .map(|k| {
                let n = tree.node(NodeId::new(k));
                (n.visits, n.score)
            })
            .collect()
    };
    let first = mcts.grow_tree(&game, 300, &mut FirstChooser);
    let second = mcts.grow_tree(&game, 300, &mut FirstChooser);
    assert_eq!(summary(&first), summary(&second));
    assert_eq!(mcts.best_action(&first), mcts.best_action(&second));
    let a = mcts.search_with(&game, 300, &mut FirstChooser);
    let b = mcts.search_with(&game, 300, &mut FirstChooser);
    assert_eq!(a, b);
    assert_eq!(a, Ok(mcts.best_action(&first).unwrap()));
}

#[test]
fn first_chooser_always_picks_zero() {
    let mut chooser = FirstChooser;
    assert_eq!(chooser.pick(1), 0);
    assert_eq!(chooser.pick(9), 0);
}

#[test]
fn random_chooser_stays_in_range_and_varies() {
    let mut chooser = RandomChooser;
    let mut seen = [false; 5];
    for _ in 0..500 {
        let i = chooser.pick(5);
        assert!(i < 5);
        seen[i] = true;
    }
    assert!(seen.iter().filter(|s| **s).count() >= 2);
    assert_eq!(chooser.pick(1), 0);
}

#[test]
fn simulation_ends_in_a_finished_game() {
    let mcts = Mcts::new();
    for _ in 0..20 {
        let mut game = TicTacToe::new();
        let winner = mcts.simulation(&mut game, &mut RandomChooser);
        assert!(game.done());
        assert_eq!(winner, game.check_winner());
    }
    let mut game = TicTacToe::new();
    // Always the first free spot: X fills the top row first.
    let winner = mcts.simulation(&mut game, &mut FirstChooser);
    assert_eq!(winner, Some(Player::X));
    assert_eq!(game.spots[2][0], Spot::Filled(Player::X));
}

#[test]
fn selection_and_replay_reach_the_leaf_state() {
    let mcts = Mcts::new();
    let game = TicTacToe::new();
    let tree = mcts.grow_tree(&game, 50, &mut RandomChooser);
    let (path, leaf) = mcts.selection(&tree);
    let mut state = game;
    mcts.apply_actions(&mut state, path.clone());
    let node = tree.node(leaf);
    assert_eq!(state.get_available_moves().len(), node.untried_actions.len() + node.children.len());
    assert_eq!(state.current_player(), node.to_play);
    assert_eq!(path.len() >= 1, leaf.0 != 0);
}

#[test]
fn simulation_leaves_a_won_board_as_it_is() {
    let mcts = Mcts::new();
    // X has the top row while spots are still free.
    let won = play_all(&[(0, 0), (1, 0), (0, 1), (1, 1), (0, 2)]);
    for _ in 0..10 {
        let mut game = won;
        let winner = mcts.simulation(&mut game, &mut RandomChooser);
        assert_eq!(winner, Some(Player::X));
        assert_eq!(game.spots, won.spots);
        assert_eq!(game.current_player, won.current_player);
    }
}

#[test]
fn simulation_stops_at_the_first_win() {
    let mcts = Mcts::new();
    for _ in 0..50 {
        let mut game = TicTacToe::new();
        let winner = mcts.simulation(&mut game, &mut RandomChooser);
        let filled = game
            .spots
            .iter()
            .flatten()
            .filter(|s| **s != Spot::Empty)
            .count();
        if let Some(w) = winner {
            // The winner made the last move: X moves on odd counts.
            let last = if filled % 2 == 1 { Player::X } else { Player::O };
            assert_eq!(w, last);
        } else {
            assert_eq!(filled, 9);
        }
    }
}

#[test]
fn first_chooser_playout_from_empty_board() {
    let mcts = Mcts::new();
    let mut game = TicTacToe::new();
    let winner = mcts.simulation(&mut game, &mut FirstChooser);
    assert_eq!(winner, Some(Player::X));
    assert_eq!(game.current_player, Player::O);
    let expected = play_all(&[(0, 0), (0, 1), (0, 2), (1, 0), (1, 1), (1, 2), (2, 0)]);
    assert_eq!(game.spots, expected.spots);
}
