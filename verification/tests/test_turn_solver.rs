//! Tests for the inputs of the turn solver.

use gto_cli::postflop_tree::{build_turn_tree, Player, TreeNode};
use gto_cli::river_solver::{expand_range_to_combos, ConfigError};
use gto_cli::turn_solver::TurnSolverConfig;

const CHIP: u64 = 1000;

// ---------------------------------------------------------------------------
// Config validation
// ---------------------------------------------------------------------------

#[test]
fn test_turn_solver_config_rejects_wrong_board_size() {
    // 3 cards = flop, not turn
    let result = TurnSolverConfig::new("As3h4d", "AA", "KK", 10 * CHIP, 20 * CHIP, 100);
    assert!(result.is_err());

    // 5 cards = river, not turn
    let result = TurnSolverConfig::new("As3h4d5c8s", "AA", "KK", 10 * CHIP, 20 * CHIP, 100);
    assert!(result.is_err());
}

#[test]
fn config_accepts_4_card_board() {
    let result = TurnSolverConfig::new("As3h4d5c", "AA", "KK", 10 * CHIP, 20 * CHIP, 100);
    assert!(result.is_ok());
}

// ---------------------------------------------------------------------------
// Further cases
// ---------------------------------------------------------------------------

#[test]
fn turn_config_holds_what_was_read() {
    let config =
        TurnSolverConfig::new("Ks9d4c2h", "AA,KK,QQ", "JJ,TT,99", 10 * CHIP, 20 * CHIP, 123)
            .ok()
            .unwrap();
    assert_eq!(config.board, vec![44, 30, 11, 1]);
    assert_eq!(config.tree.board, config.board);
    assert_eq!(config.iterations, 123);
    assert_eq!(config.starting_pot, 10 * CHIP);
    assert_eq!(config.tree.turn.starting_pot, 10 * CHIP);
    assert_eq!(config.tree.turn.effective_stack, 20 * CHIP);
    assert_eq!(config.tree.turn.bet_sizes, vec![500, 1000]);
    assert_eq!(config.tree.turn.max_raises, 2);
    assert_eq!(config.tree.river_bet_sizes, vec![330, 670, 1000]);
    assert_eq!(config.tree.river_max_raises, 3);
    // The tree of these inputs starts with a decision out of position
    // that offers check, the two sizes and all-in.
    let (root, _) = build_turn_tree(&config.tree).unwrap();
    match &root {
        TreeNode::Action { player, actions, .. } => {
            assert_eq!(*player, Player::OOP);
            assert!(actions.len() >= 3);
        }
        _ => panic!("root should be an action node"),
    }
}

#[test]
fn turn_config_keeps_the_last_pair_of_aces() {
    // Board uses As Ah: of the aces only Ad Ac is left
    let config = TurnSolverConfig::new("AsAh4d5c", "AA", "KK", 10 * CHIP, 20 * CHIP, 100)
        .ok()
        .unwrap();
    assert_eq!(expand_range_to_combos(&config.oop_range, &config.board).len(), 1);
}

#[test]
fn turn_config_errors() {
    let error = |r: Result<TurnSolverConfig, ConfigError>| match r {
        Ok(_) => panic!("expected an error"),
        Err(e) => e,
    };
    let new = TurnSolverConfig::new;
    assert_eq!(error(new("As3h4d", "AA", "KK", 10, 20, 1)), ConfigError::InvalidBoard);
    assert_eq!(
        error(new("As3h4d5c", "", "KK", 10, 20, 1)),
        ConfigError::EmptyRange { player: Player::OOP }
    );
    assert_eq!(
        error(new("As3h4d5c", "AA", "", 10, 20, 1)),
        ConfigError::EmptyRange { player: Player::IP }
    );
    assert_eq!(error(new("As3h4d5c", "AA", "KK", 0, 20, 1)), ConfigError::InvalidAmounts);
}
