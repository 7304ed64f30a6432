//! Tests for the parts of the river solver that the library holds: the
//! tree, range expansion, the showdown table and the configuration.

use gto_cli::card_encoding::card_to_index;
use gto_cli::cards::parse_card;
use gto_cli::cfr::{sweep_traverser, InfoSetKey};
use gto_cli::postflop_tree::{build_tree, Action, Player, TerminalType, TreeConfig, TreeNode};
use gto_cli::river_solver::{
    combo_holds, expand_range_to_combos, free_of_card, legal_deals, read_inputs, river_tables,
    shares_no_card, terminal_payoff_twice, Combo, ConfigError, RiverSolverConfig, ShowdownResult,
    ShowdownTable,
};

// ---------------------------------------------------------------------------
// Helpers
// ---------------------------------------------------------------------------

const CHIP: u64 = 1000;

fn card(s: &str) -> u8 {
    card_to_index(&parse_card(s).unwrap())
}

fn board(s: &str) -> Vec<u8> {
    let chars: Vec<char> = s.chars().collect();
    (0..chars.len())
        .step_by(2)
        .map(|i| {
            let notation: String = chars[i..i + 2].iter().collect();
            card(&notation)
        })
        .collect()
}

// ---------------------------------------------------------------------------
// Tree building tests
// ---------------------------------------------------------------------------

#[test]
fn tree_has_action_and_terminal_nodes() {
    let config = TreeConfig::default_river(10 * CHIP, 20 * CHIP);
    let (root, num_nodes) = build_tree(&config).unwrap();
    assert!(num_nodes >= 3, "Should have at least 3 action nodes");
    assert!(root.count_action_nodes() > 0, "Should have action nodes");
    assert!(root.count_terminal_nodes() > 0, "Should have terminal nodes");
}

#[test]
fn tree_node_ids_sequential() {
    let config = TreeConfig::default_river(10 * CHIP, 20 * CHIP);
    let (root, num_nodes) = build_tree(&config).unwrap();
    let mut ids = Vec::new();
    collect_ids(&root, &mut ids);
    ids.sort();
    ids.dedup();
    assert_eq!(ids.len(), num_nodes as usize);
    for (i, &id) in ids.iter().enumerate() {
        assert_eq!(id, i as u16, "Node IDs should be sequential");
    }
}

fn collect_ids(node: &TreeNode, ids: &mut Vec<u16>) {
    if let TreeNode::Action { node_id, children, .. } = node {
        ids.push(*node_id);
        for c in children {
            collect_ids(c, ids);
        }
    }
}

#[test]
fn check_check_path_is_showdown() {
    let config = TreeConfig {
        bet_sizes: vec![1000],
        raise_sizes: vec![],
        max_raises: 0,
        starting_pot: 10 * CHIP,
        effective_stack: 20 * CHIP,
        add_allin: false,
    };
    let (root, _) = build_tree(&config).unwrap();

    // OOP checks -> IP checks -> showdown
    if let TreeNode::Action { children, .. } = &root {
        if let TreeNode::Action { children: ip_children, .. } = &children[0] {
            if let TreeNode::Terminal { terminal_type, .. } = &ip_children[0] {
                assert_eq!(*terminal_type, TerminalType::Showdown);
            } else {
                panic!("Expected showdown after check-check");
            }
        }
    }
}

#[test]
fn bet_clamped_to_stack() {
    let config = TreeConfig {
        bet_sizes: vec![5000], // 500% pot, way more than stack
        raise_sizes: vec![],
        max_raises: 0,
        starting_pot: 10 * CHIP,
        effective_stack: 3 * CHIP,
        add_allin: false,
    };
    let (root, _) = build_tree(&config).unwrap();

    if let TreeNode::Action { actions, .. } = &root {
        // Should have check + one bet clamped to 3.0
        assert!(actions.len() >= 2);
        if let Action::Bet(amt) = actions[1] {
            let amt = amt as f64 / CHIP as f64;
            assert!((amt - 3.0).abs() < 0.01, "Bet should be clamped to stack 3.0, got {}", amt);
        }
    }
}

// ---------------------------------------------------------------------------
// Showdown tests
// ---------------------------------------------------------------------------

#[test]
fn showdown_aa_beats_kk() {
    let b = board("2s3h4d5c8s");
    let oop = vec![Combo(card("As"), card("Ah"))]; // AA
    let ip = vec![Combo(card("Ks"), card("Kh"))]; // KK

    let table = ShowdownTable::new(oop, ip, &b);

    assert!(
        table.oop_scores[0] > table.ip_scores[0],
        "AA ({}) should beat KK ({})",
        table.oop_scores[0],
        table.ip_scores[0]
    );
}

#[test]
fn showdown_flush_beats_pair() {
    // Board: 2s 3s 4d 5c 8s (3 spades on board)
    let b = board("2s3s4d5c8s");
    let flush_hand = vec![Combo(card("As"), card("Ks"))]; // spade flush
    let pair_hand = vec![Combo(card("Ah"), card("Ad"))]; // pair of aces

    let table = ShowdownTable::new(flush_hand, pair_hand, &b);
    assert!(table.oop_scores[0] > table.ip_scores[0], "Flush should beat pair");
}

#[test]
fn showdown_board_blockers_filtered() {
    let b = board("2s3h4d5c8s");
    let range = vec!["AA".to_string()];
    let combos = expand_range_to_combos(&range, &b);

    // AA has 6 combos and holds no card of this board
    assert_eq!(combos.len(), 6, "AA should have all 6 combos (no blockers)");

    // Now test with a board card that blocks a combo
    let b2 = board("As3h4d5c8s");
    let combos2 = expand_range_to_combos(&range, &b2);
    // AA has 6 combos, As is on board, so 3 combos are blocked (AsAh, AsAd, AsAc)
    assert_eq!(combos2.len(), 3, "AA should have 3 combos with As on board");
}

#[test]
fn showdown_conflicting_combos_excluded() {
    let b = board("2s3h4d5c8s");
    // Both ranges have AA: combos that share a card should be excluded
    let oop = vec![Combo(card("As"), card("Ah"))];
    let ip = vec![Combo(card("As"), card("Ad"))]; // shares As with OOP

    let table = ShowdownTable::new(oop, ip, &b);
    assert!(table.valid_ip_for_oop[0].is_empty(), "Combos sharing cards should be excluded");
}

#[test]
fn showdown_non_conflicting_valid() {
    let b = board("2s3h4d5c8s");
    let oop = vec![Combo(card("As"), card("Ah"))];
    let ip = vec![Combo(card("Kd"), card("Kc"))]; // no card overlap

    let table = ShowdownTable::new(oop, ip, &b);
    assert_eq!(table.valid_ip_for_oop[0].len(), 1, "Non-conflicting combos should be valid");
}

#[test]
fn combo_expansion_correct_count() {
    let b = board("2s3h4d5c8s");

    // AA: 6 combos, none blocked
    let combos = expand_range_to_combos(&vec!["AA".to_string()], &b);
    assert_eq!(combos.len(), 6);

    // AKs: 4 combos, none blocked
    let combos = expand_range_to_combos(&vec!["AKs".to_string()], &b);
    assert_eq!(combos.len(), 4);

    // AKo: 12 combos, none blocked
    let combos = expand_range_to_combos(&vec!["AKo".to_string()], &b);
    assert_eq!(combos.len(), 12);

    // With board blockers
    let b2 = board("As3h4d5c8s"); // As on board
    let combos = expand_range_to_combos(&vec!["AA".to_string()], &b2);
    assert_eq!(combos.len(), 3); // 3 combos without As
}

#[test]
fn river_solver_config_validates_board() {
    // Too few cards
    let result = RiverSolverConfig::new("As3h4d", "AA", "KK", 10 * CHIP, 20 * CHIP, 100);
    assert!(result.is_err());

    // Valid 5-card board
    let result = RiverSolverConfig::new("As3h4d5c8s", "AA", "KK", 10 * CHIP, 20 * CHIP, 100);
    assert!(result.is_ok());
}

#[test]
fn empty_range_after_blockers() {
    // Board uses As, Ah: of the aces only Ad Ac is left
    let b = board("AsAh4d5c8s");
    let combos = expand_range_to_combos(&vec!["AA".to_string()], &b);
    // AA combos: AsAh, AsAd, AsAc, AhAd, AhAc, AdAc
    // As and Ah on board, so only AdAc survives
    assert_eq!(combos.len(), 1, "Only AdAc should survive");
}

// ---------------------------------------------------------------------------
// Further cases
// ---------------------------------------------------------------------------

#[test]
fn expansion_order_and_cards() {
    let b = board("2s3h4d5c8s");
    let combos = expand_range_to_combos(&vec!["AA".to_string()], &b);
    // Suits in the order s, h, d, c; the first card's suit first.
    assert_eq!(
        combos,
        vec![
            Combo(48, 49),
            Combo(48, 50),
            Combo(48, 51),
            Combo(49, 50),
            Combo(49, 51),
            Combo(50, 51),
        ]
    );
    let combos = expand_range_to_combos(&vec!["AKs".to_string()], &b);
    assert_eq!(combos, vec![Combo(48, 44), Combo(49, 45), Combo(50, 46), Combo(51, 47)]);
    let combos = expand_range_to_combos(&vec!["72o".to_string()], &b);
    assert_eq!(combos.len(), 9); // 12 less the three with the deuce of spades
    assert_eq!(combos[0], Combo(20, 1));
    let combos = expand_range_to_combos(&vec!["AK".to_string()], &b);
    assert_eq!(combos.len(), 16);
}

#[test]
fn expansion_of_the_last_aces() {
    let b = board("AsAh4d5c8s");
    let combos = expand_range_to_combos(&vec!["AA".to_string()], &b);
    assert_eq!(combos, vec![Combo(card("Ad"), card("Ac"))]);
}

#[test]
fn pocket_pair_keeps_as_many_hands_as_the_board_leaves() {
    let range = vec!["QQ".to_string()];
    let boards = ["2s3h4d5c8s", "Qs3h4d5c8s", "QsQh4d5c8s", "QsQhQd5c8s", "QsQhQdQc8s"];
    let expected = [6, 3, 1, 0, 0];
    for (text, want) in boards.iter().zip(expected) {
        assert_eq!(expand_range_to_combos(&range, &board(text)).len(), want, "board {}", text);
    }
}

#[test]
fn expansion_names_two_cards_once() {
    let b = board("2s3h4d5c8s");
    let range: Vec<String> =
        ["AKs", "AK", "KAs", "AA", "AA"].iter().map(|s| s.to_string()).collect();
    let combos = expand_range_to_combos(&range, &b);
    // AKs (4), the other 12 of AK, nothing new from KAs, AA (6) once.
    assert_eq!(combos.len(), 22);
    for (i, a) in combos.iter().enumerate() {
        for bb in &combos[i + 1..] {
            assert!(!((a.0 == bb.0 && a.1 == bb.1) || (a.0 == bb.1 && a.1 == bb.0)));
        }
    }
}

#[test]
fn expansion_passes_over_what_is_no_hand_class() {
    let b = board("2s3h4d5c8s");
    let range: Vec<String> = ["XX", "AAs", "A", "KK", "AKx"].iter().map(|s| s.to_string()).collect();
    assert_eq!(expand_range_to_combos(&range, &b).len(), 6);
}

#[test]
fn showdown_table_lists_and_scores() {
    let b = board("2s3h4d5c8s");
    let oop = vec![Combo(card("As"), card("Ah")), Combo(card("Kd"), card("Kc"))];
    let ip = vec![
        Combo(card("As"), card("Ad")),
        Combo(card("Qs"), card("Qh")),
        Combo(card("Kc"), card("Kh")),
    ];
    let table = ShowdownTable::new(oop, ip, &b);
    assert_eq!(table.num_oop(), 2);
    assert_eq!(table.num_ip(), 3);
    assert_eq!(table.num_combos(Player::OOP), 2);
    assert_eq!(table.num_combos(Player::IP), 3);
    assert_eq!(table.valid_ip_for_oop, vec![vec![1, 2], vec![0, 1]]);
    assert_eq!(table.valid_oop_for_ip, vec![vec![1], vec![0, 1], vec![0]]);
    // An ace makes the five-high straight; pair of kings, kickers 8 5 4.
    assert_eq!(table.oop_scores, vec![0x450000, 0x1D8540]);
    assert_eq!(table.ip_scores, vec![0x450000, 0x1C8540, 0x1D8540]);
    assert_eq!(table.showdown_result(Player::OOP, 0, 1), ShowdownResult::Win);
    assert_eq!(table.showdown_result(Player::OOP, 1, 0), ShowdownResult::Lose);
    assert_eq!(table.showdown_result(Player::OOP, 1, 2), ShowdownResult::Tie);
    assert_eq!(table.showdown_result(Player::IP, 1, 0), ShowdownResult::Lose);
    assert_eq!(table.showdown_result(Player::IP, 0, 1), ShowdownResult::Win);
    assert_eq!(table.reach_mask(Player::OOP, 0), vec![false, true, true]);
    assert_eq!(table.reach_mask(Player::OOP, 1), vec![true, true, false]);
    assert_eq!(table.reach_mask(Player::IP, 0), vec![false, true]);
}

#[test]
fn shared_cards() {
    assert!(shares_no_card(Combo(1, 2), Combo(3, 4)));
    assert!(!shares_no_card(Combo(1, 2), Combo(2, 4)));
    assert!(!shares_no_card(Combo(1, 2), Combo(4, 1)));
    assert!(!shares_no_card(Combo(1, 2), Combo(1, 2)));
}

#[test]
fn config_holds_what_was_read() {
    let config =
        RiverSolverConfig::new("2s3h4d5c8s", "AA, KK", "QQ,JJ", 10 * CHIP, 20 * CHIP, 250).unwrap();
    assert_eq!(config.board, vec![0, 5, 10, 15, 24]);
    assert_eq!(config.oop_range, vec!["AA".to_string(), "KK".to_string()]);
    assert_eq!(config.ip_range, vec!["QQ".to_string(), "JJ".to_string()]);
    assert_eq!(config.starting_pot, 10 * CHIP);
    assert_eq!(config.effective_stack, 20 * CHIP);
    assert_eq!(config.iterations, 250);
    assert_eq!(config.bet_sizes, vec![330, 670, 1000]);
    assert_eq!(config.raise_sizes, vec![1000]);
    assert_eq!(config.max_raises, 3);
}

fn error_of(r: Result<RiverSolverConfig, ConfigError>) -> ConfigError {
    match r {
        Ok(_) => panic!("expected an error"),
        Err(e) => e,
    }
}

#[test]
fn config_errors() {
    let new = RiverSolverConfig::new;
    assert_eq!(error_of(new("As3h4d", "AA", "KK", 10, 20, 1)), ConfigError::InvalidBoard);
    assert_eq!(error_of(new("As3h4d5c8", "AA", "KK", 10, 20, 1)), ConfigError::InvalidBoard);
    assert_eq!(error_of(new("As3h4d5cXs", "AA", "KK", 10, 20, 1)), ConfigError::InvalidBoard);
    assert_eq!(
        error_of(new("As3h4d5c8s", "", "KK", 10, 20, 1)),
        ConfigError::EmptyRange { player: Player::OOP }
    );
    assert_eq!(
        error_of(new("As3h4d5c8s", "AA", " , ", 10, 20, 1)),
        ConfigError::EmptyRange { player: Player::IP }
    );
    // All aces but one on the board: no pair of aces is left.
    assert_eq!(
        error_of(new("AsAhAd5c8s", "AA", "KK", 10, 20, 1)),
        ConfigError::EmptyRange { player: Player::OOP }
    );
    assert_eq!(error_of(new("As3h4d5c8s", "AA", "KK", 0, 20, 1)), ConfigError::InvalidAmounts);
    assert_eq!(
        error_of(new("As3h4d5c8s", "AA", "KK", 10, u64::MAX / 2, 1)),
        ConfigError::InvalidAmounts
    );
    // The board is looked at first, then the ranges, then the amounts.
    assert_eq!(error_of(new("As3h4d", "", "", 0, 20, 1)), ConfigError::InvalidBoard);
    assert_eq!(
        error_of(new("As3h4d5c8s", "", "", 0, 20, 1)),
        ConfigError::EmptyRange { player: Player::OOP }
    );
}

#[test]
fn inputs_of_other_streets() {
    // Turn: four cards.
    assert!(read_inputs("As3h4d5c", "AA", "KK", 10 * CHIP, 20 * CHIP, 4).is_ok());
    assert!(read_inputs("As3h4d", "AA", "KK", 10 * CHIP, 20 * CHIP, 4).is_err());
    assert!(read_inputs("As3h4d5c8s", "AA", "KK", 10 * CHIP, 20 * CHIP, 4).is_err());
    // Flop: three cards.
    assert!(read_inputs("As3h4d", "AA", "KK", 10 * CHIP, 50 * CHIP, 3).is_ok());
    assert!(read_inputs("As3h4d5c", "AA", "KK", 10 * CHIP, 50 * CHIP, 3).is_err());
    assert!(read_inputs("As3h", "AA", "KK", 10 * CHIP, 50 * CHIP, 3).is_err());
    assert!(read_inputs("As3h4d", "", "KK", 10 * CHIP, 50 * CHIP, 3).is_err());
    assert!(read_inputs("As3h4d", "AA", "", 10 * CHIP, 50 * CHIP, 3).is_err());
    // One pair of aces is left beside two aces on the board.
    let inputs = read_inputs("AsAh4d5c", "AA", "KK", 10 * CHIP, 20 * CHIP, 4).ok().unwrap();
    assert_eq!(expand_range_to_combos(&inputs.oop_range, &inputs.board).len(), 1);
}

#[test]
fn info_set_keys_and_sweeps() {
    let key = InfoSetKey::at(7, 3);
    assert_eq!(key, InfoSetKey { hand_bucket: 7, node_id: 3 });
    assert_ne!(InfoSetKey::at(7, 3), InfoSetKey::at(3, 7));
    assert_eq!(sweep_traverser(0), Player::OOP);
    assert_eq!(sweep_traverser(1), Player::IP);
    assert_eq!(sweep_traverser(2), Player::OOP);
    assert_eq!(sweep_traverser(2001), Player::IP);
}

#[test]
fn terminal_payoffs() {
    // Pot 30, the traverser has put in 10 of it.
    let invested = [10_000u64, 5_000u64];
    let pay = |kind, who, result| terminal_payoff_twice(kind, 30_000, &invested, who, result);
    let showdown = TerminalType::Showdown;
    // Win: pot less the own investment; lose: the investment; tie: half the pot less it.
    assert_eq!(pay(showdown, Player::OOP, ShowdownResult::Win), 2 * 20_000);
    assert_eq!(pay(showdown, Player::OOP, ShowdownResult::Lose), -2 * 10_000);
    assert_eq!(pay(showdown, Player::OOP, ShowdownResult::Tie), 2 * 5_000);
    assert_eq!(pay(showdown, Player::IP, ShowdownResult::Win), 2 * 25_000);
    assert_eq!(pay(showdown, Player::IP, ShowdownResult::Tie), 2 * 10_000);
    // A fold is lost by the folder and won by the other, whatever the hands.
    let oop_folds = TerminalType::Fold { folder: Player::OOP };
    assert_eq!(pay(oop_folds, Player::OOP, ShowdownResult::Win), -2 * 10_000);
    assert_eq!(pay(oop_folds, Player::IP, ShowdownResult::Lose), 2 * 25_000);
    // An odd pot keeps its half chip unit.
    assert_eq!(
        terminal_payoff_twice(showdown, 7, &[3, 4], Player::OOP, ShowdownResult::Tie),
        1
    );
}

#[test]
fn deals_and_blocked_hands() {
    let cards = vec![4u8, 9, 17, 30, 51];
    assert_eq!(legal_deals(&cards, Combo(9, 30)), vec![0, 2, 4]);
    assert_eq!(legal_deals(&cards, Combo(0, 1)), vec![0, 1, 2, 3, 4]);
    assert_eq!(legal_deals(&cards, Combo(51, 4)), vec![1, 2, 3]);
    assert_eq!(legal_deals(&[], Combo(51, 4)), Vec::<usize>::new());
    let hands = vec![Combo(1, 2), Combo(9, 3), Combo(4, 9), Combo(50, 51)];
    assert_eq!(free_of_card(&hands, 9), vec![true, false, false, true]);
    assert_eq!(free_of_card(&hands, 0), vec![true, true, true, true]);
    assert!(combo_holds(Combo(9, 3), 3));
    assert!(combo_holds(Combo(9, 3), 9));
    assert!(!combo_holds(Combo(9, 3), 4));
}

#[test]
fn one_showdown_table_for_each_river_card() {
    let turn = board("2s3h4d5c");
    let oop = vec![Combo(card("As"), card("Ah")), Combo(card("Kd"), card("Kc"))];
    let ip = vec![Combo(card("Qs"), card("Qh")), Combo(card("Ks"), card("Kh"))];
    let rivers = vec![card("8s"), card("Ad"), card("6c")];
    let tables = river_tables(&oop, &ip, &turn, &rivers);
    assert_eq!(tables.len(), 3);
    for (k, table) in tables.iter().enumerate() {
        assert_eq!(table.oop_combos, oop);
        assert_eq!(table.ip_combos, ip);
        // The lists of valid opponents do not depend on the river.
        assert_eq!(table.valid_ip_for_oop, tables[0].valid_ip_for_oop);
        assert_eq!(table.valid_oop_for_ip, tables[0].valid_oop_for_ip);
        // The scores are those of the completed board.
        let mut full = turn.clone();
        full.push(rivers[k]);
        let alone = ShowdownTable::new(oop.clone(), ip.clone(), &full);
        assert_eq!(table.oop_scores, alone.oop_scores);
        assert_eq!(table.ip_scores, alone.ip_scores);
    }
    // On the six every hand makes the straight to the six; on the eight
    // the aces make the wheel.
    assert_eq!(tables[2].oop_scores, vec![0x460000, 0x460000]);
    assert_eq!(tables[0].oop_scores[0], 0x450000);
}
