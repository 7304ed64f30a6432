use gto_cli::postflop_tree::{
    action_labels, build_tree, build_turn_tree, collect_node_metadata, Action, NodeMeta, Player,
    TerminalType, TreeConfig, TreeNode, TurnTreeConfig,
};

// Amounts are chip units, 1000 to the chip; sizes are thousandths of the pot.
const CHIP: u64 = 1000;

fn chips(units: u64) -> f64 {
    units as f64 / CHIP as f64
}

#[test]
fn basic_tree_structure() {
    let config = TreeConfig {
        bet_sizes: vec![1000],
        raise_sizes: vec![],
        max_raises: 0,
        starting_pot: 10 * CHIP,
        effective_stack: 20 * CHIP,
        add_allin: false,
    };
    let (root, num_nodes) = build_tree(&config).unwrap();
    assert!(num_nodes > 0);
    assert!(root.count_action_nodes() > 0);
    assert!(root.count_terminal_nodes() > 0);
}

#[test]
fn check_check_leads_to_showdown() {
    let config = TreeConfig {
        bet_sizes: vec![1000],
        raise_sizes: vec![],
        max_raises: 0,
        starting_pot: 10 * CHIP,
        effective_stack: 20 * CHIP,
        add_allin: false,
    };
    let (root, _) = build_tree(&config).unwrap();

    // Root = OOP action, first child (check) should lead to IP action
    if let TreeNode::Action { children, actions, .. } = &root {
        assert_eq!(actions[0], Action::Check);
        // Check leads to IP action node
        if let TreeNode::Action { children: ip_children, actions: ip_actions, .. } = &children[0] {
            assert_eq!(ip_actions[0], Action::Check);
            // IP check back = showdown
            if let TreeNode::Terminal { terminal_type, .. } = &ip_children[0] {
                assert_eq!(*terminal_type, TerminalType::Showdown);
            } else {
                panic!("Expected terminal showdown after check-check");
            }
        } else {
            panic!("Expected IP action node after OOP check");
        }
    } else {
        panic!("Root should be action node");
    }
}

#[test]
fn node_ids_unique_and_sequential() {
    let config = TreeConfig::default_river(10 * CHIP, 20 * CHIP);
    let (root, num_nodes) = build_tree(&config).unwrap();

    let mut ids = Vec::new();
    collect_node_ids(&root, &mut ids);
    ids.sort();
    ids.dedup();
    assert_eq!(ids.len(), num_nodes as usize);
    // IDs should be 0..num_nodes
    for (i, &id) in ids.iter().enumerate() {
        assert_eq!(id, i as u16);
    }
}

fn collect_node_ids(node: &TreeNode, ids: &mut Vec<u16>) {
    match node {
        TreeNode::Action { node_id, children, .. } => {
            ids.push(*node_id);
            for c in children {
                collect_node_ids(c, ids);
            }
        }
        TreeNode::Chance { children, .. } => {
            for c in children {
                collect_node_ids(c, ids);
            }
        }
        TreeNode::Terminal { .. } => {}
    }
}

#[test]
fn allin_clamped_to_stack() {
    let config = TreeConfig {
        bet_sizes: vec![2000], // 200% pot bet = 20.0, but stack is only 5
        raise_sizes: vec![],
        max_raises: 0,
        starting_pot: 10 * CHIP,
        effective_stack: 5 * CHIP,
        add_allin: false,
    };
    let (root, _) = build_tree(&config).unwrap();

    if let TreeNode::Action { actions, .. } = &root {
        // Check + Bet(5.0) clamped to stack
        assert_eq!(actions.len(), 2);
        if let Action::Bet(amt) = actions[1] {
            assert!(
                (chips(amt) - 5.0).abs() < 0.01,
                "Bet should be clamped to 5.0, got {}",
                chips(amt)
            );
        }
    }
}

#[test]
fn no_bets_means_only_check() {
    let config = TreeConfig {
        bet_sizes: vec![],
        raise_sizes: vec![],
        max_raises: 0,
        starting_pot: 10 * CHIP,
        effective_stack: 20 * CHIP,
        add_allin: false,
    };
    let (root, _) = build_tree(&config).unwrap();

    if let TreeNode::Action { actions, .. } = &root {
        assert_eq!(actions.len(), 1);
        assert_eq!(actions[0], Action::Check);
    }
}

// -----------------------------------------------------------------------
// Turn tree tests
// -----------------------------------------------------------------------

fn count_chance(node: &TreeNode) -> usize {
    match node {
        TreeNode::Chance { children, .. } => 1 + children.iter().map(count_chance).sum::<usize>(),
        TreeNode::Action { children, .. } => children.iter().map(count_chance).sum(),
        TreeNode::Terminal { .. } => 0,
    }
}

#[test]
fn turn_tree_has_chance_nodes() {
    // Board: 4 turn cards (indices 0,1,2,3)
    let config = TurnTreeConfig::new(vec![0, 1, 2, 3], 10 * CHIP, 20 * CHIP);
    let (root, _num_nodes) = build_turn_tree(&config).unwrap();

    // Count chance nodes in the tree
    let num_chance = count_chance(&root);
    assert!(num_chance > 0, "Turn tree should have chance nodes");
}

fn find_chance(node: &TreeNode) -> Option<usize> {
    match node {
        TreeNode::Chance { children, .. } => Some(children.len()),
        TreeNode::Action { children, .. } => children.iter().find_map(find_chance),
        TreeNode::Terminal { .. } => None,
    }
}

#[test]
fn turn_tree_chance_node_has_48_children() {
    // 4 board cards -> 48 possible river cards
    let config = TurnTreeConfig::new(vec![0, 1, 2, 3], 10 * CHIP, 20 * CHIP);
    let (root, _) = build_turn_tree(&config).unwrap();

    // Find first chance node
    let num_children = find_chance(&root).expect("Should have a chance node");
    assert_eq!(num_children, 48, "48 possible river cards");
}

#[test]
fn turn_tree_node_ids_unique() {
    let config = TurnTreeConfig::new(vec![0, 1, 2, 3], 10 * CHIP, 20 * CHIP);
    let (root, num_nodes) = build_turn_tree(&config).unwrap();

    let mut ids = Vec::new();
    collect_node_ids(&root, &mut ids);
    let total = ids.len();
    ids.sort();
    ids.dedup();
    assert_eq!(
        ids.len(),
        total,
        "All node IDs should be unique ({} unique out of {})",
        ids.len(),
        total
    );
    assert_eq!(ids.len(), num_nodes as usize);
}

fn check_no_showdown_in_turn(node: &TreeNode, depth: usize) {
    match node {
        TreeNode::Terminal { terminal_type, .. } => {
            // Showdown terminals at turn level shouldn't exist.
            // They should only exist inside river subtrees (after chance nodes).
            if depth == 0 {
                assert_ne!(
                    *terminal_type,
                    TerminalType::Showdown,
                    "Turn level should have no Showdown terminals"
                );
            }
        }
        TreeNode::Action { children, .. } => {
            for c in children {
                check_no_showdown_in_turn(c, depth);
            }
        }
        TreeNode::Chance { children, .. } => {
            // Past a chance node, we're in river subtrees: showdowns are fine
            for c in children {
                check_no_showdown_in_turn(c, depth + 1);
            }
        }
    }
}

#[test]
fn turn_tree_no_showdown_terminals() {
    // After the transformation only fold terminals are left on the turn:
    // every showdown has become a chance node.
    let config = TurnTreeConfig::new(vec![0, 1, 2, 3], 10 * CHIP, 20 * CHIP);
    let (root, _) = build_turn_tree(&config).unwrap();

    check_no_showdown_in_turn(&root, 0);
}

#[test]
fn turn_tree_collect_metadata() {
    let config = TurnTreeConfig::new(vec![0, 1, 2, 3], 10 * CHIP, 20 * CHIP);
    let (root, num_nodes) = build_turn_tree(&config).unwrap();

    let metas = collect_node_metadata(&root);
    assert_eq!(
        metas.len(),
        num_nodes as usize,
        "Metadata count should match total action nodes"
    );

    // Verify sorted by node_id and sequential
    for (i, m) in metas.iter().enumerate() {
        assert_eq!(m.node_id, i as u16);
        assert!(m.num_actions >= 1);
    }
}

// -----------------------------------------------------------------------
// Further cases
// -----------------------------------------------------------------------

#[test]
fn player_opponent_and_index() {
    assert_eq!(Player::OOP.opponent(), Player::IP);
    assert_eq!(Player::IP.opponent(), Player::OOP);
    assert_eq!(Player::OOP.opponent().opponent(), Player::OOP);
    assert_eq!(Player::OOP.index(), 0);
    assert_eq!(Player::IP.index(), 1);
}

#[test]
fn root_actions_of_a_sized_tree_are_exact() {
    // Pot 10, stack 20, bets of 33%, 67% and 100% of the pot, all-in added.
    let config = TreeConfig::default_river(10 * CHIP, 20 * CHIP);
    let (root, _) = build_tree(&config).unwrap();
    match &root {
        TreeNode::Action { node_id, player, pot, stacks, actions, children } => {
            assert_eq!(*node_id, 0);
            assert_eq!(*player, Player::OOP);
            assert_eq!(*pot, 10_000);
            assert_eq!(*stacks, [20_000, 20_000]);
            assert_eq!(
                actions,
                &vec![
                    Action::Check,
                    Action::Bet(3_300),
                    Action::Bet(6_700),
                    Action::Bet(10_000),
                    Action::Bet(20_000),
                ]
            );
            assert_eq!(children.len(), actions.len());
        }
        _ => panic!("root should be an action node"),
    }
}

#[test]
fn facing_a_bet_offers_fold_call_and_raises() {
    // Pot 10, stack 20, one bet of the pot, one raise of the pot, all-in.
    let config = TreeConfig {
        bet_sizes: vec![1000],
        raise_sizes: vec![1000],
        max_raises: 1,
        starting_pot: 10 * CHIP,
        effective_stack: 20 * CHIP,
        add_allin: true,
    };
    let (root, _) = build_tree(&config).unwrap();
    let TreeNode::Action { actions, children, .. } = &root else {
        panic!("root should be an action node");
    };
    // Check, bet 10 (the pot), all-in 20.
    assert_eq!(actions, &vec![Action::Check, Action::Bet(10_000), Action::Bet(20_000)]);
    // In position faces the bet of 10: pot is 20, 20 behind.
    let TreeNode::Action { player, pot, stacks, actions: facing, children: answers, .. } =
        &children[1]
    else {
        panic!("a bet leads to a decision");
    };
    assert_eq!(*player, Player::IP);
    assert_eq!(*pot, 20_000);
    assert_eq!(*stacks, [10_000, 20_000]);
    // Call 10; pot after the call is 30 and 10 are left, so the pot-sized
    // raise is capped at 10 more, which is all-in: raise to 20 in all.
    assert_eq!(facing, &vec![Action::Fold, Action::Call(10_000), Action::Raise(20_000)]);
    // Fold: the pot stays, the folder is the player in position.
    match &answers[0] {
        TreeNode::Terminal { terminal_type, pot, invested, .. } => {
            assert_eq!(*terminal_type, TerminalType::Fold { folder: Player::IP });
            assert_eq!(*pot, 20_000);
            assert_eq!(*invested, [10_000, 0]);
        }
        _ => panic!("fold ends the hand"),
    }
    // Call: showdown with the call in the pot.
    match &answers[1] {
        TreeNode::Terminal { terminal_type, pot, stacks, invested } => {
            assert_eq!(*terminal_type, TerminalType::Showdown);
            assert_eq!(*pot, 30_000);
            assert_eq!(*stacks, [10_000, 10_000]);
            assert_eq!(*invested, [10_000, 10_000]);
        }
        _ => panic!("call ends the hand"),
    }
    // Raise all-in: out of position faces 10 more with 10 behind and the
    // raise cap reached: fold or call.
    match &answers[2] {
        TreeNode::Action { player, pot, actions, .. } => {
            assert_eq!(*player, Player::OOP);
            assert_eq!(*pot, 40_000);
            assert_eq!(actions, &vec![Action::Fold, Action::Call(10_000)]);
        }
        _ => panic!("a raise leads to a decision"),
    }
}

fn check_terminal_pots(node: &TreeNode, starting_pot: u64) {
    match node {
        TreeNode::Terminal { pot, invested, .. } => {
            assert_eq!(*pot, starting_pot + invested[0] + invested[1]);
        }
        TreeNode::Action { actions, children, .. } => {
            assert!(!actions.is_empty());
            assert_eq!(actions.len(), children.len());
            for c in children {
                check_terminal_pots(c, starting_pot);
            }
        }
        TreeNode::Chance { .. } => panic!("a single-street tree holds no chance node"),
    }
}

#[test]
fn terminal_pots_add_up() {
    let config = TreeConfig::default_river(10 * CHIP, 20 * CHIP);
    let (root, _) = build_tree(&config).unwrap();
    check_terminal_pots(&root, 10 * CHIP);
}

fn preorder_ids(node: &TreeNode, ids: &mut Vec<u16>) {
    if let TreeNode::Action { node_id, children, .. } = node {
        ids.push(*node_id);
        for c in children {
            preorder_ids(c, ids);
        }
    }
}

#[test]
fn single_street_ids_follow_pre_order() {
    let config = TreeConfig::default_river(10 * CHIP, 20 * CHIP);
    let (root, num_nodes) = build_tree(&config).unwrap();
    let mut ids = Vec::new();
    preorder_ids(&root, &mut ids);
    let expected: Vec<u16> = (0..num_nodes).collect();
    assert_eq!(ids, expected);
    assert_eq!(root.count_action_nodes(), num_nodes as usize);
}

#[test]
fn tiny_stack_is_settled_without_a_decision() {
    // Less than a hundredth of a chip behind: nobody can act.
    let config = TreeConfig {
        bet_sizes: vec![1000],
        raise_sizes: vec![1000],
        max_raises: 3,
        starting_pot: 10 * CHIP,
        effective_stack: 9,
        add_allin: true,
    };
    let (root, num_nodes) = build_tree(&config).unwrap();
    assert_eq!(num_nodes, 0);
    match root {
        TreeNode::Terminal { terminal_type, pot, .. } => {
            assert_eq!(terminal_type, TerminalType::Showdown);
            assert_eq!(pot, 10 * CHIP);
        }
        _ => panic!("expected a showdown"),
    }
}

#[test]
fn too_many_nodes_gives_none() {
    // Many sizes and raises: more action nodes than a 16-bit id can count.
    let config = TreeConfig {
        bet_sizes: vec![10, 20, 30, 40, 50, 60, 70, 80],
        raise_sizes: vec![10, 20, 30, 40, 50, 60, 70, 80],
        max_raises: 6,
        starting_pot: 1_000 * CHIP,
        effective_stack: 1_000_000 * CHIP,
        add_allin: true,
    };
    assert!(build_tree(&config).is_none());
}

#[test]
fn two_street_tree_every_chance_node_has_48_children() {
    let config = TurnTreeConfig::new(vec![0, 13, 26, 39], 10 * CHIP, 20 * CHIP);
    let (root, _) = build_turn_tree(&config).unwrap();
    fn walk(node: &TreeNode, seen: &mut usize) {
        match node {
            TreeNode::Chance { cards, children, .. } => {
                assert_eq!(cards.len(), 48);
                assert_eq!(children.len(), 48);
                assert!(!cards.contains(&0) && !cards.contains(&13));
                assert!(!cards.contains(&26) && !cards.contains(&39));
                *seen += 1;
                for c in children {
                    walk(c, seen);
                }
            }
            TreeNode::Action { children, .. } => {
                for c in children {
                    walk(c, seen);
                }
            }
            TreeNode::Terminal { .. } => {}
        }
    }
    let mut seen = 0;
    walk(&root, &mut seen);
    assert!(seen > 0);
}

#[test]
fn label_of_each_action() {
    assert_eq!(Action::Check.label(), "Check");
    assert_eq!(Action::Fold.label(), "Fold");
    assert_eq!(Action::Bet(3_300).label(), "Bet 3.3");
    assert_eq!(Action::Call(5_000).label(), "Call 5.0");
    assert_eq!(Action::Raise(12_340).label(), "Raise 12.3");
    assert_eq!(Action::Bet(1_250).label(), "Bet 1.3");
    assert_eq!(Action::Bet(49).label(), "Bet 0.0");
    assert_eq!(Action::Bet(1_234_567_950).label(), "Bet 1234568.0");
}

#[test]
fn default_configurations() {
    let river = TreeConfig::default_river(10 * CHIP, 20 * CHIP);
    assert_eq!(river.bet_sizes, vec![330, 670, 1000]);
    assert_eq!(river.raise_sizes, vec![1000]);
    assert_eq!(river.max_raises, 3);
    assert!(river.add_allin);
    let turn = TreeConfig::default_turn(10 * CHIP, 20 * CHIP);
    assert_eq!(turn.bet_sizes, vec![500, 1000]);
    assert_eq!(turn.raise_sizes, vec![1000]);
    assert_eq!(turn.max_raises, 2);
    assert_eq!(turn.starting_pot, 10 * CHIP);
    assert_eq!(turn.effective_stack, 20 * CHIP);
}

#[test]
fn labels_of_a_node() {
    let actions = vec![Action::Check, Action::Bet(3_300), Action::Bet(20_000)];
    assert_eq!(action_labels(&actions), vec!["Check", "Bet 3.3", "Bet 20.0"]);
    assert_eq!(action_labels(&vec![]), Vec::<String>::new());
}

#[test]
fn metadata_is_sorted_by_id_and_keeps_the_order_of_equal_ids() {
    // A tree put together by hand, with ids out of order and one id twice.
    let leaf = || TreeNode::Terminal {
        terminal_type: TerminalType::Showdown,
        pot: 0,
        stacks: [0, 0],
        invested: [0, 0],
    };
    let node = |node_id, player, actions: Vec<Action>, children| TreeNode::Action {
        node_id,
        player,
        pot: 0,
        stacks: [0, 0],
        actions,
        children,
    };
    let tree = node(
        5,
        Player::OOP,
        vec![Action::Check, Action::Bet(1)],
        vec![
            node(2, Player::IP, vec![Action::Check], vec![leaf()]),
            node(
                5,
                Player::IP,
                vec![Action::Fold, Action::Call(1), Action::Raise(2)],
                vec![leaf(), leaf(), node(0, Player::OOP, vec![Action::Fold], vec![leaf()])],
            ),
        ],
    );
    let metas = collect_node_metadata(&tree);
    let seen: Vec<(u16, Player, u8)> =
        metas.iter().map(|m: &NodeMeta| (m.node_id, m.player, m.num_actions)).collect();
    assert_eq!(
        seen,
        vec![(0, Player::OOP, 1), (2, Player::IP, 1), (5, Player::OOP, 2), (5, Player::IP, 3)]
    );
}

fn turn_level_ids(node: &TreeNode, ids: &mut Vec<u16>) {
    if let TreeNode::Action { node_id, children, .. } = node {
        ids.push(*node_id);
        for c in children {
            turn_level_ids(c, ids);
        }
    }
}

fn river_ids(node: &TreeNode, below_chance: bool, ids: &mut Vec<u16>) {
    match node {
        TreeNode::Action { node_id, children, .. } => {
            if below_chance {
                ids.push(*node_id);
            }
            for c in children {
                river_ids(c, below_chance, ids);
            }
        }
        TreeNode::Chance { children, .. } => {
            for c in children {
                river_ids(c, true, ids);
            }
        }
        TreeNode::Terminal { .. } => {}
    }
}

#[test]
fn two_street_ids_turn_first_then_the_rivers_in_order() {
    let config = TurnTreeConfig::new(vec![0, 1, 2, 3], 10 * CHIP, 20 * CHIP);
    let (turn_alone, turn_count) = build_tree(&config.turn).unwrap();
    let (root, count) = build_turn_tree(&config).unwrap();
    // The turn's nodes keep the ids of the turn tree, in pre-order.
    let mut turn_ids = Vec::new();
    turn_level_ids(&root, &mut turn_ids);
    assert_eq!(turn_ids, (0..turn_count).collect::<Vec<u16>>());
    assert_eq!(turn_alone.count_action_nodes(), turn_count as usize);
    // The river trees follow, one after another in the order of the walk.
    let mut deeper = Vec::new();
    river_ids(&root, false, &mut deeper);
    assert_eq!(deeper, (turn_count..count).collect::<Vec<u16>>());
    assert_eq!(root.count_action_nodes(), count as usize);
}

// -----------------------------------------------------------------------
// Whole trees, written out
// -----------------------------------------------------------------------

fn amount(units: u64) -> String {
    format!("{}.{:03}", units / CHIP, units % CHIP)
}

fn action_text(action: &Action) -> String {
    match action {
        Action::Check => "C".to_string(),
        Action::Fold => "F".to_string(),
        Action::Bet(a) => format!("B{}", amount(*a)),
        Action::Call(a) => format!("C{}", amount(*a)),
        Action::Raise(a) => format!("R{}", amount(*a)),
    }
}

/// A tree on one line: `(player:actions)[children]`, terminals as `S` or
/// `F` with the pot.
fn written(node: &TreeNode) -> String {
    match node {
        TreeNode::Terminal { terminal_type, pot, .. } => match terminal_type {
            TerminalType::Showdown => format!("S{}", amount(*pot)),
            TerminalType::Fold { .. } => format!("F{}", amount(*pot)),
        },
        TreeNode::Action { player, actions, children, .. } => {
            let acts: Vec<String> = actions.iter().map(action_text).collect();
            let subs: Vec<String> = children.iter().map(written).collect();
            format!("({}:{})[{}]", player.index(), acts.join(" "), subs.join(","))
        }
        TreeNode::Chance { children, .. } => {
            let subs: Vec<String> = children.iter().map(written).collect();
            format!("<{}>", subs.join(","))
        }
    }
}

fn sizes(fractions: &[u64]) -> Vec<u64> {
    fractions.to_vec()
}

#[test]
fn whole_tree_river_10_20() {
    let config = TreeConfig {
        bet_sizes: sizes(&[330, 670, 1000]),
        raise_sizes: sizes(&[1000]),
        max_raises: 3,
        starting_pot: 10000,
        effective_stack: 20000,
        add_allin: true,
    };
    let (root, num_nodes) = build_tree(&config).unwrap();
    assert_eq!(num_nodes, 20);
    assert_eq!(root.count_action_nodes(), 20);
    assert_eq!(root.count_terminal_nodes(), 37);
    let expected = "(0:C B3.300 B6.700 B10.000 B20.000)[(1:C B3.300 B6.700 B10.000 B20.000)[S10.000,(0:F C3.300 R19.900 R20.000)[F13.300,S16.600,(1:F C16.600 R16.700)[F33.200,S49.800,(0:F C0.100)[F49.900,S50.000]],(1:F C16.700)[F33.300,S50.000]],(0:F C6.700 R20.000)[F16.700,S23.400,(1:F C13.300)[F36.700,S50.000]],(0:F C10.000 R20.000)[F20.000,S30.000,(1:F C10.000)[F40.000,S50.000]],(0:F C20.000)[F30.000,S50.000]],(1:F C3.300 R19.900 R20.000)[F13.300,S16.600,(0:F C16.600 R16.700)[F33.200,S49.800,(1:F C0.100)[F49.900,S50.000]],(0:F C16.700)[F33.300,S50.000]],(1:F C6.700 R20.000)[F16.700,S23.400,(0:F C13.300)[F36.700,S50.000]],(1:F C10.000 R20.000)[F20.000,S30.000,(0:F C10.000)[F40.000,S50.000]],(1:F C20.000)[F30.000,S50.000]]";
    assert_eq!(written(&root), expected);
}

#[test]
fn whole_tree_turn_10_20() {
    let config = TreeConfig {
        bet_sizes: sizes(&[500, 1000]),
        raise_sizes: sizes(&[1000]),
        max_raises: 2,
        starting_pot: 10000,
        effective_stack: 20000,
        add_allin: true,
    };
    let (root, num_nodes) = build_tree(&config).unwrap();
    assert_eq!(num_nodes, 12);
    assert_eq!(root.count_action_nodes(), 12);
    assert_eq!(root.count_terminal_nodes(), 21);
    let expected = "(0:C B5.000 B10.000 B20.000)[(1:C B5.000 B10.000 B20.000)[S10.000,(0:F C5.000 R20.000)[F15.000,S20.000,(1:F C15.000)[F35.000,S50.000]],(0:F C10.000 R20.000)[F20.000,S30.000,(1:F C10.000)[F40.000,S50.000]],(0:F C20.000)[F30.000,S50.000]],(1:F C5.000 R20.000)[F15.000,S20.000,(0:F C15.000)[F35.000,S50.000]],(1:F C10.000 R20.000)[F20.000,S30.000,(0:F C10.000)[F40.000,S50.000]],(1:F C20.000)[F30.000,S50.000]]";
    assert_eq!(written(&root), expected);
}

#[test]
fn whole_tree_river_10_100() {
    let config = TreeConfig {
        bet_sizes: sizes(&[330, 670, 1000]),
        raise_sizes: sizes(&[1000]),
        max_raises: 3,
        starting_pot: 10000,
        effective_stack: 100000,
        add_allin: true,
    };
    let (root, num_nodes) = build_tree(&config).unwrap();
    assert_eq!(num_nodes, 32);
    assert_eq!(root.count_action_nodes(), 32);
    assert_eq!(root.count_terminal_nodes(), 61);
    let expected = "(0:C B3.300 B6.700 B10.000 B100.000)[(1:C B3.300 B6.700 B10.000 B100.000)[S10.000,(0:F C3.300 R19.900 R100.000)[F13.300,S16.600,(1:F C16.600 R66.400 R96.700)[F33.200,S49.800,(0:F C49.800 R80.100)[F99.600,S149.400,(1:F C30.300)[F179.700,S210.000]],(0:F C80.100)[F129.900,S210.000]],(1:F C96.700)[F113.300,S210.000]],(0:F C6.700 R30.100 R100.000)[F16.700,S23.400,(1:F C23.400 R93.300)[F46.800,S70.200,(0:F C69.900)[F140.100,S210.000]],(1:F C93.300)[F116.700,S210.000]],(0:F C10.000 R40.000 R100.000)[F20.000,S30.000,(1:F C30.000 R90.000)[F60.000,S90.000,(0:F C60.000)[F150.000,S210.000]],(1:F C90.000)[F120.000,S210.000]],(0:F C100.000)[F110.000,S210.000]],(1:F C3.300 R19.900 R100.000)[F13.300,S16.600,(0:F C16.600 R66.400 R96.700)[F33.200,S49.800,(1:F C49.800 R80.100)[F99.600,S149.400,(0:F C30.300)[F179.700,S210.000]],(1:F C80.100)[F129.900,S210.000]],(0:F C96.700)[F113.300,S210.000]],(1:F C6.700 R30.100 R100.000)[F16.700,S23.400,(0:F C23.400 R93.300)[F46.800,S70.200,(1:F C69.900)[F140.100,S210.000]],(0:F C93.300)[F116.700,S210.000]],(1:F C10.000 R40.000 R100.000)[F20.000,S30.000,(0:F C30.000 R90.000)[F60.000,S90.000,(1:F C60.000)[F150.000,S210.000]],(0:F C90.000)[F120.000,S210.000]],(1:F C100.000)[F110.000,S210.000]]";
    assert_eq!(written(&root), expected);
}

#[test]
fn whole_tree_noallin() {
    let config = TreeConfig {
        bet_sizes: sizes(&[500, 1000]),
        raise_sizes: sizes(&[1000]),
        max_raises: 2,
        starting_pot: 10000,
        effective_stack: 20000,
        add_allin: false,
    };
    let (root, num_nodes) = build_tree(&config).unwrap();
    assert_eq!(num_nodes, 10);
    assert_eq!(root.count_action_nodes(), 10);
    assert_eq!(root.count_terminal_nodes(), 17);
    let expected = "(0:C B5.000 B10.000)[(1:C B5.000 B10.000)[S10.000,(0:F C5.000 R20.000)[F15.000,S20.000,(1:F C15.000)[F35.000,S50.000]],(0:F C10.000 R20.000)[F20.000,S30.000,(1:F C10.000)[F40.000,S50.000]]],(1:F C5.000 R20.000)[F15.000,S20.000,(0:F C15.000)[F35.000,S50.000]],(1:F C10.000 R20.000)[F20.000,S30.000,(0:F C10.000)[F40.000,S50.000]]]";
    assert_eq!(written(&root), expected);
}

#[test]
fn two_street_tree_counts() {
    let config = TurnTreeConfig::new(vec![0, 1, 2, 3], 10 * CHIP, 20 * CHIP);
    let (turn_alone, turn_count) = build_tree(&config.turn).unwrap();
    assert_eq!(turn_count, 12);
    assert_eq!(turn_alone.count_terminal_nodes(), 21);
    let (root, count) = build_turn_tree(&config).unwrap();
    // Eleven showdowns on the turn, each with 48 river trees below it.
    assert_eq!(count_chance(&root), 11);
    assert_eq!(count, 2892);
}
