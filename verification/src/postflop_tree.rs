//! Betting trees for heads-up postflop play.
//!
//! A tree is built from bet and raise sizes given as fractions of the pot.
//! All amounts are whole numbers of chip units, `SCALE` units to the chip;
//! a size of `SCALE` is a bet of the whole pot. Amounts under `TOLERANCE`
//! count as nothing, and amounts within `TOLERANCE` of each other as equal.
//!
//! A two-street tree replaces every showdown of the first street by a
//! chance node that deals the next card and leads into one tree of the
//! second street per card.

use vstd::prelude::*;
use crate::card_encoding::{distinct_cards, lemma_remaining_count, live_below, remaining_deck};
use crate::text::{one_decimal, push_one_decimal};
use vstd::string::StringExecFns;

verus! {

/// Chip units per chip, and the size that stands for the whole pot.
pub const SCALE: u64 = 1000;

/// Amounts below this many units (a hundredth of a chip) count as nothing.
pub const TOLERANCE: u64 = 10;

/// Which player is acting.
#[derive(Debug, Clone, Copy, PartialEq, Eq, Hash, Structural)]
pub enum Player {
    OOP,
    IP,
}

/// The other player.
pub open spec fn opponent_of(p: Player) -> Player {
    match p {
        Player::OOP => Player::IP,
        Player::IP => Player::OOP,
    }
}

/// The place of a player in two-entry arrays: 0 out of position, 1 in.
pub open spec fn index_of(p: Player) -> int {
    match p {
        Player::OOP => 0,
        Player::IP => 1,
    }
}

impl Player {
    pub fn opponent(self) -> (other: Player)
        ensures
            other == opponent_of(self),
            other != self,
            opponent_of(other) == self,
    {
        match self {
            Player::OOP => Player::IP,
            Player::IP => Player::OOP,
        }
    }

    pub fn index(self) -> (i: usize)
        ensures
            i == index_of(self),
            i < 2,
    {
        match self {
            Player::OOP => 0,
            Player::IP => 1,
        }
    }
}

/// An action a player can take at an action node. A bet and a call carry
/// the amount put in, a raise the whole amount put in (call included).
#[derive(Debug, Clone, Copy, PartialEq, Eq, Structural)]
pub enum Action {
    Check,
    Bet(u64),
    Call(u64),
    Raise(u64),
    Fold,
}

/// How a terminal node was reached.
#[derive(Debug, Clone, Copy, PartialEq, Eq, Structural)]
pub enum TerminalType {
    Showdown,
    Fold { folder: Player },
}

/// A node in the postflop game tree.
#[derive(Debug)]
pub enum TreeNode {
    Action {
        node_id: u16,
        player: Player,
        pot: u64,
        stacks: [u64; 2],
        actions: Vec<Action>,
        children: Vec<TreeNode>,
    },
    Terminal { terminal_type: TerminalType, pot: u64, stacks: [u64; 2], invested: [u64; 2] },
    /// Chance node: deals a card, branches into next-street subtrees.
    Chance {
        pot: u64,
        stacks: [u64; 2],
        invested: [u64; 2],
        /// Possible cards to deal (indices 0-51).
        cards: Vec<u8>,
        /// One child subtree per card (same order as `cards`).
        children: Vec<TreeNode>,
    },
}

/// One amount for each player.
pub struct Both {
    pub oop: int,
    pub ip: int,
}

impl Both {
    pub open spec fn of(self, p: Player) -> int {
        match p {
            Player::OOP => self.oop,
            Player::IP => self.ip,
        }
    }

    /// The same amounts with that of `p` changed by `delta`.
    pub open spec fn plus(self, p: Player, delta: int) -> Both {
        match p {
            Player::OOP => Both { oop: self.oop + delta, ip: self.ip },
            Player::IP => Both { oop: self.oop, ip: self.ip + delta },
        }
    }
}

/// The two amounts that an array holds.
pub open spec fn both_of(a: Seq<u64>) -> Both {
    Both { oop: a[0] as int, ip: a[1] as int }
}

/// A game tree as a mathematical value: what a `TreeNode` holds apart from
/// the ids of its action nodes.
pub enum GameTree {
    Action { player: Player, pot: int, stacks: Both, actions: Seq<Action>, children: Seq<GameTree> },
    Terminal { kind: TerminalType, pot: int, stacks: Both, invested: Both },
    Chance { pot: int, stacks: Both, invested: Both, cards: Seq<u8>, children: Seq<GameTree> },
}

/// Number of action nodes in a tree.
pub open spec fn action_nodes(tree: GameTree) -> nat
    decreases tree, 0nat,
{
    match tree {
        GameTree::Action { children, .. } => 1 + action_nodes_first(children, children.len()),
        GameTree::Chance { children, .. } => action_nodes_first(children, children.len()),
        GameTree::Terminal { .. } => 0,
    }
}

/// Number of action nodes in the first `n` of the given trees.
pub open spec fn action_nodes_first(children: Seq<GameTree>, n: nat) -> nat
    decreases children, n,
{
    if n == 0 || n > children.len() {
        0
    } else {
        action_nodes_first(children, (n - 1) as nat) + action_nodes(children[n - 1])
    }
}

/// Number of terminal nodes in a tree.
pub open spec fn terminal_nodes(tree: GameTree) -> nat
    decreases tree, 0nat,
{
    match tree {
        GameTree::Action { children, .. } => terminal_nodes_first(children, children.len()),
        GameTree::Chance { children, .. } => terminal_nodes_first(children, children.len()),
        GameTree::Terminal { .. } => 1,
    }
}

/// Number of terminal nodes in the first `n` of the given trees.
pub open spec fn terminal_nodes_first(children: Seq<GameTree>, n: nat) -> nat
    decreases children, n,
{
    if n == 0 || n > children.len() {
        0
    } else {
        terminal_nodes_first(children, (n - 1) as nat) + terminal_nodes(children[n - 1])
    }
}

/// The trees that a sequence of nodes stands for.
pub open spec fn views(nodes: Seq<TreeNode>) -> Seq<GameTree> {
    Seq::new(nodes.len(), |i: int| nodes[i]@)
}

impl View for TreeNode {
    type V = GameTree;

    open spec fn view(&self) -> GameTree {
        self.tree()
    }
}

impl TreeNode {
    /// The game tree that the node stands for.
    pub open spec fn tree(self) -> GameTree
        decreases self,
    {
        match self {
            TreeNode::Action { node_id, player, pot, stacks, actions, children } => GameTree::Action {
                player,
                pot: pot as int,
                stacks: both_of(stacks@),
                actions: actions@,
                children: Seq::new(
                    children@.len(),
                    |i: int|
                        if 0 <= i < children@.len() {
                            children@[i].tree()
                        } else {
                            arbitrary()
                        },
                ),
            },
            TreeNode::Terminal { terminal_type, pot, stacks, invested } => GameTree::Terminal {
                kind: terminal_type,
                pot: pot as int,
                stacks: both_of(stacks@),
                invested: both_of(invested@),
            },
            TreeNode::Chance { pot, stacks, invested, cards, children } => GameTree::Chance {
                pot: pot as int,
                stacks: both_of(stacks@),
                invested: both_of(invested@),
                cards: cards@,
                children: Seq::new(
                    children@.len(),
                    |i: int|
                        if 0 <= i < children@.len() {
                            children@[i].tree()
                        } else {
                            arbitrary()
                        },
                ),
            },
        }
    }

    /// The action nodes are numbered in pre-order from `first`: a node takes
    /// its id before its children, and the children follow from left to
    /// right. Chance and terminal nodes take no id.
    pub open spec fn numbered(self, first: int) -> bool
        decreases self, 0nat,
    {
        match self {
            TreeNode::Action { node_id, children, .. } => node_id == first && numbered_first(
                children@,
                first + 1,
                children@.len(),
            ),
            TreeNode::Chance { children, .. } => numbered_first(children@, first, children@.len()),
            TreeNode::Terminal { .. } => true,
        }
    }

    /// The ids of the action nodes that do not lie below a chance node,
    /// in pre-order.
    pub open spec fn street_ids(self) -> Seq<u16>
        decreases self, 0nat,
    {
        match self {
            TreeNode::Action { node_id, children, .. } => seq![node_id] + street_ids_first(
                children@,
                children@.len(),
            ),
            TreeNode::Chance { .. } => Seq::empty(),
            TreeNode::Terminal { .. } => Seq::empty(),
        }
    }

    /// The action nodes below chance nodes are numbered from `first`: the
    /// chance nodes in the order in which a walk from left to right meets
    /// them, the trees under one chance node one after another, and each
    /// of these trees in pre-order.
    pub open spec fn deeper_numbered(self, first: int) -> bool
        decreases self, 0nat,
    {
        match self {
            TreeNode::Action { children, .. } => deeper_numbered_first(
                children@,
                first,
                children@.len(),
            ),
            TreeNode::Chance { children, .. } => numbered_first(children@, first, children@.len()),
            TreeNode::Terminal { .. } => true,
        }
    }

    /// How many action nodes of the tree carry the id `id`.
    pub open spec fn occurrences(self, id: int) -> nat
        decreases self, 0nat,
    {
        match self {
            TreeNode::Action { node_id, children, .. } => (if node_id == id {
                1nat
            } else {
                0nat
            }) + occurrences_first(children@, id, children@.len()),
            TreeNode::Chance { children, .. } => occurrences_first(children@, id, children@.len()),
            TreeNode::Terminal { .. } => 0,
        }
    }
}

/// The first `n` of the nodes are numbered one after another from `first`.
pub open spec fn numbered_first(children: Seq<TreeNode>, first: int, n: nat) -> bool
    decreases children, n,
{
    if n == 0 || n > children.len() {
        true
    } else {
        &&& numbered_first(children, first, (n - 1) as nat)
        &&& children[n - 1].numbered(first + action_nodes_first(views(children), (n - 1) as nat))
    }
}

/// How many action nodes among the first `n` trees carry the id `id`.
pub open spec fn occurrences_first(children: Seq<TreeNode>, id: int, n: nat) -> nat
    decreases children, n,
{
    if n == 0 || n > children.len() {
        0
    } else {
        occurrences_first(children, id, (n - 1) as nat) + children[n - 1].occurrences(id)
    }
}

/// The ids of the action nodes of the first street among the first `n`
/// trees, in pre-order.
pub open spec fn street_ids_first(children: Seq<TreeNode>, n: nat) -> Seq<u16>
    decreases children, n,
{
    if n == 0 || n > children.len() {
        Seq::empty()
    } else {
        street_ids_first(children, (n - 1) as nat) + children[n - 1].street_ids()
    }
}

/// Below the chance nodes of the first `n` trees, the action nodes are
/// numbered one after another from `first`.
pub open spec fn deeper_numbered_first(children: Seq<TreeNode>, first: int, n: nat) -> bool
    decreases children, n,
{
    if n == 0 || n > children.len() {
        true
    } else {
        &&& deeper_numbered_first(children, first, (n - 1) as nat)
        &&& children[n - 1].deeper_numbered(
            first + deeper_nodes_first(views(children), (n - 1) as nat),
        )
    }
}

/// Configuration for building a postflop game tree.
pub struct TreeConfig {
    /// Bet sizes as fractions of the pot, in units of `1 / SCALE`
    /// (330 for a third of the pot, 1000 for the pot).
    pub bet_sizes: Vec<u64>,
    /// Raise sizes as fractions of the pot after calling, in the same units.
    pub raise_sizes: Vec<u64>,
    /// Maximum number of raises per street (typically 3).
    pub max_raises: usize,
    /// Starting pot size in chip units.
    pub starting_pot: u64,
    /// Effective stack remaining in chip units (beyond what is in the pot).
    pub effective_stack: u64,
    /// Whether to add all-in as an option when no size already covers it.
    pub add_allin: bool,
}

/// Configuration for a turn+river tree.
pub struct TurnTreeConfig {
    pub turn: TreeConfig,
    pub river_bet_sizes: Vec<u64>,
    pub river_raise_sizes: Vec<u64>,
    pub river_max_raises: usize,
    /// 4-card turn board as card indices (used to enumerate river cards).
    pub board: Vec<u8>,
}

/// The sizing rules of one street.
pub struct Rules {
    pub bet_sizes: Seq<u64>,
    pub raise_sizes: Seq<u64>,
    pub max_raises: int,
    pub add_allin: bool,
}

/// A decision point of one street: who acts, the chips, and what went
/// before on this street.
pub struct Spot {
    pub player: Player,
    pub pot: int,
    pub stacks: Both,
    /// What each player has put in beyond the starting pot.
    pub invested: Both,
    /// Raises made so far on this street.
    pub raises: int,
    pub facing_bet: bool,
    /// What the last bet or raise asks the player to add.
    pub to_call: int,
    /// The player out of position has checked.
    pub oop_checked: bool,
}

/// What follows an action: another decision, or the end of the hand.
pub enum Outcome {
    Next(Spot),
    End { kind: TerminalType, pot: int, stacks: Both, invested: Both },
}

impl TreeConfig {
    /// The sizing rules of the configuration.
    pub open spec fn rules(self) -> Rules {
        Rules {
            bet_sizes: self.bet_sizes@,
            raise_sizes: self.raise_sizes@,
            max_raises: self.max_raises as int,
            add_allin: self.add_allin,
        }
    }

    /// The first decision: out of position, nothing bet yet, both players
    /// with the effective stack.
    pub open spec fn root_spot(self) -> Spot {
        opening_spot(
            self.starting_pot as int,
            self.effective_stack as int,
            Both { oop: 0, ip: 0 },
        )
    }

    /// The pot and both stacks together fit the amount type.
    pub open spec fn fits(self) -> bool {
        self.starting_pot + 2 * self.effective_stack <= u64::MAX
    }
}

impl TurnTreeConfig {
    /// The sizing rules of the second street, which always offers all-in.
    pub open spec fn river_rules(self) -> Rules {
        Rules {
            bet_sizes: self.river_bet_sizes@,
            raise_sizes: self.river_raise_sizes@,
            max_raises: self.river_max_raises as int,
            add_allin: true,
        }
    }
}

/// The first decision of a street that starts with the given pot, the same
/// stack for both players and the given earlier investments.
pub open spec fn opening_spot(pot: int, stack: int, invested: Both) -> Spot {
    Spot {
        player: Player::OOP,
        pot,
        stacks: Both { oop: stack, ip: stack },
        invested,
        raises: 0,
        facing_bet: false,
        to_call: 0,
        oop_checked: false,
    }
}

/// The lesser of two amounts.
pub open spec fn least(a: int, b: int) -> int {
    if a <= b {
        a
    } else {
        b
    }
}

/// Two amounts differ by less than the tolerance.
pub open spec fn near(a: int, b: int) -> bool {
    a - b < TOLERANCE && b - a < TOLERANCE
}

/// The amount that a size asks for, as a fraction of the pot and capped by
/// what the player has left.
pub open spec fn sized_amount(pot: int, left: int, size: u64) -> int {
    least(pot * size / (SCALE as int), left)
}

/// One of the first `n` sizes gives an amount that counts and is all-in
/// within the tolerance.
pub open spec fn allin_among(pot: int, left: int, sizes: Seq<u64>, n: int) -> bool
    decreases n,
{
    if n <= 0 {
        false
    } else {
        allin_among(pot, left, sizes, n - 1) || (sized_amount(pot, left, sizes[n - 1]) >= TOLERANCE
            && near(sized_amount(pot, left, sizes[n - 1]), left))
    }
}

/// The amounts offered for the first `n` sizes, in order: each size's
/// amount, leaving out those below the tolerance and every all-in amount
/// after the first.
pub open spec fn sized_amounts(pot: int, left: int, sizes: Seq<u64>, n: int) -> Seq<int>
    decreases n,
{
    if n <= 0 {
        Seq::empty()
    } else {
        let before = sized_amounts(pot, left, sizes, n - 1);
        let amount = sized_amount(pot, left, sizes[n - 1]);
        if amount < TOLERANCE {
            before
        } else if near(amount, left) && allin_among(pot, left, sizes, n - 1) {
            before
        } else {
            before.push(amount)
        }
    }
}

/// The bets open to a player with `left` behind: one per size, and all-in
/// where it is asked for, no size gave it, sizes are configured at all, and
/// the stack is more than the tolerance and more than a fifth of the pot.
pub open spec fn bet_amounts(rules: Rules, pot: int, left: int) -> Seq<int> {
    let sizes = rules.bet_sizes;
    let sized = sized_amounts(pot, left, sizes, sizes.len() as int);
    if rules.add_allin && !allin_among(pot, left, sizes, sizes.len() as int) && left > TOLERANCE
        && sizes.len() > 0 && 5 * left > pot {
        sized.push(left)
    } else {
        sized
    }
}

/// What a player facing a bet puts in to call: the bet, or all that is left.
pub open spec fn call_amount(spot: Spot) -> int {
    least(spot.to_call, spot.stacks.of(spot.player))
}

/// The amounts by which a player facing a bet may raise beyond the call:
/// none once the raise cap is reached or the call leaves no more than the
/// tolerance behind; else one per size of the pot after calling, and all-in
/// where it is asked for and no size gave it.
pub open spec fn raise_amounts(rules: Rules, spot: Spot) -> Seq<int> {
    let call = call_amount(spot);
    let left = spot.stacks.of(spot.player) - call;
    let pot = spot.pot + call;
    let sizes = rules.raise_sizes;
    if spot.raises < rules.max_raises && left > TOLERANCE {
        let sized = sized_amounts(pot, left, sizes, sizes.len() as int);
        if rules.add_allin && !allin_among(pot, left, sizes, sizes.len() as int) {
            sized.push(left)
        } else {
            sized
        }
    } else {
        Seq::empty()
    }
}

/// Whether the hand is over at the spot without a decision: the player to
/// act has less than the tolerance left, or the player in position is asked
/// to open the betting.
pub open spec fn is_settled(spot: Spot) -> bool {
    spot.stacks.of(spot.player) < TOLERANCE || (!spot.facing_bet && spot.player == Player::IP
        && !spot.oop_checked)
}

/// The actions at a spot where a decision is made, in order: facing a bet,
/// fold, call and the raises; else check and the bets.
pub open spec fn actions_at(rules: Rules, spot: Spot) -> Seq<Action> {
    if spot.facing_bet {
        let call = call_amount(spot);
        let raises = raise_amounts(rules, spot);
        seq![Action::Fold, Action::Call(call as u64)] + Seq::new(
            raises.len(),
            |i: int| Action::Raise((call + raises[i]) as u64),
        )
    } else {
        let bets = bet_amounts(rules, spot.pot, spot.stacks.of(spot.player));
        seq![Action::Check] + Seq::new(bets.len(), |i: int| Action::Bet(bets[i] as u64))
    }
}

/// The spot after the player puts `amount` in and the opponent must answer.
pub open spec fn bet_into(spot: Spot, amount: int, to_call: int, raises: int) -> Spot {
    Spot {
        player: opponent_of(spot.player),
        pot: spot.pot + amount,
        stacks: spot.stacks.plus(spot.player, -amount),
        invested: spot.invested.plus(spot.player, amount),
        raises,
        facing_bet: true,
        to_call,
        oop_checked: false,
    }
}

/// What follows an action at a spot.
///
/// A fold ends the hand for the folder; a call ends it in a showdown with
/// the call added to the pot; a check ends it in a showdown when it answers
/// a check, and otherwise hands the decision to the player in position. A
/// bet or raise takes the amount from the actor's stack into the pot and
/// the actor's investment, and the opponent faces what was added beyond the
/// call. An action that the spot does not allow ends the hand as it stands.
pub open spec fn after(rules: Rules, spot: Spot, action: Action) -> Outcome {
    let as_it_stands = Outcome::End {
        kind: TerminalType::Showdown,
        pot: spot.pot,
        stacks: spot.stacks,
        invested: spot.invested,
    };
    match action {
        Action::Fold => Outcome::End {
            kind: TerminalType::Fold { folder: spot.player },
            pot: spot.pot,
            stacks: spot.stacks,
            invested: spot.invested,
        },
        Action::Call(c) => Outcome::End {
            kind: TerminalType::Showdown,
            pot: spot.pot + c,
            stacks: spot.stacks.plus(spot.player, -(c as int)),
            invested: spot.invested.plus(spot.player, c as int),
        },
        Action::Check => if !spot.facing_bet && spot.player == Player::OOP {
            Outcome::Next(
                Spot {
                    player: Player::IP,
                    pot: spot.pot,
                    stacks: spot.stacks,
                    invested: spot.invested,
                    raises: spot.raises,
                    facing_bet: false,
                    to_call: 0,
                    oop_checked: true,
                },
            )
        } else {
            as_it_stands
        },
        Action::Bet(b) => if !spot.facing_bet {
            Outcome::Next(bet_into(spot, b as int, b as int, spot.raises))
        } else {
            as_it_stands
        },
        Action::Raise(t) => if spot.facing_bet && spot.raises < rules.max_raises {
            Outcome::Next(bet_into(spot, t as int, t - call_amount(spot), spot.raises + 1))
        } else {
            as_it_stands
        },
    }
}

/// How far a spot is from the end of the street's betting.
pub open spec fn stage(spot: Spot) -> nat {
    if spot.facing_bet {
        0
    } else if spot.player == Player::IP {
        1
    } else {
        2
    }
}

/// The tree of one street from a spot on: a showdown where the hand is
/// settled, else an action node with the actions of the spot and, under
/// each, what follows it.
pub open spec fn subtree(rules: Rules, spot: Spot) -> GameTree
    decreases rules.max_raises - spot.raises, stage(spot), 1nat,
{
    if is_settled(spot) {
        GameTree::Terminal {
            kind: TerminalType::Showdown,
            pot: spot.pot,
            stacks: spot.stacks,
            invested: spot.invested,
        }
    } else {
        let actions = actions_at(rules, spot);
        GameTree::Action {
            player: spot.player,
            pot: spot.pot,
            stacks: spot.stacks,
            actions,
            children: Seq::new(actions.len(), |i: int| child_tree(rules, spot, actions[i])),
        }
    }
}

/// The tree under an action taken at a spot.
pub open spec fn child_tree(rules: Rules, spot: Spot, action: Action) -> GameTree
    decreases rules.max_raises - spot.raises, stage(spot), 0nat,
{
    match after(rules, spot, action) {
        Outcome::Next(next) => subtree(rules, next),
        Outcome::End { kind, pot, stacks, invested } => GameTree::Terminal {
            kind,
            pot,
            stacks,
            invested,
        },
    }
}

/// The single-street tree of a configuration.
pub open spec fn street_tree(config: TreeConfig) -> GameTree {
    subtree(config.rules(), config.root_spot())
}

/// The spot that the arguments of a builder describe.
pub open spec fn spot_at(
    player: Player,
    pot: u64,
    stacks: [u64; 2],
    invested: [u64; 2],
    raises: usize,
    facing_bet: bool,
    to_call: u64,
    oop_checked: bool,
) -> Spot {
    Spot {
        player,
        pot: pot as int,
        stacks: both_of(stacks@),
        invested: both_of(invested@),
        raises: raises as int,
        facing_bet,
        to_call: to_call as int,
        oop_checked,
    }
}

/// The chips of a spot are not negative and fit the amount type, also once
/// both stacks are in the pot.
pub open spec fn spot_fits(spot: Spot) -> bool {
    &&& 0 <= spot.pot
    &&& 0 <= spot.stacks.oop
    &&& 0 <= spot.stacks.ip
    &&& 0 <= spot.invested.oop
    &&& 0 <= spot.invested.ip
    &&& 0 <= spot.to_call <= u64::MAX
    &&& 0 <= spot.raises
    &&& spot.pot + spot.stacks.oop + spot.stacks.ip <= u64::MAX
    &&& spot.invested.oop + spot.stacks.oop <= u64::MAX
    &&& spot.invested.ip + spot.stacks.ip <= u64::MAX
}

/// The amounts offered for sizes lie between the tolerance and what is
/// left, and the list for fewer sizes is a prefix of the list for more.
pub proof fn lemma_sized_amounts(pot: int, left: int, sizes: Seq<u64>, k: int, n: int)
    requires
        0 <= k <= n,
    ensures
        sized_amounts(pot, left, sizes, k).len() <= sized_amounts(pot, left, sizes, n).len() <= n,
        forall|i: int|
            0 <= i < sized_amounts(pot, left, sizes, k).len() ==> sized_amounts(
                pot,
                left,
                sizes,
                n,
            )[i] == sized_amounts(pot, left, sizes, k)[i],
        forall|i: int|
            0 <= i < sized_amounts(pot, left, sizes, n).len() ==> TOLERANCE <= (
            #[trigger] sized_amounts(pot, left, sizes, n)[i]) <= left,
    decreases n,
{
    if n > 0 {
        if k < n {
            lemma_sized_amounts(pot, left, sizes, k, n - 1);
        } else {
            lemma_sized_amounts(pot, left, sizes, n - 1, n - 1);
        }
    }
}

/// What the actions at a spot can be: without a bet to face, a check or a
/// bet of at least the tolerance and at most the stack; facing a bet, a
/// fold, the call, or a raise to more than the call and at most the stack,
/// which occurs only below the raise cap.
pub open spec fn legal_at(rules: Rules, spot: Spot, action: Action) -> bool {
    let left = spot.stacks.of(spot.player);
    match action {
        Action::Check => !spot.facing_bet,
        Action::Bet(b) => !spot.facing_bet && TOLERANCE <= b <= left,
        Action::Fold => spot.facing_bet,
        Action::Call(c) => spot.facing_bet && c == call_amount(spot),
        Action::Raise(t) => spot.facing_bet && spot.raises < rules.max_raises && call_amount(spot)
            + TOLERANCE <= t <= left,
    }
}

/// Every action at a spot is legal there, and there is at least one.
pub proof fn lemma_actions_legal(rules: Rules, spot: Spot)
    requires
        spot_fits(spot),
    ensures
        actions_at(rules, spot).len() >= 1,
        forall|j: int|
            0 <= j < actions_at(rules, spot).len() ==> legal_at(
                rules,
                spot,
                #[trigger] actions_at(rules, spot)[j],
            ),
{
    let left = spot.stacks.of(spot.player);
    if spot.facing_bet {
        let call = call_amount(spot);
        let sizes = rules.raise_sizes;
        lemma_sized_amounts(spot.pot + call, left - call, sizes, 0, sizes.len() as int);
    } else {
        let sizes = rules.bet_sizes;
        lemma_sized_amounts(spot.pot, left, sizes, 0, sizes.len() as int);
    }
}

/// The sizing rules of a street as the builders take them.
pub struct StreetRules<'a> {
    pub bet_sizes: &'a Vec<u64>,
    pub raise_sizes: &'a Vec<u64>,
    pub max_raises: usize,
    pub add_allin: bool,
}

impl<'a> StreetRules<'a> {
    pub open spec fn rules(self) -> Rules {
        Rules {
            bet_sizes: self.bet_sizes@,
            raise_sizes: self.raise_sizes@,
            max_raises: self.max_raises as int,
            add_allin: self.add_allin,
        }
    }
}

/// Amounts as integers.
pub open spec fn amounts_of(v: Seq<u64>) -> Seq<int> {
    Seq::new(v.len(), |i: int| v[i] as int)
}

/// The amount that a size asks for.
fn sized(pot: u64, left: u64, size: u64) -> (amount: u64)
    ensures
        amount == sized_amount(pot as int, left as int, size),
        amount <= left,
{
    assert(pot * size <= u128::MAX) by (nonlinear_arith)
        requires
            pot <= u64::MAX,
            size <= u64::MAX,
    ;
    let raw: u128 = (pot as u128) * (size as u128) / (SCALE as u128);
    if raw < left as u128 {
        raw as u64
    } else {
        left
    }
}

/// The amounts offered for the given sizes, and whether one of them is
/// all-in.
fn sized_list(pot: u64, left: u64, sizes: &Vec<u64>) -> (res: (Vec<u64>, bool))
    ensures
        amounts_of(res.0@) == sized_amounts(pot as int, left as int, sizes@, sizes@.len() as int),
        res.1 == allin_among(pot as int, left as int, sizes@, sizes@.len() as int),
{
    let mut amounts: Vec<u64> = Vec::new();
    let mut added_allin: bool = false;
    let mut k: usize = 0;
    assert(amounts_of(amounts@) =~= sized_amounts(pot as int, left as int, sizes@, 0));
    while k < sizes.len()
        invariant
            k <= sizes@.len(),
            amounts_of(amounts@) == sized_amounts(pot as int, left as int, sizes@, k as int),
            added_allin == allin_among(pot as int, left as int, sizes@, k as int),
        decreases sizes@.len() - k,
    {
        let amount: u64 = sized(pot, left, sizes[k]);
        let ghost before = amounts@;
        if amount >= TOLERANCE {
            if left - amount < TOLERANCE {
                if !added_allin {
                    added_allin = true;
                    amounts.push(amount);
                }
            } else {
                amounts.push(amount);
            }
        }
        assert(amounts@ == before || amounts_of(amounts@) =~= amounts_of(before).push(
            amount as int,
        ));
        k += 1;
    }
    (amounts, added_allin)
}

/// The actions of a player who faces no bet.
fn open_actions(rules: &StreetRules, pot: u64, left: u64) -> (actions: Vec<Action>)
    ensures
        actions@ == seq![Action::Check] + Seq::new(
            bet_amounts(rules.rules(), pot as int, left as int).len(),
            |i: int| Action::Bet(bet_amounts(rules.rules(), pot as int, left as int)[i] as u64),
        ),
{
    let (amounts, added_allin) = sized_list(pot, left, rules.bet_sizes);
    let mut actions: Vec<Action> = Vec::new();
    actions.push(Action::Check);
    let ghost sizes = rules.bet_sizes@;
    let ghost sized_spec = sized_amounts(pot as int, left as int, sizes, sizes.len() as int);
    let mut i: usize = 0;
    while i < amounts.len()
        invariant
            i <= amounts@.len(),
            amounts_of(amounts@) == sized_spec,
            actions@ == seq![Action::Check] + Seq::new(
                i as nat,
                |j: int| Action::Bet(sized_spec[j] as u64),
            ),
        decreases amounts@.len() - i,
    {
        let ghost before = actions@;
        assert(amounts_of(amounts@)[i as int] == amounts@[i as int]);
        actions.push(Action::Bet(amounts[i]));
        assert(actions@ =~= seq![Action::Check] + Seq::new(
            (i + 1) as nat,
            |j: int| Action::Bet(sized_spec[j] as u64),
        ));
        i += 1;
    }
    let ghost bets = bet_amounts(rules.rules(), pot as int, left as int);
    if rules.add_allin && !added_allin && left > TOLERANCE && rules.bet_sizes.len() > 0 && 5
        * (left as u128) > pot as u128 {
        actions.push(Action::Bet(left));
        assert(bets == sized_spec.push(left as int));
    }
    assert(actions@ =~= seq![Action::Check] + Seq::new(
        bets.len(),
        |i: int| Action::Bet(bets[i] as u64),
    ));
    actions
}

/// The actions of a player who faces a bet of `to_call`.
fn facing_actions(rules: &StreetRules, pot: u64, left: u64, raises: usize, to_call: u64) -> (actions:
    Vec<Action>)
    requires
        pot + left <= u64::MAX,
    ensures
        forall|spot: Spot|
            spot.facing_bet && spot.pot == pot && spot.stacks.of(spot.player) == left
                && spot.raises == raises && spot.to_call == to_call ==> actions@ == #[trigger] actions_at(
                rules.rules(),
                spot,
            ),
{
    let call: u64 = if to_call <= left {
        to_call
    } else {
        left
    };
    let mut actions: Vec<Action> = Vec::new();
    actions.push(Action::Fold);
    actions.push(Action::Call(call));
    let ghost sizes = rules.raise_sizes@;
    let ghost after_pot = pot + call;
    let ghost after_left = left - call;
    let ghost sized_spec = sized_amounts(after_pot, after_left, sizes, sizes.len() as int);
    let ghost raise_spec: Seq<int> = if raises < rules.max_raises && after_left > TOLERANCE {
        if rules.add_allin && !allin_among(after_pot, after_left, sizes, sizes.len() as int) {
            sized_spec.push(after_left)
        } else {
            sized_spec
        }
    } else {
        Seq::empty()
    };
    if raises < rules.max_raises {
        let remaining_after_call: u64 = left - call;
        if remaining_after_call > TOLERANCE {
            let pot_after_call: u64 = pot + call;
            let (amounts, added_allin) = sized_list(
                pot_after_call,
                remaining_after_call,
                rules.raise_sizes,
            );
            proof {
                lemma_sized_amounts(after_pot, after_left, sizes, 0, sizes.len() as int);
            }
            let mut i: usize = 0;
            while i < amounts.len()
                invariant
                    i <= amounts@.len(),
                    amounts_of(amounts@) == sized_spec,
                    call <= left,
                    forall|j: int|
                        0 <= j < sized_spec.len() ==> TOLERANCE <= (#[trigger] sized_spec[j])
                            <= left - call,
                    actions@ == seq![Action::Fold, Action::Call(call)] + Seq::new(
                        i as nat,
                        |j: int| Action::Raise((call + sized_spec[j]) as u64),
                    ),
                decreases amounts@.len() - i,
            {
                assert(amounts_of(amounts@)[i as int] == amounts@[i as int]);
                actions.push(Action::Raise(call + amounts[i]));
                assert(actions@ =~= seq![Action::Fold, Action::Call(call)] + Seq::new(
                    (i + 1) as nat,
                    |j: int| Action::Raise((call + sized_spec[j]) as u64),
                ));
                i += 1;
            }
            if rules.add_allin && !added_allin {
                actions.push(Action::Raise(left));
            }
        }
    }
    assert(actions@ =~= seq![Action::Fold, Action::Call(call)] + Seq::new(
        raise_spec.len(),
        |i: int| Action::Raise((call + raise_spec[i]) as u64),
    ));
    assert forall|spot: Spot|
        spot.facing_bet && spot.pot == pot && spot.stacks.of(spot.player) == left && spot.raises
            == raises && spot.to_call == to_call implies actions@ == #[trigger] actions_at(
        rules.rules(),
        spot,
    ) by {
        assert(call_amount(spot) == call);
        assert(raise_amounts(rules.rules(), spot) == raise_spec);
    }
    actions
}

/// Counts over the first `n` trees depend on those trees alone, and do
/// not shrink as `n` grows.
pub proof fn lemma_nodes_first(a: Seq<GameTree>, b: Seq<GameTree>, k: nat, n: nat)
    requires
        k <= n <= a.len(),
        k <= b.len(),
        forall|i: int| 0 <= i < k ==> a[i] == b[i],
    ensures
        action_nodes_first(a, k) == action_nodes_first(b, k),
        terminal_nodes_first(a, k) == terminal_nodes_first(b, k),
        action_nodes_first(a, k) <= action_nodes_first(a, n),
        terminal_nodes_first(a, k) <= terminal_nodes_first(a, n),
    decreases n,
{
    if k < n {
        lemma_nodes_first(a, b, k, (n - 1) as nat);
    } else if k > 0 {
        lemma_nodes_first(a, b, (k - 1) as nat, (k - 1) as nat);
    }
}

/// Numbering and id counts over the first `n` nodes depend on those nodes
/// alone.
pub proof fn lemma_ids_first(a: Seq<TreeNode>, b: Seq<TreeNode>, first: int, id: int, n: nat)
    requires
        n <= a.len(),
        n <= b.len(),
        forall|i: int| 0 <= i < n ==> a[i] == b[i],
    ensures
        numbered_first(a, first, n) == numbered_first(b, first, n),
        occurrences_first(a, id, n) == occurrences_first(b, id, n),
        action_nodes_first(views(a), n) == action_nodes_first(views(b), n),
        street_ids_first(a, n) == street_ids_first(b, n),
        deeper_numbered_first(a, first, n) == deeper_numbered_first(b, first, n),
        deeper_nodes_first(views(a), n) == deeper_nodes_first(views(b), n),
    decreases n,
{
    if n > 0 {
        lemma_ids_first(a, b, first, id, (n - 1) as nat);
    }
    lemma_nodes_first(views(a), views(b), n, n);
    lemma_deeper_first(views(a), views(b), n, n);
}

/// Builds the node for a spot: a showdown where the hand is settled, else
/// the decision of the player to act. `None` when the ids run out.
fn build_node(
    rules: &StreetRules,
    player: Player,
    pot: u64,
    stacks: [u64; 2],
    invested: [u64; 2],
    raises: usize,
    facing_bet: bool,
    amount_to_call: u64,
    oop_checked: bool,
    next_id: &mut u16,
) -> (result: Option<TreeNode>)
    requires
        spot_fits(
            spot_at(player, pot, stacks, invested, raises, facing_bet, amount_to_call, oop_checked),
        ),
    ensures
        built_as(
            rules.rules(),
            spot_at(player, pot, stacks, invested, raises, facing_bet, amount_to_call, oop_checked),
            result,
            *old(next_id),
            *final(next_id),
        ),
    decreases
            rules.max_raises - raises,
            stage(
                spot_at(
                    player,
                    pot,
                    stacks,
                    invested,
                    raises,
                    facing_bet,
                    amount_to_call,
                    oop_checked,
                ),
            ),
            3nat,
{
    let pi: usize = player.index();
    let remaining: u64 = stacks[pi];

    // A player without chips cannot act.
    if remaining < TOLERANCE {
        return Some(
            TreeNode::Terminal { terminal_type: TerminalType::Showdown, pot, stacks, invested },
        );
    }
    if facing_bet {
        // Facing a bet or raise: fold, call, raise.
        build_facing_bet(
            rules,
            player,
            pot,
            stacks,
            invested,
            raises,
            amount_to_call,
            oop_checked,
            next_id,
        )
    } else if player == Player::IP && oop_checked {
        // In position after a check: check back, or bet.
        build_open_action(
            rules,
            player,
            pot,
            stacks,
            invested,
            raises,
            amount_to_call,
            oop_checked,
            next_id,
        )
    } else if player == Player::OOP {
        // Out of position opens the action: check, or bet.
        build_open_action(
            rules,
            player,
            pot,
            stacks,
            invested,
            raises,
            amount_to_call,
            oop_checked,
            next_id,
        )
    } else {
        Some(TreeNode::Terminal { terminal_type: TerminalType::Showdown, pot, stacks, invested })
    }
}

/// What a builder hands back for a spot: the spot's tree with its action
/// nodes numbered in pre-order from the next free id, which then stands
/// behind the last one used; or nothing, when the tree holds more action
/// nodes than there are ids left.
pub open spec fn built_as(
    rules: Rules,
    spot: Spot,
    result: Option<TreeNode>,
    next_before: u16,
    next_after: u16,
) -> bool {
    match result {
        Some(node) => {
            &&& node@ == subtree(rules, spot)
            &&& node.numbered(next_before as int)
            &&& next_after == next_before + action_nodes(node@)
        },
        None => next_before + action_nodes(subtree(rules, spot)) > u16::MAX,
    }
}

/// Builds the action node of a player who faces no bet: check, then the
/// bets.
fn build_open_action(
    rules: &StreetRules,
    player: Player,
    pot: u64,
    stacks: [u64; 2],
    invested: [u64; 2],
    raises: usize,
    amount_to_call: u64,
    oop_checked: bool,
    next_id: &mut u16,
) -> (result: Option<TreeNode>)
    requires
        spot_fits(spot_at(player, pot, stacks, invested, raises, false, amount_to_call, oop_checked)),
        !is_settled(spot_at(player, pot, stacks, invested, raises, false, amount_to_call, oop_checked)),
    ensures
        built_as(
            rules.rules(),
            spot_at(player, pot, stacks, invested, raises, false, amount_to_call, oop_checked),
            result,
            *old(next_id),
            *final(next_id),
        ),
    decreases
            rules.max_raises - raises,
            stage(spot_at(player, pot, stacks, invested, raises, false, amount_to_call, oop_checked)),
            2nat,
{
    let ghost spot = spot_at(player, pot, stacks, invested, raises, false, amount_to_call, oop_checked);
    let pi: usize = player.index();
    let remaining: u64 = stacks[pi];
    proof {
        lemma_subtree_unfold(rules.rules(), spot);
    }
    if *next_id == u16::MAX {
        return None;
    }
    let node_id: u16 = *next_id;
    *next_id += 1;
    let actions: Vec<Action> = open_actions(rules, pot, remaining);
    assert(actions@ == actions_at(rules.rules(), spot));
    match build_children(
        rules,
        player,
        pot,
        stacks,
        invested,
        raises,
        false,
        amount_to_call,
        oop_checked,
        &actions,
        next_id,
    ) {
        None => None,
        Some(children) => {
            let node = TreeNode::Action { node_id, player, pot, stacks, actions, children };
            proof {
                lemma_node_of_children(rules.rules(), spot, node);
            }
            Some(node)
        },
    }
}

/// Builds the action node of a player who faces a bet of `amount_to_call`:
/// fold, call, then the raises.
fn build_facing_bet(
    rules: &StreetRules,
    player: Player,
    pot: u64,
    stacks: [u64; 2],
    invested: [u64; 2],
    raises: usize,
    amount_to_call: u64,
    oop_checked: bool,
    next_id: &mut u16,
) -> (result: Option<TreeNode>)
    requires
        spot_fits(spot_at(player, pot, stacks, invested, raises, true, amount_to_call, oop_checked)),
        !is_settled(spot_at(player, pot, stacks, invested, raises, true, amount_to_call, oop_checked)),
    ensures
        built_as(
            rules.rules(),
            spot_at(player, pot, stacks, invested, raises, true, amount_to_call, oop_checked),
            result,
            *old(next_id),
            *final(next_id),
        ),
    decreases
            rules.max_raises - raises,
            stage(spot_at(player, pot, stacks, invested, raises, true, amount_to_call, oop_checked)),
            2nat,
{
    let ghost spot = spot_at(player, pot, stacks, invested, raises, true, amount_to_call, oop_checked);
    let pi: usize = player.index();
    let remaining: u64 = stacks[pi];
    proof {
        lemma_subtree_unfold(rules.rules(), spot);
    }
    if *next_id == u16::MAX {
        return None;
    }
    let node_id: u16 = *next_id;
    *next_id += 1;
    let actions: Vec<Action> = facing_actions(rules, pot, remaining, raises, amount_to_call);
    assert(actions@ == actions_at(rules.rules(), spot));
    match build_children(
        rules,
        player,
        pot,
        stacks,
        invested,
        raises,
        true,
        amount_to_call,
        oop_checked,
        &actions,
        next_id,
    ) {
        None => None,
        Some(children) => {
            let node = TreeNode::Action { node_id, player, pot, stacks, actions, children };
            proof {
                lemma_node_of_children(rules.rules(), spot, node);
            }
            Some(node)
        },
    }
}

/// The trees under the actions of a spot.
pub open spec fn children_at(rules: Rules, spot: Spot) -> Seq<GameTree> {
    Seq::new(
        actions_at(rules, spot).len(),
        |i: int| child_tree(rules, spot, actions_at(rules, spot)[i]),
    )
}

/// The tree of an action node holds the trees of the node's children.
pub proof fn lemma_view_children(node: TreeNode)
    ensures
        node is Action ==> node@ is Action && node@->Action_children == views(
            node->Action_children@,
        ),
        node is Chance ==> node@ is Chance && node@->Chance_children == views(
            node->Chance_children@,
        ),
        node is Terminal ==> node@ is Terminal,
{
    match node {
        TreeNode::Action { node_id, player, pot, stacks, actions, children } => {
            assert(node@ is Action);
            assert(node@->Action_children.len() == children@.len());
            assert forall|i: int| 0 <= i < children@.len() implies node@->Action_children[i] == views(children@)[i] by {
                assert(views(children@)[i] == children@[i]@);
            }
            assert(node@->Action_children =~= views(children@));
        },
        TreeNode::Chance { pot, stacks, invested, cards, children } => {
            assert(node@->Chance_children =~= views(children@));
        },
        TreeNode::Terminal { .. } => {},
    }
}

/// Where a decision is made, the tree of the spot is an action node over
/// the trees under its actions.
pub proof fn lemma_subtree_unfold(rules: Rules, spot: Spot)
    requires
        !is_settled(spot),
    ensures
        subtree(rules, spot) is Action,
        subtree(rules, spot)->Action_children == children_at(rules, spot),
        action_nodes(subtree(rules, spot)) == 1 + action_nodes_first(
            children_at(rules, spot),
            children_at(rules, spot).len(),
        ),
{
    assert(subtree(rules, spot)->Action_children =~= children_at(rules, spot));
}

/// An action node that holds the actions of a spot and the right tree
/// under each is the tree of that spot.
proof fn lemma_node_of_children(rules: Rules, spot: Spot, node: TreeNode)
    requires
        !is_settled(spot),
        node is Action,
        node->Action_player == spot.player,
        node->Action_pot == spot.pot,
        both_of(node->Action_stacks@) == spot.stacks,
        node->Action_actions@ == actions_at(rules, spot),
        views(node->Action_children@) == children_at(rules, spot),
    ensures
        node@ == subtree(rules, spot),
        action_nodes(node@) == 1 + action_nodes_first(
            views(node->Action_children@),
            node->Action_children@.len(),
        ),
{
    lemma_view_children(node);
    assert(subtree(rules, spot)->Action_children =~= children_at(rules, spot));
}

/// Builds the node under one action of a spot.
fn build_child(
    rules: &StreetRules,
    player: Player,
    pot: u64,
    stacks: [u64; 2],
    invested: [u64; 2],
    raises: usize,
    facing_bet: bool,
    amount_to_call: u64,
    oop_checked: bool,
    action: Action,
    next_id: &mut u16,
) -> (result: Option<TreeNode>)
    requires
        spot_fits(
            spot_at(player, pot, stacks, invested, raises, facing_bet, amount_to_call, oop_checked),
        ),
        legal_at(
            rules.rules(),
            spot_at(player, pot, stacks, invested, raises, facing_bet, amount_to_call, oop_checked),
            action,
        ),
    ensures
        ({
            let spot = spot_at(
                player,
                pot,
                stacks,
                invested,
                raises,
                facing_bet,
                amount_to_call,
                oop_checked,
            );
            let wanted = child_tree(rules.rules(), spot, action);
            match result {
                Some(node) => {
                    &&& node@ == wanted
                    &&& node.numbered(*old(next_id) as int)
                    &&& *final(next_id) == *old(next_id) + action_nodes(wanted)
                },
                None => *old(next_id) + action_nodes(wanted) > u16::MAX,
            }
        }),
    decreases
            rules.max_raises - raises,
            stage(
                spot_at(
                    player,
                    pot,
                    stacks,
                    invested,
                    raises,
                    facing_bet,
                    amount_to_call,
                    oop_checked,
                ),
            ),
            0nat,
{
    let pi: usize = player.index();
    let remaining: u64 = stacks[pi];
    match action {
        Action::Fold => Some(
            TreeNode::Terminal {
                terminal_type: TerminalType::Fold { folder: player },
                pot,
                stacks,
                invested,
            },
        ),
        Action::Call(call_amount) => {
            let mut new_stacks: [u64; 2] = stacks;
            new_stacks[pi] = new_stacks[pi] - call_amount;
            let new_pot: u64 = pot + call_amount;
            let mut new_invested: [u64; 2] = invested;
            new_invested[pi] = new_invested[pi] + call_amount;
            // A call closes the action.
            Some(
                TreeNode::Terminal {
                    terminal_type: TerminalType::Showdown,
                    pot: new_pot,
                    stacks: new_stacks,
                    invested: new_invested,
                },
            )
        },
        Action::Check => {
            if !facing_bet && player == Player::OOP {
                // Out of position checks: in position acts.
                build_node(rules, Player::IP, pot, stacks, invested, raises, false, 0, true, next_id)
            } else {
                // In position checks back: showdown.
                Some(
                    TreeNode::Terminal {
                        terminal_type: TerminalType::Showdown,
                        pot,
                        stacks,
                        invested,
                    },
                )
            }
        },
        Action::Bet(bet) => {
            let mut new_stacks: [u64; 2] = stacks;
            new_stacks[pi] = new_stacks[pi] - bet;
            let new_pot: u64 = pot + bet;
            let mut new_invested: [u64; 2] = invested;
            new_invested[pi] = new_invested[pi] + bet;
            // The opponent faces this bet.
            build_node(
                rules,
                player.opponent(),
                new_pot,
                new_stacks,
                new_invested,
                raises,
                true,
                bet,
                false,
                next_id,
            )
        },
        Action::Raise(total_put_in) => {
            let call: u64 = if amount_to_call <= remaining {
                amount_to_call
            } else {
                remaining
            };
            let mut new_stacks: [u64; 2] = stacks;
            new_stacks[pi] = new_stacks[pi] - total_put_in;
            let new_pot: u64 = pot + total_put_in;
            let mut new_invested: [u64; 2] = invested;
            new_invested[pi] = new_invested[pi] + total_put_in;
            // The opponent faces this raise.
            build_node(
                rules,
                player.opponent(),
                new_pot,
                new_stacks,
                new_invested,
                raises + 1,
                true,
                total_put_in - call,
                false,
                next_id,
            )
        },
    }
}

/// Builds the node under each action of a spot, from left to right.
fn build_children(
    rules: &StreetRules,
    player: Player,
    pot: u64,
    stacks: [u64; 2],
    invested: [u64; 2],
    raises: usize,
    facing_bet: bool,
    amount_to_call: u64,
    oop_checked: bool,
    actions: &Vec<Action>,
    next_id: &mut u16,
) -> (result: Option<Vec<TreeNode>>)
    requires
        spot_fits(
            spot_at(player, pot, stacks, invested, raises, facing_bet, amount_to_call, oop_checked),
        ),
        actions@ == actions_at(
            rules.rules(),
            spot_at(player, pot, stacks, invested, raises, facing_bet, amount_to_call, oop_checked),
        ),
    ensures
        ({
            let spot = spot_at(
                player,
                pot,
                stacks,
                invested,
                raises,
                facing_bet,
                amount_to_call,
                oop_checked,
            );
            let wanted = children_at(rules.rules(), spot);
            match result {
                Some(children) => {
                    &&& views(children@) == wanted
                    &&& numbered_first(children@, *old(next_id) as int, children@.len())
                    &&& *final(next_id) == *old(next_id) + action_nodes_first(wanted, wanted.len())
                },
                None => *old(next_id) + action_nodes_first(wanted, wanted.len()) > u16::MAX,
            }
        }),
    decreases
            rules.max_raises - raises,
            stage(
                spot_at(
                    player,
                    pot,
                    stacks,
                    invested,
                    raises,
                    facing_bet,
                    amount_to_call,
                    oop_checked,
                ),
            ),
            1nat,
{
    let ghost spot = spot_at(
        player,
        pot,
        stacks,
        invested,
        raises,
        facing_bet,
        amount_to_call,
        oop_checked,
    );
    let ghost wanted = children_at(rules.rules(), spot);
    let ghost first = *next_id as int;
    proof {
        lemma_actions_legal(rules.rules(), spot);
    }
    let mut children: Vec<TreeNode> = Vec::new();
    let mut j: usize = 0;
    while j < actions.len()
        invariant
            j <= actions@.len(),
            children@.len() == j,
            spot == spot_at(
                player,
                pot,
                stacks,
                invested,
                raises,
                facing_bet,
                amount_to_call,
                oop_checked,
            ),
            spot_fits(spot),
            actions@ == actions_at(rules.rules(), spot),
            wanted == children_at(rules.rules(), spot),
            forall|i: int|
                0 <= i < actions@.len() ==> legal_at(rules.rules(), spot, #[trigger] actions@[i]),
            forall|i: int| 0 <= i < j ==> (#[trigger] children@[i])@ == wanted[i],
            numbered_first(children@, first, j as nat),
            *next_id == first + action_nodes_first(wanted, j as nat),
            first == *old(next_id),
        decreases actions@.len() - j,
    {
        let action: Action = actions[j];
        assert(legal_at(rules.rules(), spot, action));
        assert(wanted[j as int] == child_tree(rules.rules(), spot, action));
        let ghost before = *next_id as int;
        match build_child(
            rules,
            player,
            pot,
            stacks,
            invested,
            raises,
            facing_bet,
            amount_to_call,
            oop_checked,
            action,
            next_id,
        ) {
            None => {
                proof {
                    lemma_nodes_first(wanted, wanted, (j + 1) as nat, wanted.len());
                }
                return None;
            },
            Some(child) => {
                let ghost old_children = children@;
                children.push(child);
                proof {
                    lemma_ids_first(old_children, children@, first, 0, j as nat);
                    lemma_nodes_first(views(children@), wanted, j as nat, j as nat);
                    assert(children@[j as int].numbered(before));
                }
            },
        }
        j += 1;
    }
    assert(views(children@) =~= wanted);
    Some(children)
}

impl TreeConfig {
    /// The usual river sizes: bets of 33%, 67% and 100% of the pot, raises
    /// of the pot, three raises at most, all-in offered.
    pub fn default_river(starting_pot: u64, effective_stack: u64) -> (config: TreeConfig)
        ensures
            config.bet_sizes@ == seq![330u64, 670u64, 1000u64],
            config.raise_sizes@ == seq![1000u64],
            config.max_raises == 3,
            config.starting_pot == starting_pot,
            config.effective_stack == effective_stack,
            config.add_allin,
    {
        TreeConfig {
            bet_sizes: vec![330u64, 670u64, 1000u64],
            raise_sizes: vec![1000u64],
            max_raises: 3,
            starting_pot,
            effective_stack,
            add_allin: true,
        }
    }

    /// The usual turn sizes: bets of 50% and 100% of the pot, raises of the
    /// pot, two raises at most, all-in offered.
    pub fn default_turn(starting_pot: u64, effective_stack: u64) -> (config: TreeConfig)
        ensures
            config.bet_sizes@ == seq![500u64, 1000u64],
            config.raise_sizes@ == seq![1000u64],
            config.max_raises == 2,
            config.starting_pot == starting_pot,
            config.effective_stack == effective_stack,
            config.add_allin,
    {
        TreeConfig {
            bet_sizes: vec![500u64, 1000u64],
            raise_sizes: vec![1000u64],
            max_raises: 2,
            starting_pot,
            effective_stack,
            add_allin: true,
        }
    }
}

impl TurnTreeConfig {
    /// The usual turn tree over the given board, with the usual river sizes
    /// on the second street.
    pub fn new(board: Vec<u8>, starting_pot: u64, effective_stack: u64) -> (config: TurnTreeConfig)
        ensures
            config.turn.bet_sizes@ == seq![500u64, 1000u64],
            config.turn.raise_sizes@ == seq![1000u64],
            config.turn.max_raises == 2,
            config.turn.starting_pot == starting_pot,
            config.turn.effective_stack == effective_stack,
            config.turn.add_allin,
            config.river_bet_sizes@ == seq![330u64, 670u64, 1000u64],
            config.river_raise_sizes@ == seq![1000u64],
            config.river_max_raises == 3,
            config.board@ == board@,
    {
        TurnTreeConfig {
            turn: TreeConfig::default_turn(starting_pot, effective_stack),
            river_bet_sizes: vec![330u64, 670u64, 1000u64],
            river_raise_sizes: vec![1000u64],
            river_max_raises: 3,
            board,
        }
    }
}

/// Builds the single-street tree of a configuration and numbers its action
/// nodes in pre-order from 0, so that every id below the number of action
/// nodes is carried by exactly one of them and no other id by any. Returns
/// the root and the number of action nodes, or `None` when the tree holds
/// more action nodes than there are ids (65535).
pub fn build_tree(config: &TreeConfig) -> (result: Option<(TreeNode, u16)>)
    requires
        config.fits(),
    ensures
        match result {
            Some((root, count)) => {
                &&& root@ == street_tree(*config)
                &&& root.numbered(0)
                &&& count == action_nodes(root@)
                &&& forall|id: int|
                    #[trigger] root.occurrences(id) == if 0 <= id < count {
                        1nat
                    } else {
                        0nat
                    }
            },
            None => action_nodes(street_tree(*config)) > u16::MAX,
        },
{
    let mut next_id: u16 = 0;
    let rules = StreetRules {
        bet_sizes: &config.bet_sizes,
        raise_sizes: &config.raise_sizes,
        max_raises: config.max_raises,
        add_allin: config.add_allin,
    };
    // What each player has put in beyond the starting pot.
    let invested: [u64; 2] = [0, 0];
    let stacks: [u64; 2] = [config.effective_stack, config.effective_stack];
    assert(rules.rules() == config.rules());
    assert(spot_at(Player::OOP, config.starting_pot, stacks, invested, 0, false, 0, false)
        == config.root_spot());
    match build_node(
        &rules,
        Player::OOP,
        config.starting_pot,
        stacks,
        invested,
        0,
        false,
        0,
        false,
        &mut next_id,
    ) {
        Some(root) => {
            assert forall|id: int|
                #[trigger] root.occurrences(id) == if 0 <= id < next_id {
                    1nat
                } else {
                    0nat
                } by {
                lemma_numbered_ids(root, 0, id);
            }
            Some((root, next_id))
        },
        None => None,
    }
}

/// A count as far as the machine's word can hold it.
pub open spec fn capped(n: nat) -> usize {
    if n <= usize::MAX {
        n as usize
    } else {
        usize::MAX
    }
}

/// The sum of two counts, stopping at the largest number.
fn add_capped(a: usize, b: usize) -> (sum: usize)
    ensures
        sum == capped((a + b) as nat),
{
    if b > usize::MAX - a {
        usize::MAX
    } else {
        a + b
    }
}

impl TreeNode {
    /// Number of action nodes in the tree (the largest number, should the
    /// tree hold more).
    pub fn count_action_nodes(&self) -> (count: usize)
        ensures
            count == capped(action_nodes(self@)),
        decreases self,
    {
        proof {
            lemma_view_children(*self);
        }
        match self {
            TreeNode::Action { children, .. } => {
                let mut total: usize = 1;
                let mut i: usize = 0;
                while i < children.len()
                    invariant
                        i <= children@.len(),
                        total == capped(1 + action_nodes_first(views(children@), i as nat)),
                        *self is Action,
                        self->Action_children == children,
                    decreases children@.len() - i,
                {
                    total = add_capped(total, children[i].count_action_nodes());
                    i += 1;
                }
                total
            },
            TreeNode::Chance { children, .. } => {
                let mut total: usize = 0;
                let mut i: usize = 0;
                while i < children.len()
                    invariant
                        i <= children@.len(),
                        total == capped(action_nodes_first(views(children@), i as nat)),
                        *self is Chance,
                        self->Chance_children == children,
                    decreases children@.len() - i,
                {
                    total = add_capped(total, children[i].count_action_nodes());
                    i += 1;
                }
                total
            },
            TreeNode::Terminal { .. } => 0,
        }
    }

    /// Number of terminal nodes in the tree (the largest number, should
    /// the tree hold more).
    pub fn count_terminal_nodes(&self) -> (count: usize)
        ensures
            count == capped(terminal_nodes(self@)),
        decreases self,
    {
        proof {
            lemma_view_children(*self);
        }
        match self {
            TreeNode::Action { children, .. } => {
                let mut total: usize = 0;
                let mut i: usize = 0;
                while i < children.len()
                    invariant
                        i <= children@.len(),
                        total == capped(terminal_nodes_first(views(children@), i as nat)),
                        *self is Action,
                        self->Action_children == children,
                    decreases children@.len() - i,
                {
                    total = add_capped(total, children[i].count_terminal_nodes());
                    i += 1;
                }
                total
            },
            TreeNode::Chance { children, .. } => {
                let mut total: usize = 0;
                let mut i: usize = 0;
                while i < children.len()
                    invariant
                        i <= children@.len(),
                        total == capped(terminal_nodes_first(views(children@), i as nat)),
                        *self is Chance,
                        self->Chance_children == children,
                    decreases children@.len() - i,
                {
                    total = add_capped(total, children[i].count_terminal_nodes());
                    i += 1;
                }
                total
            },
            TreeNode::Terminal { .. } => 1,
        }
    }
}

/// In a tree numbered in pre-order from `first`, every id from `first` up
/// to the number of action nodes beyond it is carried by exactly one action
/// node, and no other id is carried at all: the ids are contiguous and none
/// repeats.
pub proof fn lemma_numbered_ids(node: TreeNode, first: int, id: int)
    requires
        node.numbered(first),
    ensures
        node.occurrences(id) == if first <= id < first + action_nodes(node@) {
            1nat
        } else {
            0nat
        },
    decreases node, 0nat,
{
    lemma_view_children(node);
    match node {
        TreeNode::Action { node_id, children, .. } => {
            lemma_numbered_ids_first(children@, first + 1, id, children@.len());
        },
        TreeNode::Chance { children, .. } => {
            lemma_numbered_ids_first(children@, first, id, children@.len());
        },
        TreeNode::Terminal { .. } => {},
    }
}

proof fn lemma_numbered_ids_first(children: Seq<TreeNode>, first: int, id: int, n: nat)
    requires
        n <= children.len(),
        numbered_first(children, first, n),
    ensures
        occurrences_first(children, id, n) == if first <= id < first + action_nodes_first(
            views(children),
            n,
        ) {
            1nat
        } else {
            0nat
        },
    decreases children, n,
{
    if n > 0 {
        lemma_numbered_ids_first(children, first, id, (n - 1) as nat);
        lemma_numbered_ids(
            children[n - 1],
            first + action_nodes_first(views(children), (n - 1) as nat),
            id,
        );
    }
}

/// The chips of a spot add up: the pot is the starting pot `base` plus
/// both investments, and each player's stack and investment together are
/// that player's entry in `total`; all of it fits the amount type.
pub open spec fn spot_balanced(spot: Spot, base: int, total: Both) -> bool {
    &&& 0 <= base
    &&& 0 <= spot.stacks.oop
    &&& 0 <= spot.stacks.ip
    &&& 0 <= spot.invested.oop
    &&& 0 <= spot.invested.ip
    &&& 0 <= spot.to_call <= u64::MAX
    &&& 0 <= spot.raises
    &&& base + total.oop + total.ip <= u64::MAX
    &&& spot.pot == base + spot.invested.oop + spot.invested.ip
    &&& spot.stacks.oop + spot.invested.oop == total.oop
    &&& spot.stacks.ip + spot.invested.ip == total.ip
}

/// A single-street tree whose chips add up: it holds no chance node, every
/// action node has at least one action and one child per action, and at
/// every terminal node the pot is the starting pot plus both investments,
/// while each stack is what the player started with less the investment.
pub open spec fn street_balanced(tree: GameTree, base: int, total: Both) -> bool
    decreases tree,
{
    match tree {
        GameTree::Terminal { kind, pot, stacks, invested } => {
            &&& 0 <= stacks.oop
            &&& 0 <= stacks.ip
            &&& 0 <= invested.oop
            &&& 0 <= invested.ip
            &&& pot == base + invested.oop + invested.ip
            &&& stacks.oop + invested.oop == total.oop
            &&& stacks.ip + invested.ip == total.ip
        },
        GameTree::Action { player, pot, stacks, actions, children } => {
            &&& actions.len() >= 1
            &&& children.len() == actions.len()
            &&& 0 <= stacks.oop
            &&& 0 <= stacks.ip
            &&& pot + stacks.oop + stacks.ip == base + total.oop + total.ip
            &&& forall|i: int|
                0 <= i < children.len() ==> street_balanced(#[trigger] children[i], base, total)
        },
        GameTree::Chance { .. } => false,
    }
}

/// The tree of a spot whose chips add up is a single-street tree whose
/// chips add up.
pub proof fn lemma_subtree_balanced(rules: Rules, spot: Spot, base: int, total: Both)
    requires
        spot_balanced(spot, base, total),
    ensures
        street_balanced(subtree(rules, spot), base, total),
    decreases rules.max_raises - spot.raises, stage(spot),
{
    if !is_settled(spot) {
        let actions = actions_at(rules, spot);
        let tree = subtree(rules, spot);
        assert(spot_fits(spot));
        lemma_actions_legal(rules, spot);
        assert forall|i: int| 0 <= i < tree->Action_children.len() implies street_balanced(
            #[trigger] tree->Action_children[i],
            base,
            total,
        ) by {
            let action = actions[i];
            assert(legal_at(rules, spot, action));
            match after(rules, spot, action) {
                Outcome::Next(next) => {
                    lemma_subtree_balanced(rules, next, base, total);
                },
                Outcome::End { .. } => {},
            }
        }
    }
}

/// The first decision of the next street after a showdown of this one:
/// the same pot and investments, and for both players the smaller of the
/// two stacks.
pub open spec fn next_street_spot(pot: int, stacks: Both, invested: Both) -> Spot {
    opening_spot(pot, least(stacks.oop, stacks.ip), invested)
}

/// A single-street tree continued by a second street: every showdown
/// becomes a chance node over `cards` with, under each card, the tree of
/// the second street. Folds stay as they are.
pub open spec fn with_next_street(tree: GameTree, rules: Rules, cards: Seq<u8>) -> GameTree
    decreases tree,
{
    match tree {
        GameTree::Terminal { kind, pot, stacks, invested } => if kind == TerminalType::Showdown {
            GameTree::Chance {
                pot,
                stacks,
                invested,
                cards,
                children: Seq::new(
                    cards.len(),
                    |i: int| subtree(rules, next_street_spot(pot, stacks, invested)),
                ),
            }
        } else {
            tree
        },
        GameTree::Action { player, pot, stacks, actions, children } => GameTree::Action {
            player,
            pot,
            stacks,
            actions,
            children: Seq::new(
                children.len(),
                |i: int|
                    if 0 <= i < children.len() {
                        with_next_street(children[i], rules, cards)
                    } else {
                        arbitrary()
                    },
            ),
        },
        GameTree::Chance { .. } => tree,
    }
}

/// Number of action nodes that lie below a chance node.
pub open spec fn deeper_nodes(tree: GameTree) -> nat
    decreases tree, 0nat,
{
    match tree {
        GameTree::Action { children, .. } => deeper_nodes_first(children, children.len()),
        GameTree::Chance { children, .. } => action_nodes_first(children, children.len()),
        GameTree::Terminal { .. } => 0,
    }
}

/// Number of action nodes below a chance node in the first `n` trees.
pub open spec fn deeper_nodes_first(children: Seq<GameTree>, n: nat) -> nat
    decreases children, n,
{
    if n == 0 || n > children.len() {
        0
    } else {
        deeper_nodes_first(children, (n - 1) as nat) + deeper_nodes(children[n - 1])
    }
}

/// The two-street tree of a configuration: the turn tree, continued at
/// every showdown by the river tree under each card that is not on the
/// board.
pub open spec fn turn_tree(config: TurnTreeConfig) -> GameTree {
    with_next_street(
        street_tree(config.turn),
        config.river_rules(),
        live_below(config.board@, 52),
    )
}

/// Counts of deeper nodes over the first `n` trees depend on those trees
/// alone, and do not shrink as `n` grows.
pub proof fn lemma_deeper_first(a: Seq<GameTree>, b: Seq<GameTree>, k: nat, n: nat)
    requires
        k <= n <= a.len(),
        k <= b.len(),
        forall|i: int| 0 <= i < k ==> a[i] == b[i],
    ensures
        deeper_nodes_first(a, k) == deeper_nodes_first(b, k),
        deeper_nodes_first(a, k) <= deeper_nodes_first(a, n),
    decreases n,
{
    if k < n {
        lemma_deeper_first(a, b, k, (n - 1) as nat);
    } else if k > 0 {
        lemma_deeper_first(a, b, (k - 1) as nat, (k - 1) as nat);
    }
}

/// A continued tree holds the action nodes of the first street and, below
/// its chance nodes, those of the second.
pub proof fn lemma_continued_nodes(tree: GameTree, rules: Rules, cards: Seq<u8>, base: int, total: Both)
    requires
        street_balanced(tree, base, total),
    ensures
        action_nodes(with_next_street(tree, rules, cards)) == action_nodes(tree) + deeper_nodes(
            with_next_street(tree, rules, cards),
        ),
    decreases tree, 0nat,
{
    match tree {
        GameTree::Action { children, .. } => {
            let continued = with_next_street(tree, rules, cards)->Action_children;
            lemma_continued_nodes_first(children, continued, rules, cards, base, total, children.len());
        },
        _ => {},
    }
}

proof fn lemma_continued_nodes_first(
    children: Seq<GameTree>,
    continued: Seq<GameTree>,
    rules: Rules,
    cards: Seq<u8>,
    base: int,
    total: Both,
    n: nat,
)
    requires
        n <= children.len(),
        continued.len() == children.len(),
        forall|i: int| 0 <= i < children.len() ==> street_balanced(#[trigger] children[i], base, total),
        forall|i: int|
            0 <= i < children.len() ==> continued[i] == with_next_street(children[i], rules, cards),
    ensures
        action_nodes_first(continued, n) == action_nodes_first(children, n) + deeper_nodes_first(
            continued,
            n,
        ),
    decreases children, n,
{
    if n > 0 {
        lemma_continued_nodes_first(children, continued, rules, cards, base, total, (n - 1) as nat);
        lemma_continued_nodes(children[n - 1], rules, cards, base, total);
    }
}

/// Walks a single-street tree and replaces each showdown by a chance node
/// that leads, for each card, into a freshly built tree of the next street.
/// The new action nodes take the ids from `next_id` on, in the order in
/// which the showdowns are met and, under each, card by card. `None` when
/// the ids run out.
fn attach_river_streets(
    node: TreeNode,
    rules: &StreetRules,
    river_cards: &Vec<u8>,
    next_id: &mut u16,
    Ghost(base): Ghost<int>,
    Ghost(total): Ghost<Both>,
) -> (result: Option<TreeNode>)
    requires
        street_balanced(node@, base, total),
        base + total.oop + total.ip <= u64::MAX,
        0 <= base,
    ensures
        ({
            let wanted = with_next_street(node@, rules.rules(), river_cards@);
            match result {
                Some(grown) => {
                    &&& grown@ == wanted
                    &&& *final(next_id) == *old(next_id) + deeper_nodes(wanted)
                    &&& grown.street_ids() == node.street_ids()
                    &&& grown.deeper_numbered(*old(next_id) as int)
                    &&& forall|id: int|
                        #[trigger] grown.occurrences(id) == node.occurrences(id) + if *old(next_id) <= id
                            < *final(next_id) {
                            1nat
                        } else {
                            0nat
                        }
                },
                None => *old(next_id) + deeper_nodes(wanted) > u16::MAX,
            }
        }),
    decreases node,
{
    let ghost wanted = with_next_street(node@, rules.rules(), river_cards@);
    let ghost start = *next_id as int;
    proof {
        lemma_view_children(node);
    }
    match node {
        TreeNode::Terminal { terminal_type: TerminalType::Showdown, pot, stacks, invested } => {
            let eff_stack: u64 = if stacks[0] <= stacks[1] {
                stacks[0]
            } else {
                stacks[1]
            };
            let ghost spot = next_street_spot(pot as int, both_of(stacks@), both_of(invested@));
            let ghost river = subtree(rules.rules(), spot);
            let ghost wanted_children = wanted->Chance_children;
            let mut children: Vec<TreeNode> = Vec::new();
            let mut k: usize = 0;
            while k < river_cards.len()
                invariant
                    k <= river_cards@.len(),
                    children@.len() == k,
                    wanted == with_next_street(node@, rules.rules(), river_cards@),
                    wanted is Chance,
                    wanted->Chance_children == wanted_children,
                    start == *old(next_id),
                    eff_stack == least(stacks@[0] as int, stacks@[1] as int),
                    spot == next_street_spot(pot as int, both_of(stacks@), both_of(invested@)),
                    spot_fits(spot),
                    river == subtree(rules.rules(), spot),
                    wanted_children.len() == river_cards@.len(),
                    forall|i: int| 0 <= i < wanted_children.len() ==> wanted_children[i] == river,
                    forall|i: int| 0 <= i < k ==> (#[trigger] children@[i])@ == river,
                    *next_id == start + action_nodes_first(wanted_children, k as nat),
                    numbered_first(children@, start, k as nat),
                    forall|id: int|
                        #[trigger] occurrences_first(children@, id, k as nat) == if start <= id < *next_id {
                            1nat
                        } else {
                            0nat
                        },
                decreases river_cards@.len() - k,
            {
                let ghost before = *next_id as int;
                match build_node(
                    rules,
                    Player::OOP,
                    pot,
                    [eff_stack, eff_stack],
                    invested,
                    0,
                    false,
                    0,
                    false,
                    next_id,
                ) {
                    None => {
                        proof {
                            assert(wanted_children[k as int] == river);
                            lemma_nodes_first(
                                wanted_children,
                                wanted_children,
                                (k + 1) as nat,
                                wanted_children.len(),
                            );
                        }
                        return None;
                    },
                    Some(river_root) => {
                        let ghost old_children = children@;
                        assert(wanted_children[k as int] == river);
                        children.push(river_root);
                        proof {
                            lemma_ids_first(old_children, children@, start, 0, k as nat);
                            lemma_nodes_first(views(children@), wanted_children, k as nat, k as nat);
                        }
                        let ghost k1 = (k + 1) as nat;
                        assert forall|id: int|
                            #[trigger] occurrences_first(children@, id, k1) == if start <= id
                                < *next_id {
                                1nat
                            } else {
                                0nat
                            } by {
                            lemma_ids_first(old_children, children@, 0, id, k as nat);
                            lemma_numbered_ids(river_root, before, id);
                        }
                    },
                }
                k += 1;
            }
            let grown = TreeNode::Chance {
                pot,
                stacks,
                invested,
                cards: clone_cards(river_cards),
                children,
            };
            proof {
                lemma_view_children(grown);
                assert(views(children@) =~= wanted_children);
                assert(grown@ == wanted);
                assert forall|id: int|
                    #[trigger] grown.occurrences(id) == node.occurrences(id) + if start <= id
                        < *next_id {
                        1nat
                    } else {
                        0nat
                    } by {
                    assert(grown.occurrences(id) == occurrences_first(
                        children@,
                        id,
                        children@.len(),
                    ));
                    assert(node.occurrences(id) == 0);
                }
            }
            Some(grown)
        },
        TreeNode::Terminal { terminal_type, pot, stacks, invested } => {
            // Fold terminals stay.
            let grown = TreeNode::Terminal { terminal_type, pot, stacks, invested };
            assert(grown == node);
            Some(grown)
        },
        TreeNode::Action { node_id, player, pot, stacks, actions, children } => {
            let ghost given = children@;
            let ghost wanted_children = wanted->Action_children;
            let mut rest: Vec<TreeNode> = children;
            let mut new_children: Vec<TreeNode> = Vec::new();
            let n: usize = rest.len();
            let mut k: usize = 0;
            proof {
                assert(rest@ =~= given.subrange(0, n as int));
                assert forall|i: int| 0 <= i < n implies street_balanced(
                    (#[trigger] given[i])@,
                    base,
                    total,
                ) by {
                    assert(views(given)[i] == given[i]@);
                }
                assert forall|i: int| 0 <= i < n implies wanted_children[i] == with_next_street(
                    (#[trigger] given[i])@,
                    rules.rules(),
                    river_cards@,
                ) by {
                    assert(views(given)[i] == given[i]@);
                }
            }
            while k < n
                invariant
                    k <= n,
                    n == given.len(),
                    wanted == with_next_street(node@, rules.rules(), river_cards@),
                    wanted is Action,
                    wanted->Action_children == wanted_children,
                    start == *old(next_id),
                    node is Action,
                    node->Action_children@ == given,
                    rest@ == given.subrange(k as int, n as int),
                    new_children@.len() == k,
                    wanted_children.len() == n,
                    base + total.oop + total.ip <= u64::MAX,
                    0 <= base,
                    forall|i: int|
                        0 <= i < n ==> street_balanced((#[trigger] given[i])@, base, total),
                    forall|i: int|
                        0 <= i < n ==> wanted_children[i] == with_next_street(
                            (#[trigger] given[i])@,
                            rules.rules(),
                            river_cards@,
                        ),
                    forall|i: int| 0 <= i < k ==> (#[trigger] new_children@[i])@ == wanted_children[i],
                    *next_id == start + deeper_nodes_first(wanted_children, k as nat),
                    street_ids_first(new_children@, k as nat) == street_ids_first(given, k as nat),
                    deeper_numbered_first(new_children@, start, k as nat),
                    forall|id: int|
                        #[trigger] occurrences_first(new_children@, id, k as nat) == occurrences_first(
                            given,
                            id,
                            k as nat,
                        ) + if start <= id < *next_id {
                            1nat
                        } else {
                            0nat
                        },
                decreases n - k,
            {
                let ghost before = *next_id as int;
                let child: TreeNode = rest.remove(0);
                assert(child == given[k as int]);
                assert(rest@ =~= given.subrange(k + 1, n as int));
                match attach_river_streets(child, rules, river_cards, next_id, Ghost(base), Ghost(total)) {
                    None => {
                        proof {
                            assert(wanted_children[k as int] == with_next_street(
                                given[k as int]@,
                                rules.rules(),
                                river_cards@,
                            ));
                            lemma_deeper_first(
                                wanted_children,
                                wanted_children,
                                (k + 1) as nat,
                                n as nat,
                            );
                        }
                        return None;
                    },
                    Some(grown_child) => {
                        let ghost old_children = new_children@;
                        new_children.push(grown_child);
                        proof {
                            lemma_ids_first(old_children, new_children@, start, 0, k as nat);
                            lemma_deeper_first(
                                views(new_children@),
                                wanted_children,
                                k as nat,
                                k as nat,
                            );
                        }
                        let ghost k1 = (k + 1) as nat;
                        assert forall|id: int|
                            #[trigger] occurrences_first(new_children@, id, k1)
                                == occurrences_first(given, id, k1) + if start <= id
                                < *next_id {
                                1nat
                            } else {
                                0nat
                            } by {
                            lemma_ids_first(old_children, new_children@, 0, id, k as nat);
                            assert(new_children@[k as int] == grown_child);
                            assert(grown_child.occurrences(id) == child.occurrences(id) + if before
                                <= id < *next_id {
                                1nat
                            } else {
                                0nat
                            });
                        }
                    },
                }
                k += 1;
            }
            let grown = TreeNode::Action {
                node_id,
                player,
                pot,
                stacks,
                actions,
                children: new_children,
            };
            proof {
                lemma_view_children(grown);
                assert(views(new_children@) =~= wanted_children);
                assert(grown@ == wanted);
                assert forall|id: int|
                    #[trigger] grown.occurrences(id) == node.occurrences(id) + if start <= id
                        < *next_id {
                        1nat
                    } else {
                        0nat
                    } by {
                    let own = if node_id == id {
                        1nat
                    } else {
                        0nat
                    };
                    assert(grown.occurrences(id) == own + occurrences_first(
                        new_children@,
                        id,
                        new_children@.len(),
                    ));
                    assert(node.occurrences(id) == own + occurrences_first(given, id, given.len()));
                }
            }
            Some(grown)
        },
        TreeNode::Chance { pot, stacks, invested, cards, children } => {
            // A single-street tree holds none.
            Some(TreeNode::Chance { pot, stacks, invested, cards, children })
        },
    }
}

/// A copy of a list of cards.
fn clone_cards(cards: &Vec<u8>) -> (copy: Vec<u8>)
    ensures
        copy@ == cards@,
{
    let mut copy: Vec<u8> = Vec::new();
    let mut i: usize = 0;
    while i < cards.len()
        invariant
            i <= cards@.len(),
            copy@ == cards@.subrange(0, i as int),
        decreases cards@.len() - i,
    {
        copy.push(cards[i]);
        assert(copy@ =~= cards@.subrange(0, i + 1));
        i += 1;
    }
    assert(cards@.subrange(0, cards@.len() as int) =~= cards@);
    copy
}

/// In a single-street tree numbered in pre-order from `first`, the ids
/// read in pre-order count up from `first`.
pub proof fn lemma_street_ids(node: TreeNode, first: int, base: int, total: Both)
    requires
        node.numbered(first),
        street_balanced(node@, base, total),
    ensures
        node.street_ids().len() == action_nodes(node@),
        forall|k: int| 0 <= k < node.street_ids().len() ==> #[trigger] node.street_ids()[k] == first + k,
    decreases node, 0nat,
{
    lemma_view_children(node);
    match node {
        TreeNode::Action { node_id, children, .. } => {
            assert forall|i: int| 0 <= i < children@.len() implies street_balanced(
                (#[trigger] children@[i])@,
                base,
                total,
            ) by {
                assert(views(children@)[i] == children@[i]@);
            }
            lemma_street_ids_first(children@, first + 1, base, total, children@.len());
        },
        _ => {},
    }
}

proof fn lemma_street_ids_first(children: Seq<TreeNode>, first: int, base: int, total: Both, n: nat)
    requires
        n <= children.len(),
        numbered_first(children, first, n),
        forall|i: int| 0 <= i < children.len() ==> street_balanced((#[trigger] children[i])@, base, total),
    ensures
        street_ids_first(children, n).len() == action_nodes_first(views(children), n),
        forall|k: int|
            0 <= k < street_ids_first(children, n).len() ==> #[trigger] street_ids_first(
                children,
                n,
            )[k] == first + k,
    decreases children, n,
{
    if n > 0 {
        lemma_street_ids_first(children, first, base, total, (n - 1) as nat);
        lemma_street_ids(
            children[n - 1],
            first + action_nodes_first(views(children), (n - 1) as nat),
            base,
            total,
        );
    }
}

/// Builds a turn+river game tree.
///
/// Builds the turn tree, then replaces every showdown by a chance node that
/// branches into one river tree per card that is not on the board; fold
/// terminals are left as they are. The turn's action nodes keep the ids
/// they have in the turn tree alone; the river trees take the ids after
/// them. Returns the root and the number of action nodes, each id below
/// that number being carried by exactly one of them; or `None` when the
/// tree holds more action nodes than there are ids (65535).
pub fn build_turn_tree(config: &TurnTreeConfig) -> (result: Option<(TreeNode, u16)>)
    requires
        config.turn.fits(),
    ensures
        match result {
            Some((root, count)) => {
                &&& root@ == turn_tree(*config)
                &&& count == action_nodes(root@)
                &&& root.street_ids() == Seq::new(
                    action_nodes(street_tree(config.turn)),
                    |k: int| k as u16,
                )
                &&& root.deeper_numbered(action_nodes(street_tree(config.turn)) as int)
                &&& forall|id: int|
                    #[trigger] root.occurrences(id) == if 0 <= id < count {
                        1nat
                    } else {
                        0nat
                    }
            },
            None => action_nodes(turn_tree(*config)) > u16::MAX,
        },
{
    let ghost base = config.turn.starting_pot as int;
    let ghost total = Both {
        oop: config.turn.effective_stack as int,
        ip: config.turn.effective_stack as int,
    };
    let ghost river_rules = config.river_rules();
    let ghost cards = live_below(config.board@, 52);
    proof {
        lemma_subtree_balanced(config.turn.rules(), config.turn.root_spot(), base, total);
        lemma_continued_nodes(street_tree(config.turn), river_rules, cards, base, total);
    }
    // The turn street alone.
    let (turn_root, turn_count) = match build_tree(&config.turn) {
        Some(built) => built,
        None => {
            return None;
        },
    };
    // Possible river cards: the deck without the board.
    let river_cards: Vec<u8> = remaining_deck(config.board.as_slice());
    let rules = StreetRules {
        bet_sizes: &config.river_bet_sizes,
        raise_sizes: &config.river_raise_sizes,
        max_raises: config.river_max_raises,
        add_allin: true,
    };
    assert(rules.rules() == river_rules);
    let mut next_id: u16 = turn_count;
    let ghost turn_node = turn_root;
    proof {
        lemma_street_ids(turn_node, 0, base, total);
        assert(turn_node.street_ids() =~= Seq::new(
            action_nodes(street_tree(config.turn)),
            |k: int| k as u16,
        ));
    }
    match attach_river_streets(
        turn_root,
        &rules,
        &river_cards,
        &mut next_id,
        Ghost(base),
        Ghost(total),
    ) {
        None => None,
        Some(root) => {
            assert forall|id: int|
                #[trigger] root.occurrences(id) == if 0 <= id < next_id {
                    1nat
                } else {
                    0nat
                } by {
                lemma_numbered_ids(turn_node, 0, id);
            }
            Some((root, next_id))
        },
    }
}

/// Every chance node of the tree deals one of `n` cards and has one child
/// for each.
pub open spec fn chance_fanout(tree: GameTree, n: nat) -> bool
    decreases tree,
{
    match tree {
        GameTree::Terminal { .. } => true,
        GameTree::Action { children, .. } => forall|i: int|
            0 <= i < children.len() ==> chance_fanout(#[trigger] children[i], n),
        GameTree::Chance { cards, children, .. } => {
            &&& cards.len() == n
            &&& children.len() == n
            &&& forall|i: int| 0 <= i < children.len() ==> chance_fanout(#[trigger] children[i], n)
        },
    }
}

proof fn lemma_street_fanout(tree: GameTree, base: int, total: Both, n: nat)
    requires
        street_balanced(tree, base, total),
    ensures
        chance_fanout(tree, n),
    decreases tree,
{
    match tree {
        GameTree::Action { children, .. } => {
            assert forall|i: int| 0 <= i < children.len() implies chance_fanout(
                #[trigger] children[i],
                n,
            ) by {
                lemma_street_fanout(children[i], base, total, n);
            }
        },
        _ => {},
    }
}

proof fn lemma_continued_fanout(tree: GameTree, rules: Rules, cards: Seq<u8>, base: int, total: Both)
    requires
        street_balanced(tree, base, total),
        base + total.oop + total.ip <= u64::MAX,
        0 <= base,
    ensures
        chance_fanout(with_next_street(tree, rules, cards), cards.len()),
    decreases tree,
{
    let grown = with_next_street(tree, rules, cards);
    match tree {
        GameTree::Action { children, .. } => {
            assert forall|i: int| 0 <= i < grown->Action_children.len() implies chance_fanout(
                #[trigger] grown->Action_children[i],
                cards.len(),
            ) by {
                lemma_continued_fanout(children[i], rules, cards, base, total);
            }
        },
        GameTree::Terminal { kind, pot, stacks, invested } => {
            if kind == TerminalType::Showdown {
                let spot = next_street_spot(pot, stacks, invested);
                let stack = least(stacks.oop, stacks.ip);
                let river_total = Both { oop: stack + invested.oop, ip: stack + invested.ip };
                lemma_subtree_balanced(rules, spot, base, river_total);
                lemma_street_fanout(subtree(rules, spot), base, river_total, cards.len());
            }
        },
        GameTree::Chance { .. } => {},
    }
}

/// Over a board of four different cards, every chance node of the
/// two-street tree has exactly 48 children, one for each remaining card.
pub proof fn lemma_turn_tree_fanout(config: TurnTreeConfig)
    requires
        config.turn.fits(),
        config.board@.len() == 4,
        distinct_cards(config.board@),
        forall|i: int| 0 <= i < 4 ==> config.board@[i] < 52,
    ensures
        chance_fanout(turn_tree(config), 48),
{
    let base = config.turn.starting_pot as int;
    let total = Both {
        oop: config.turn.effective_stack as int,
        ip: config.turn.effective_stack as int,
    };
    lemma_remaining_count(config.board@);
    lemma_subtree_balanced(config.turn.rules(), config.turn.root_spot(), base, total);
    lemma_continued_fanout(
        street_tree(config.turn),
        config.river_rules(),
        live_below(config.board@, 52),
        base,
        total,
    );
}

/// The text that names an action: `Check`, `Fold`, or `Bet`, `Call`,
/// `Raise` followed by a blank and the amount in chips with one decimal.
pub open spec fn label_text(action: Action) -> Seq<char> {
    match action {
        Action::Check => "Check"@,
        Action::Fold => "Fold"@,
        Action::Bet(amount) => "Bet "@ + one_decimal(amount as nat),
        Action::Call(amount) => "Call "@ + one_decimal(amount as nat),
        Action::Raise(amount) => "Raise "@ + one_decimal(amount as nat),
    }
}

impl Action {
    /// The action's name for display, amounts in chips with one decimal.
    pub fn label(&self) -> (text: String)
        ensures
            text@ == label_text(*self),
    {
        match self {
            Action::Check => String::from_str("Check"),
            Action::Fold => String::from_str("Fold"),
            Action::Bet(amount) => {
                let mut text = String::from_str("Bet ");
                push_one_decimal(&mut text, *amount);
                text
            },
            Action::Call(amount) => {
                let mut text = String::from_str("Call ");
                push_one_decimal(&mut text, *amount);
                text
            },
            Action::Raise(amount) => {
                let mut text = String::from_str("Raise ");
                push_one_decimal(&mut text, *amount);
                text
            },
        }
    }
}

/// The labels of a node's actions, in the order of the actions.
pub fn action_labels(actions: &Vec<Action>) -> (labels: Vec<String>)
    ensures
        labels@.len() == actions@.len(),
        forall|i: int| 0 <= i < labels@.len() ==> (#[trigger] labels@[i])@ == label_text(actions@[i]),
{
    let mut labels: Vec<String> = Vec::new();
    let mut i: usize = 0;
    while i < actions.len()
        invariant
            i <= actions@.len(),
            labels@.len() == i,
            forall|k: int| 0 <= k < i ==> (#[trigger] labels@[k])@ == label_text(actions@[k]),
        decreases actions@.len() - i,
    {
        let label: String = actions[i].label();
        labels.push(label);
        i += 1;
    }
    labels
}

/// Metadata about an action node.
#[derive(Debug, Clone, Copy)]
pub struct NodeMeta {
    pub node_id: u16,
    pub player: Player,
    /// Number of actions at the node (modulo 256).
    pub num_actions: u8,
}

/// The metadata of the action nodes of a tree, in pre-order.
pub open spec fn metas_of(node: TreeNode) -> Seq<NodeMeta>
    decreases node, 0nat,
{
    match node {
        TreeNode::Action { node_id, player, actions, children, .. } => seq![
            NodeMeta { node_id, player, num_actions: (actions@.len() % 256) as u8 },
        ] + metas_of_first(children@, children@.len()),
        TreeNode::Chance { children, .. } => metas_of_first(children@, children@.len()),
        TreeNode::Terminal { .. } => Seq::empty(),
    }
}

/// The metadata of the action nodes of the first `n` trees, in pre-order.
pub open spec fn metas_of_first(children: Seq<TreeNode>, n: nat) -> Seq<NodeMeta>
    decreases children, n,
{
    if n == 0 || n > children.len() {
        Seq::empty()
    } else {
        metas_of_first(children, (n - 1) as nat) + metas_of(children[n - 1])
    }
}

/// The list is in ascending order of node id.
pub open spec fn ordered_by_id(metas: Seq<NodeMeta>) -> bool {
    forall|i: int, j: int| 0 <= i < j < metas.len() ==> metas[i].node_id <= metas[j].node_id
}

fn collect_meta_recursive(node: &TreeNode, metas: &mut Vec<NodeMeta>)
    ensures
        final(metas)@ == old(metas)@ + metas_of(*node),
    decreases node,
{
    match node {
        TreeNode::Action { node_id, player, actions, children, .. } => {
            metas.push(
                NodeMeta {
                    node_id: *node_id,
                    player: *player,
                    num_actions: (actions.len() % 256) as u8,
                },
            );
            let ghost start = metas@;
            let mut i: usize = 0;
            while i < children.len()
                invariant
                    i <= children@.len(),
                    *node is Action,
                    node->Action_children == children,
                    metas@ == start + metas_of_first(children@, i as nat),
                decreases children@.len() - i,
            {
                let ghost before = metas@;
                collect_meta_recursive(&children[i], metas);
                assert(metas@ =~= start + metas_of_first(children@, (i + 1) as nat));
                i += 1;
            }
            assert(metas@ =~= old(metas)@ + metas_of(*node));
        },
        TreeNode::Chance { children, .. } => {
            let ghost start = metas@;
            let mut i: usize = 0;
            assert(metas@ =~= start + metas_of_first(children@, 0));
            while i < children.len()
                invariant
                    i <= children@.len(),
                    *node is Chance,
                    node->Chance_children == children,
                    metas@ == start + metas_of_first(children@, i as nat),
                decreases children@.len() - i,
            {
                collect_meta_recursive(&children[i], metas);
                assert(metas@ =~= start + metas_of_first(children@, (i + 1) as nat));
                i += 1;
            }
        },
        TreeNode::Terminal { .. } => {
            assert(metas@ =~= old(metas)@ + metas_of(*node));
        },
    }
}

/// The place of a new entry with the given id in a list: behind the last
/// entry whose id is not greater.
pub open spec fn slot_for(list: Seq<NodeMeta>, id: u16) -> int
    decreases list.len(),
{
    if list.len() == 0 || list.last().node_id <= id {
        list.len() as int
    } else {
        slot_for(list.drop_last(), id)
    }
}

/// The first `n` of the entries found, each put in turn at its place among
/// those before it: ascending order of id, entries of one id in the order
/// in which they were found.
pub open spec fn sorted_metas(found: Seq<NodeMeta>, n: nat) -> Seq<NodeMeta>
    decreases n,
{
    if n == 0 {
        Seq::empty()
    } else {
        let before = sorted_metas(found, (n - 1) as nat);
        before.insert(slot_for(before, found[n - 1].node_id), found[n - 1])
    }
}

/// Puts an entry into a list that is in ascending order of id, behind the
/// last entry whose id is not greater.
fn insert_by_id(metas: &mut Vec<NodeMeta>, meta: NodeMeta)
    requires
        ordered_by_id(old(metas)@),
    ensures
        final(metas)@ == old(metas)@.insert(slot_for(old(metas)@, meta.node_id), meta),
        ordered_by_id(final(metas)@),
        final(metas)@.to_multiset() == old(metas)@.to_multiset().insert(meta),
{
    let mut at: usize = metas.len();
    assert(metas@.subrange(0, at as int) =~= metas@);
    while at > 0 && metas[at - 1].node_id > meta.node_id
        invariant
            at <= metas@.len(),
            metas@ == old(metas)@,
            forall|i: int| at <= i < metas@.len() ==> metas@[i].node_id > meta.node_id,
            slot_for(metas@, meta.node_id) == slot_for(metas@.subrange(0, at as int), meta.node_id),
        decreases at,
    {
        assert(metas@.subrange(0, at as int).drop_last() =~= metas@.subrange(0, at - 1));
        at -= 1;
    }
    assert(slot_for(metas@, meta.node_id) == at) by {
        let head = metas@.subrange(0, at as int);
        if at > 0 {
            assert(head.last() == metas@[at - 1]);
        }
    }
    let ghost before = metas@;
    metas.insert(at, meta);
    proof {
        vstd::seq_lib::to_multiset_insert(before, at as int, meta);
        lemma_insert_ordered(before, at as int, meta);
    }
}

/// An entry put in between the entries of no greater id and those of
/// greater id leaves the list in order.
proof fn lemma_insert_ordered(before: Seq<NodeMeta>, at: int, meta: NodeMeta)
    requires
        ordered_by_id(before),
        0 <= at <= before.len(),
        at > 0 ==> before[at - 1].node_id <= meta.node_id,
        forall|i: int| at <= i < before.len() ==> before[i].node_id > meta.node_id,
    ensures
        ordered_by_id(before.insert(at, meta)),
{
    let after = before.insert(at, meta);
    assert forall|i: int, j: int| 0 <= i < j < after.len() implies after[i].node_id
        <= after[j].node_id by {
        if j < at {
            assert(after[i] == before[i] && after[j] == before[j]);
        } else if j == at {
            assert(after[i] == before[i]);
            assert(before[i].node_id <= before[at - 1].node_id || i == at - 1);
        } else if i < at {
            assert(after[i] == before[i] && after[j] == before[j - 1]);
        } else if i == at {
            assert(after[j] == before[j - 1]);
        } else {
            assert(after[i] == before[i - 1] && after[j] == before[j - 1]);
        }
    }
}

/// Collects the metadata of all action nodes in the tree, sorted by node
/// id: the result holds what the pre-order walk finds, rearranged into
/// ascending order of id, entries of one id in the order of the walk.
pub fn collect_node_metadata(tree: &TreeNode) -> (metas: Vec<NodeMeta>)
    ensures
        metas@ == sorted_metas(metas_of(*tree), metas_of(*tree).len()),
        ordered_by_id(metas@),
        metas@.to_multiset() == metas_of(*tree).to_multiset(),
{
    let mut found: Vec<NodeMeta> = Vec::new();
    collect_meta_recursive(tree, &mut found);
    assert(found@ =~= metas_of(*tree));
    let mut metas: Vec<NodeMeta> = Vec::new();
    let mut k: usize = 0;
    assert(found@.subrange(0, 0) =~= metas@);
    while k < found.len()
        invariant
            k <= found@.len(),
            metas@ == sorted_metas(found@, k as nat),
            ordered_by_id(metas@),
            metas@.to_multiset() == found@.subrange(0, k as int).to_multiset(),
        decreases found@.len() - k,
    {
        let meta: NodeMeta = found[k];
        insert_by_id(&mut metas, meta);
        proof {
            vstd::seq_lib::to_multiset_build(found@.subrange(0, k as int), meta);
            assert(found@.subrange(0, k + 1) =~= found@.subrange(0, k as int).push(meta));
        }
        k += 1;
    }
    assert(found@.subrange(0, found@.len() as int) =~= found@);
    metas
}

/// The single-street tree of a configuration whose chips fit holds no
/// chance node, gives every action node at least one action and a child
/// for each, and has at every terminal node the starting pot plus both
/// investments in the pot and the effective stack less the investment in
/// each stack.
pub proof fn lemma_street_tree_balanced(config: TreeConfig)
    requires
        config.fits(),
    ensures
        street_balanced(
            street_tree(config),
            config.starting_pot as int,
            Both { oop: config.effective_stack as int, ip: config.effective_stack as int },
        ),
{
    lemma_subtree_balanced(
        config.rules(),
        config.root_spot(),
        config.starting_pot as int,
        Both { oop: config.effective_stack as int, ip: config.effective_stack as int },
    );
}

/// At every terminal node of the tree the pot is `base` plus what the two
/// players have put in, and every action node has at least one action and
/// one child for each action.
pub open spec fn pots_add_up(tree: GameTree, base: int) -> bool
    decreases tree,
{
    match tree {
        GameTree::Terminal { pot, invested, .. } => pot == base + invested.oop + invested.ip,
        GameTree::Action { actions, children, .. } => {
            &&& actions.len() >= 1
            &&& children.len() == actions.len()
            &&& forall|i: int| 0 <= i < children.len() ==> pots_add_up(#[trigger] children[i], base)
        },
        GameTree::Chance { children, .. } => forall|i: int|
            0 <= i < children.len() ==> pots_add_up(#[trigger] children[i], base),
    }
}

proof fn lemma_street_pots(tree: GameTree, base: int, total: Both)
    requires
        street_balanced(tree, base, total),
    ensures
        pots_add_up(tree, base),
    decreases tree,
{
    match tree {
        GameTree::Action { children, .. } => {
            assert forall|i: int| 0 <= i < children.len() implies pots_add_up(
                #[trigger] children[i],
                base,
            ) by {
                lemma_street_pots(children[i], base, total);
            }
        },
        _ => {},
    }
}

proof fn lemma_continued_pots(tree: GameTree, rules: Rules, cards: Seq<u8>, base: int, total: Both)
    requires
        street_balanced(tree, base, total),
        base + total.oop + total.ip <= u64::MAX,
        0 <= base,
    ensures
        pots_add_up(with_next_street(tree, rules, cards), base),
    decreases tree,
{
    let grown = with_next_street(tree, rules, cards);
    match tree {
        GameTree::Action { children, .. } => {
            assert forall|i: int| 0 <= i < grown->Action_children.len() implies pots_add_up(
                #[trigger] grown->Action_children[i],
                base,
            ) by {
                lemma_continued_pots(children[i], rules, cards, base, total);
            }
        },
        GameTree::Terminal { kind, pot, stacks, invested } => {
            if kind == TerminalType::Showdown {
                let spot = next_street_spot(pot, stacks, invested);
                let stack = least(stacks.oop, stacks.ip);
                let river_total = Both { oop: stack + invested.oop, ip: stack + invested.ip };
                lemma_subtree_balanced(rules, spot, base, river_total);
                lemma_street_pots(subtree(rules, spot), base, river_total);
            }
        },
        GameTree::Chance { .. } => {},
    }
}

/// In the two-street tree of a configuration whose chips fit, the pot of
/// every terminal node, on either street, is the starting pot plus what the
/// two players have put in.
pub proof fn lemma_turn_tree_pots(config: TurnTreeConfig)
    requires
        config.turn.fits(),
    ensures
        pots_add_up(turn_tree(config), config.turn.starting_pot as int),
{
    let base = config.turn.starting_pot as int;
    let total = Both {
        oop: config.turn.effective_stack as int,
        ip: config.turn.effective_stack as int,
    };
    lemma_subtree_balanced(config.turn.rules(), config.turn.root_spot(), base, total);
    lemma_continued_pots(
        street_tree(config.turn),
        config.river_rules(),
        live_below(config.board@, 52),
        base,
        total,
    );
}

} // verus!
