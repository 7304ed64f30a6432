//! Keys of the information sets that a solve keeps, and the order in which
//! the two players take their turn to be updated.

use vstd::prelude::*;
use crate::postflop_tree::Player;

verus! {

/// Key for an information set: what the acting player knows, as the index
/// of the player's hand and the id of the action node.
#[derive(Debug, Clone, Copy, PartialEq, Eq, Hash, Structural)]
pub struct InfoSetKey {
    /// Index of the hand in the acting player's list of hands.
    pub hand_bucket: u16,
    /// Which decision point in the game tree.
    pub node_id: u16,
}

impl InfoSetKey {
    /// The key of hand `hand_idx` at the node `node_id`.
    pub fn at(hand_idx: usize, node_id: u16) -> (key: InfoSetKey)
        requires
            hand_idx <= u16::MAX,
        ensures
            key.hand_bucket == hand_idx,
            key.node_id == node_id,
    {
        InfoSetKey { hand_bucket: hand_idx as u16, node_id }
    }
}

/// The player whose hands a sweep updates: out of position on the even
/// sweeps (counted from 0), in position on the odd ones.
pub open spec fn traverser_of(sweep: int) -> Player {
    if sweep % 2 == 0 {
        Player::OOP
    } else {
        Player::IP
    }
}

/// The player whose hands the given sweep updates.
pub fn sweep_traverser(sweep: usize) -> (player: Player)
    ensures
        player == traverser_of(sweep as int),
{
    if sweep % 2 == 0 {
        Player::OOP
    } else {
        Player::IP
    }
}

} // verus!
