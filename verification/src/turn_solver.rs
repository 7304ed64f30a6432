//! The inputs of a two-street solve: the turn's betting, then the river's.

use vstd::prelude::*;
use crate::cards::board_of_text;
use crate::card_encoding::card_indices;
use crate::postflop_tree::TurnTreeConfig;
use crate::ranges::{range_items, texts_of};
use crate::river_solver::{ConfigError, input_error, read_inputs};

verus! {

/// The inputs of a turn solve.
pub struct TurnSolverConfig {
    pub board: Vec<u8>,
    pub oop_range: Vec<String>,
    pub ip_range: Vec<String>,
    /// Starting pot in chip units.
    pub starting_pot: u64,
    /// Effective stack in chip units.
    pub effective_stack: u64,
    pub iterations: usize,
    /// The sizes of both streets and the board whose river cards are dealt.
    pub tree: TurnTreeConfig,
}

impl TurnSolverConfig {
    /// Reads the inputs of a turn solve: a board of four cards, two ranges
    /// that keep at least one hand each beside the board, a pot above
    /// zero. The bet sizes are the usual ones of turn and river.
    pub fn new(
        board_str: &str,
        oop_range_str: &str,
        ip_range_str: &str,
        starting_pot: u64,
        effective_stack: u64,
        iterations: usize,
    ) -> (res: Result<TurnSolverConfig, ConfigError>)
        ensures
            match input_error(
                board_str@,
                oop_range_str@,
                ip_range_str@,
                starting_pot,
                effective_stack,
                4,
            ) {
                Some(e) => res == Err::<TurnSolverConfig, ConfigError>(e),
                None => {
                    &&& res is Ok
                    &&& res->Ok_0.board@ == card_indices(board_of_text(board_str@)->Ok_0)
                    &&& res->Ok_0.board@.len() == 4
                    &&& forall|i: int| 0 <= i < 4 ==> res->Ok_0.board@[i] < 52
                    &&& texts_of(res->Ok_0.oop_range@) == range_items(oop_range_str@)
                    &&& texts_of(res->Ok_0.ip_range@) == range_items(ip_range_str@)
                    &&& res->Ok_0.starting_pot == starting_pot
                    &&& res->Ok_0.effective_stack == effective_stack
                    &&& res->Ok_0.iterations == iterations
                    &&& res->Ok_0.tree.board@ == res->Ok_0.board@
                    &&& res->Ok_0.tree.turn.fits()
                    &&& res->Ok_0.tree.turn.starting_pot == starting_pot
                    &&& res->Ok_0.tree.turn.effective_stack == effective_stack
                    &&& res->Ok_0.tree.turn.bet_sizes@ == seq![500u64, 1000u64]
                    &&& res->Ok_0.tree.turn.raise_sizes@ == seq![1000u64]
                    &&& res->Ok_0.tree.turn.max_raises == 2
                    &&& res->Ok_0.tree.turn.add_allin
                    &&& res->Ok_0.tree.river_bet_sizes@ == seq![330u64, 670u64, 1000u64]
                    &&& res->Ok_0.tree.river_raise_sizes@ == seq![1000u64]
                    &&& res->Ok_0.tree.river_max_raises == 3
                },
            },
    {
        match read_inputs(board_str, oop_range_str, ip_range_str, starting_pot, effective_stack, 4) {
            Err(e) => Err(e),
            Ok(inputs) => {
                let mut tree_board: Vec<u8> = Vec::new();
                let mut i: usize = 0;
                while i < inputs.board.len()
                    invariant
                        i <= inputs.board@.len(),
                        tree_board@ == inputs.board@.subrange(0, i as int),
                    decreases inputs.board@.len() - i,
                {
                    tree_board.push(inputs.board[i]);
                    assert(tree_board@ =~= inputs.board@.subrange(0, i + 1));
                    i += 1;
                }
                assert(inputs.board@.subrange(0, inputs.board@.len() as int) =~= inputs.board@);
                let tree = TurnTreeConfig::new(tree_board, starting_pot, effective_stack);
                Ok(
                    TurnSolverConfig {
                        board: inputs.board,
                        oop_range: inputs.oop_range,
                        ip_range: inputs.ip_range,
                        starting_pot,
                        effective_stack,
                        iterations,
                        tree,
                    },
                )
            },
        }
    }
}

} // verus!
