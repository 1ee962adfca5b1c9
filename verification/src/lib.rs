//! Core of an interactive bingo board: a 5x5 grid of distinct numbers drawn
//! from 1..=75, per-cell highlight colors toggled by the user, and a text
//! snapshot format for persisting the board in a string-keyed store.

use vstd::prelude::*;

mod board;
mod codec;
mod sampler;
mod sentences;

pub use board::cells_view;
pub use board::create_board;
pub use board::lemma_toggle_cell_twice;
pub use board::lemma_toggle_twice;
pub use board::toggled;
pub use board::wf_cells;
pub use board::BoardModel;
pub use board::BoardState;
pub use board::CellModel;
pub use board::CellState;
pub use codec::digit_char;
pub use codec::digit_val;
pub use codec::enc_cell;
pub use codec::enc_cells;
pub use codec::enc_num;
pub use codec::enc_str;
pub use codec::esc;
pub use codec::esc_char;
pub use codec::lemma_decode_sound;
pub use codec::lemma_round_trip;
pub use codec::load_state;
pub use codec::parse_cell;
pub use codec::parse_cells;
pub use codec::parse_str;
pub use codec::save_state;
pub use codec::spec_decode;
pub use codec::spec_encode;
pub use sampler::all_in_range;
pub use sampler::generate_board;
pub use sampler::sample;
pub use sentences::dec_rep;
pub use sentences::generate_sentences;
pub use sentences::sentence_of;

verus! {

/// Numbers on the board are drawn from `1..=MAX_NUMBER`.
pub const MAX_NUMBER: u8 = 75;

/// A board always holds exactly `BOARD_CELLS` cells.
pub const BOARD_CELLS: usize = 25;

/// The ways an operation on the board can be refused. Deserialization
/// failure is not here: loading reports it as "no state" instead, so the
/// caller falls back to a fresh board.
#[derive(Clone, Copy, Debug, PartialEq, Eq, Structural)]
pub enum BingoError {
    /// A sampler was asked for more values than its domain holds.
    InvalidArgument,
    /// A cell index at or beyond the board's edge.
    IndexOutOfRange,
}

} // verus!
