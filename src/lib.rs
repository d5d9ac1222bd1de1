//! Solver for the "Board Slam" dice game: for three dice values, finds an
//! expression `(x^a op1 y^b) op2 z^c` for every target from 1 to 36 that can
//! be reached, keeping the first one found in a fixed enumeration order.

pub mod expr;
pub mod render;
pub mod search;

pub use expr::{Answer, Op, Value};
pub use render::display;
pub use search::{fill_board, get_missing, is_valid_die, Board};
