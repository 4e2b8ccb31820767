//! Building blocks that know nothing of chess.

pub mod chance;
pub mod clock;
pub mod parse_args;
pub mod rc_wrapper;
pub mod text;
