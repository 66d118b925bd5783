//! Core of a modal text editor: a piece-table text buffer, text selections,
//! the modal state machine that turns key requests into editing actions, and
//! the editor state that applies those actions.

pub mod editor;
pub mod encoding;
pub mod modal;
pub mod piece_table;
pub mod rpc;
pub mod selection;

pub use modal::{EditorAction, Mode, StateMachine};
pub use piece_table::PieceTable;
