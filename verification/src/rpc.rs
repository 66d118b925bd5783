//! The messages between the editor core and the user interface: requests
//! from the interface to the core, responses from the core to the interface.

use vstd::prelude::*;

verus! {

/// A request from the user interface to the editor.
#[derive(Debug, Clone)]
pub enum RpcRequest {
    /// A typed character.
    Char(char),
    /// The Enter key.
    Enter,
    /// The Backspace key.
    Backspace,
    /// The Escape key: leave the current mode for normal mode.
    Esc,
    /// Quit the editor.
    Quit,
}

/// A response from the editor to the user interface.
#[derive(Debug, Clone)]
pub enum RpcResponse {
    /// The text to show, the cursor position (column and line) and the name
    /// of the current mode.
    Render { text: String, cursor_x: usize, cursor_y: usize, mode_name: String },
    /// The editor has stopped.
    Shutdown,
}

} // verus!
