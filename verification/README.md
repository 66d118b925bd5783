# rem

The core of REM, a modal text editor, as a Verus-verified library, with a
terminal front end around it.

- `src/piece_table.rs`: the piece-table text buffer. The text is modelled as
  the UTF-8 bytes spelled out by the pieces; `insert` and `delete` are
  specified over that model, the original buffer never changes and the add
  buffer only grows, and edits at character boundaries keep the text
  readable as a string.
- `src/selection.rs`: text selections (anchor and head).
- `src/modal.rs`: the modal state machine (normal, insert, visual mode).
- `src/editor.rs`: the editor state; `handle_request` applies one request,
  `broadcast_state` describes the state for rendering.
- `src/rpc.rs`: the request and response messages.
- `src/encoding.rs`: UTF-8 facts the buffer relies on.
- `app/`: the terminal interface (`crossterm`, `ratatui`), the editor's
  request loop over channels, and the message types with `serde` derives.
