use rem::editor::Editor;
use rem::rpc::{RpcRequest, RpcResponse};

fn render(e: &Editor) -> (String, usize, usize, String) {
    assert!(e.is_renderable());
    match e.broadcast_state() {
        RpcResponse::Render { text, cursor_x, cursor_y, mode_name } => (text, cursor_x, cursor_y, mode_name),
        RpcResponse::Shutdown => panic!("expected a render"),
    }
}

fn type_str(e: &mut Editor, s: &str) {
    for c in s.chars() {
        let req = if c == '\n' { RpcRequest::Enter } else { RpcRequest::Char(c) };
        assert!(e.handle_request(req));
    }
}

#[test]
fn initial_state() {
    let e = Editor::new("hello".to_string());
    assert_eq!(render(&e), ("hello".to_string(), 0, 0, "NORMAL".to_string()));
}

#[test]
fn typing_in_insert_mode() {
    let mut e = Editor::new(String::new());
    assert!(e.handle_request(RpcRequest::Char('i')));
    assert_eq!(render(&e).3, "INSERT");
    type_str(&mut e, "ab\ncd");
    assert_eq!(render(&e), ("ab\ncd".to_string(), 2, 1, "INSERT".to_string()));
}

#[test]
fn typing_in_the_middle() {
    let mut e = Editor::new("ace".to_string());
    assert!(e.handle_request(RpcRequest::Char('l')));
    assert!(e.handle_request(RpcRequest::Char('i')));
    type_str(&mut e, "b");
    assert_eq!(render(&e), ("abce".to_string(), 2, 0, "INSERT".to_string()));
}

#[test]
fn normal_mode_motions_stop_at_the_ends() {
    let mut e = Editor::new("ab".to_string());
    assert!(e.handle_request(RpcRequest::Char('h')));
    assert_eq!(render(&e).1, 0);
    assert!(e.handle_request(RpcRequest::Char('l')));
    assert!(e.handle_request(RpcRequest::Char('l')));
    assert!(e.handle_request(RpcRequest::Char('l')));
    assert_eq!(render(&e).1, 2);
    assert!(e.handle_request(RpcRequest::Char('h')));
    assert_eq!(render(&e).1, 1);
    // Other keys in normal mode leave the text alone.
    assert!(e.handle_request(RpcRequest::Char('x')));
    assert_eq!(render(&e).0, "ab");
}

#[test]
fn backspace_deletes_before_the_cursor() {
    let mut e = Editor::new(String::new());
    assert!(e.handle_request(RpcRequest::Char('i')));
    type_str(&mut e, "abc");
    assert!(e.handle_request(RpcRequest::Backspace));
    assert_eq!(render(&e), ("ab".to_string(), 2, 0, "INSERT".to_string()));
    assert!(e.handle_request(RpcRequest::Backspace));
    assert!(e.handle_request(RpcRequest::Backspace));
    assert!(e.handle_request(RpcRequest::Backspace));
    assert_eq!(render(&e), (String::new(), 0, 0, "INSERT".to_string()));
}

#[test]
fn backspace_over_a_newline_joins_lines() {
    let mut e = Editor::new(String::new());
    assert!(e.handle_request(RpcRequest::Char('i')));
    type_str(&mut e, "ab\n");
    assert_eq!(render(&e).2, 1);
    assert!(e.handle_request(RpcRequest::Backspace));
    assert_eq!(render(&e), ("ab".to_string(), 2, 0, "INSERT".to_string()));
}

#[test]
fn escape_and_visual_mode() {
    let mut e = Editor::new("xy".to_string());
    assert!(e.handle_request(RpcRequest::Char('i')));
    assert!(e.handle_request(RpcRequest::Esc));
    assert_eq!(render(&e).3, "NORMAL");
    assert!(e.handle_request(RpcRequest::Char('v')));
    assert_eq!(render(&e).3, "VISUAL");
    assert!(e.handle_request(RpcRequest::Char('l')));
    assert_eq!(render(&e), ("xy".to_string(), 0, 0, "VISUAL".to_string()));
    assert!(e.handle_request(RpcRequest::Esc));
    assert_eq!(render(&e).3, "NORMAL");
}

#[test]
fn quit_stops_in_every_mode() {
    let mut e = Editor::new("q".to_string());
    assert!(!e.handle_request(RpcRequest::Quit));
    assert!(e.handle_request(RpcRequest::Char('i')));
    assert!(!e.handle_request(RpcRequest::Quit));
    assert_eq!(render(&e).0, "q");
}

#[test]
fn cursor_inside_a_multibyte_character_cannot_render() {
    let mut e = Editor::new("é".to_string());
    assert!(e.handle_request(RpcRequest::Char('l')));
    assert!(!e.is_renderable());
    assert!(e.handle_request(RpcRequest::Char('l')));
    assert!(e.is_renderable());
    assert_eq!(render(&e).1, 2);
}

#[test]
fn backspace_right_after_typing_restores_text_and_cursor() {
    let mut e = Editor::new("hello".to_string());
    assert!(e.handle_request(RpcRequest::Char('l')));
    assert!(e.handle_request(RpcRequest::Char('l')));
    let before = render(&e);
    assert!(e.handle_request(RpcRequest::Char('i')));
    type_str(&mut e, "X");
    assert_eq!(render(&e).0, "heXllo");
    assert!(e.handle_request(RpcRequest::Backspace));
    let after = render(&e);
    assert_eq!((after.0, after.1, after.2), (before.0, before.1, before.2));
}

#[test]
fn ascii_session_stays_renderable() {
    let mut e = Editor::new("abc\ndef".to_string());
    let script = [
        RpcRequest::Char('l'),
        RpcRequest::Char('l'),
        RpcRequest::Char('i'),
        RpcRequest::Char('Z'),
        RpcRequest::Enter,
        RpcRequest::Backspace,
        RpcRequest::Esc,
        RpcRequest::Char('h'),
        RpcRequest::Char('h'),
        RpcRequest::Char('h'),
        RpcRequest::Char('v'),
        RpcRequest::Esc,
        RpcRequest::Char('i'),
        RpcRequest::Backspace,
        RpcRequest::Char('q'),
    ];
    for req in script {
        assert!(e.handle_request(req));
        assert!(e.is_renderable());
    }
    assert_eq!(render(&e), ("qabZc\ndef".to_string(), 1, 0, "INSERT".to_string()));
}

#[test]
fn cursor_column_counts_bytes_since_the_last_line_feed() {
    let mut e = Editor::new(String::new());
    assert!(e.handle_request(RpcRequest::Char('i')));
    type_str(&mut e, "one\ntwo\n\nfour");
    assert_eq!(render(&e), ("one\ntwo\n\nfour".to_string(), 4, 3, "INSERT".to_string()));
    assert!(e.handle_request(RpcRequest::Esc));
    for _ in 0..4 {
        assert!(e.handle_request(RpcRequest::Char('h')));
    }
    assert_eq!((render(&e).1, render(&e).2), (0, 3));
    assert!(e.handle_request(RpcRequest::Char('h')));
    assert_eq!((render(&e).1, render(&e).2), (0, 2));
}
