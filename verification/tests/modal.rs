use rem::modal::{EditorAction, Mode, StateMachine};
use rem::rpc::RpcRequest;

fn mode_name(m: &Mode) -> &'static str {
    match m {
        Mode::Normal => "normal",
        Mode::Insert => "insert",
        Mode::Visual => "visual",
    }
}

#[test]
fn starts_in_normal_mode() {
    let sm = StateMachine::new();
    assert_eq!(mode_name(&sm.current_mode), "normal");
}

#[test]
fn normal_mode_keys() {
    let mut sm = StateMachine::new();
    assert!(matches!(sm.process_input(RpcRequest::Char('h')), EditorAction::MoveLeft));
    assert!(matches!(sm.process_input(RpcRequest::Char('l')), EditorAction::MoveRight));
    assert!(matches!(sm.process_input(RpcRequest::Char('x')), EditorAction::DoNothing));
    assert!(matches!(sm.process_input(RpcRequest::Enter), EditorAction::DoNothing));
    assert!(matches!(sm.process_input(RpcRequest::Backspace), EditorAction::DoNothing));
    assert!(matches!(sm.process_input(RpcRequest::Esc), EditorAction::DoNothing));
    assert_eq!(mode_name(&sm.current_mode), "normal");
    assert!(matches!(sm.process_input(RpcRequest::Quit), EditorAction::Quit));
}

#[test]
fn i_enters_insert_mode_and_esc_leaves_it() {
    let mut sm = StateMachine::new();
    assert!(matches!(sm.process_input(RpcRequest::Char('i')), EditorAction::ChangeMode(Mode::Insert)));
    assert_eq!(mode_name(&sm.current_mode), "insert");
    match sm.process_input(RpcRequest::Char('h')) {
        EditorAction::InsertText(t) => assert_eq!(t, "h"),
        _ => panic!("expected an insertion"),
    }
    match sm.process_input(RpcRequest::Enter) {
        EditorAction::InsertText(t) => assert_eq!(t, "\n"),
        _ => panic!("expected an insertion"),
    }
    assert!(matches!(sm.process_input(RpcRequest::Backspace), EditorAction::DeleteBackwards));
    assert!(matches!(sm.process_input(RpcRequest::Quit), EditorAction::Quit));
    assert_eq!(mode_name(&sm.current_mode), "insert");
    assert!(matches!(sm.process_input(RpcRequest::Esc), EditorAction::ChangeMode(Mode::Normal)));
    assert_eq!(mode_name(&sm.current_mode), "normal");
}

#[test]
fn v_enters_visual_mode_and_esc_leaves_it() {
    let mut sm = StateMachine::new();
    assert!(matches!(sm.process_input(RpcRequest::Char('v')), EditorAction::ChangeMode(Mode::Visual)));
    assert_eq!(mode_name(&sm.current_mode), "visual");
    assert!(matches!(sm.process_input(RpcRequest::Char('h')), EditorAction::DoNothing));
    assert!(matches!(sm.process_input(RpcRequest::Quit), EditorAction::Quit));
    assert_eq!(mode_name(&sm.current_mode), "visual");
    assert!(matches!(sm.process_input(RpcRequest::Esc), EditorAction::ChangeMode(Mode::Normal)));
    assert_eq!(mode_name(&sm.current_mode), "normal");
}

#[test]
fn per_mode_handlers_ignore_the_current_mode() {
    let mut sm = StateMachine::new();
    sm.current_mode = Mode::Insert;
    assert!(matches!(sm.process_normal(RpcRequest::Char('h')), EditorAction::MoveLeft));
    assert_eq!(mode_name(&sm.current_mode), "insert");
    assert!(matches!(sm.process_visual(RpcRequest::Esc), EditorAction::ChangeMode(Mode::Normal)));
    assert_eq!(mode_name(&sm.current_mode), "normal");
    match sm.process_insert(RpcRequest::Char('é')) {
        EditorAction::InsertText(t) => assert_eq!(t, "é"),
        _ => panic!("expected an insertion"),
    }
    assert_eq!(mode_name(&sm.current_mode), "normal");
}
