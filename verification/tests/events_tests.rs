use disk_analyzer::app::{App, DiskSpace, Mode};
use disk_analyzer::events::{can_handle_key, handle_key, Action, Key};
use disk_analyzer::model::Node;

fn app() -> App {
    let root = Node::new_dir(
        "root".to_string(),
        vec![
            Node::new_dir("root/docs".to_string(), vec![Node::new_file("root/docs/a".to_string(), 10)]),
            Node::new_file("root/b".to_string(), 5),
        ],
    );
    App::new(root, DiskSpace::default())
}

#[test]
fn q_quits_while_browsing_scanning_or_failed() {
    let mut a = app();
    assert_eq!(handle_key(&mut a, Key::Char('q')), Action::Quit);
    assert_eq!(handle_key(&mut a, Key::Char('Q')), Action::Quit);
    a.mode = Mode::Scanning;
    assert_eq!(handle_key(&mut a, Key::Char('q')), Action::Quit);
    assert_eq!(handle_key(&mut a, Key::Char('Q')), Action::Nothing);
    a.mode = Mode::Error("boom".to_string());
    assert_eq!(handle_key(&mut a, Key::Char('q')), Action::Quit);
    assert_eq!(handle_key(&mut a, Key::Down), Action::Nothing);
}

#[test]
fn arrows_move_and_zoom() {
    let mut a = app();
    assert_eq!(handle_key(&mut a, Key::Down), Action::Nothing);
    assert_eq!(a.selection, vec![1]);
    assert_eq!(handle_key(&mut a, Key::Up), Action::Nothing);
    assert_eq!(a.selection, vec![0]);
    assert_eq!(handle_key(&mut a, Key::Right), Action::Nothing);
    assert_eq!(a.zoom_path, vec![0]);
    assert_eq!(handle_key(&mut a, Key::Esc), Action::Nothing);
    assert!(a.zoom_path.is_empty());
    a.selection = vec![0];
    handle_key(&mut a, Key::Enter);
    assert_eq!(a.zoom_path, vec![0]);
    handle_key(&mut a, Key::Backspace);
    assert!(a.zoom_path.is_empty());
    a.selection = vec![0];
    handle_key(&mut a, Key::Enter);
    handle_key(&mut a, Key::Left);
    assert!(a.zoom_path.is_empty());
}

#[test]
fn delete_asks_for_confirmation_only_with_a_selection() {
    let mut a = app();
    assert_eq!(handle_key(&mut a, Key::Char('x')), Action::Nothing);
    assert!(matches!(a.mode, Mode::Browsing));
    assert_eq!(a.status.as_deref(), Some("Nothing selected"));
    a.selection = vec![1];
    assert_eq!(handle_key(&mut a, Key::Delete), Action::Nothing);
    assert!(matches!(a.mode, Mode::ConfirmDelete));
}

#[test]
fn confirm_and_cancel_delete() {
    let mut a = app();
    a.selection = vec![1];
    handle_key(&mut a, Key::Char('x'));
    assert_eq!(handle_key(&mut a, Key::Char('z')), Action::Nothing);
    assert!(matches!(a.mode, Mode::ConfirmDelete));
    assert_eq!(handle_key(&mut a, Key::Char('Y')), Action::DeleteConfirmed);
    assert!(matches!(a.mode, Mode::Browsing));
    handle_key(&mut a, Key::Char('x'));
    assert_eq!(handle_key(&mut a, Key::Esc), Action::Nothing);
    assert!(matches!(a.mode, Mode::Browsing));
    assert_eq!(a.status.as_deref(), Some("Delete cancelled"));
    handle_key(&mut a, Key::Char('x'));
    assert_eq!(handle_key(&mut a, Key::Char('n')), Action::Nothing);
    assert!(matches!(a.mode, Mode::Browsing));
    handle_key(&mut a, Key::Char('x'));
    assert_eq!(handle_key(&mut a, Key::Char('y')), Action::DeleteConfirmed);
}

#[test]
fn r_asks_for_refresh_and_other_keys_do_nothing() {
    let mut a = app();
    assert_eq!(handle_key(&mut a, Key::Char('r')), Action::Refresh);
    assert_eq!(handle_key(&mut a, Key::Char('R')), Action::Refresh);
    assert_eq!(handle_key(&mut a, Key::Other), Action::Nothing);
    assert_eq!(handle_key(&mut a, Key::Char('y')), Action::Nothing);
    assert!(a.selection.is_empty());
}

#[test]
fn can_handle_key_guards_overflowing_moves() {
    let mut a = app();
    assert!(can_handle_key(&a, Key::Down));
    a.selection = vec![i32::MAX as usize];
    assert!(!can_handle_key(&a, Key::Down));
    assert!(can_handle_key(&a, Key::Up));
    assert!(can_handle_key(&a, Key::Char('q')));
}
