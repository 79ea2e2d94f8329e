//! Turns key presses into `App` navigation calls or high-level
//! `Action`s handled by the main loop.

use vstd::prelude::*;
use crate::app::{App, Mode};

verus! {

/// The keys the browser reacts to; every other key is `Other`.
#[derive(Debug, Clone, Copy, PartialEq, Eq, Structural)]
pub enum Key {
    Char(char),
    Up,
    Down,
    Left,
    Right,
    Enter,
    Backspace,
    Esc,
    Delete,
    Other,
}

/// What the main loop has to do after a key press.
#[derive(Debug, Clone, Copy, PartialEq, Eq, Structural)]
pub enum Action {
    Nothing,
    Quit,
    DeleteConfirmed,
    Refresh,
}

/// The keys that quit while browsing.
pub open spec fn is_quit_key(key: Key) -> bool {
    key == Key::Char('q') || key == Key::Char('Q')
}

/// The keys that confirm a delete.
pub open spec fn is_confirm_key(key: Key) -> bool {
    key == Key::Char('y') || key == Key::Char('Y')
}

/// The keys that cancel a delete.
pub open spec fn is_cancel_key(key: Key) -> bool {
    key == Key::Char('n') || key == Key::Char('N') || key == Key::Esc
}

/// The keys that zoom into the selection.
pub open spec fn is_zoom_in_key(key: Key) -> bool {
    key == Key::Enter || key == Key::Right
}

/// The keys that zoom out one level.
pub open spec fn is_zoom_out_key(key: Key) -> bool {
    key == Key::Backspace || key == Key::Esc || key == Key::Left
}

/// The keys that ask to delete the selection.
pub open spec fn is_delete_key(key: Key) -> bool {
    key == Key::Char('x') || key == Key::Delete
}

/// The keys that ask for a rescan of the view.
pub open spec fn is_refresh_key(key: Key) -> bool {
    key == Key::Char('r') || key == Key::Char('R')
}

/// `new` is `old` with only the mode changed, to browsing.
pub open spec fn back_to_browsing(old: App, new: App) -> bool {
    &&& new.mode is Browsing
    &&& new.root == old.root
    &&& new.zoom_path == old.zoom_path
    &&& new.selection == old.selection
    &&& new.progress == old.progress
    &&& new.scan_errors == old.scan_errors
    &&& new.disk_space == old.disk_space
}

/// A key press can be handled without overflow in the sibling move it asks
/// for.
pub open spec fn key_can_be_handled(app: App, key: Key) -> bool {
    app.mode is Browsing ==> {
        &&& key == Key::Up ==> app.can_move_sibling(-1i32)
        &&& key == Key::Down ==> app.can_move_sibling(1i32)
    }
}

/// Whether `handle_key` can take this key press (see `key_can_be_handled`).
pub fn can_handle_key(app: &App, key: Key) -> (r: bool)
    ensures
        r == key_can_be_handled(*app, key),
{
    match app.mode {
        Mode::Browsing => match key {
            Key::Up => app.move_sibling_fits(-1),
            Key::Down => app.move_sibling_fits(1),
            _ => true,
        },
        _ => true,
    }
}

/// Handle one key press: navigate, ask for or answer a delete
/// confirmation, or tell the main loop to quit, delete or refresh.
pub fn handle_key(app: &mut App, key: Key) -> (r: Action)
    requires
        key_can_be_handled(*old(app), key),
    ensures
        r == Action::DeleteConfirmed ==> old(app).mode is ConfirmDelete && is_confirm_key(key),
        final(app).mode is ConfirmDelete ==> old(app).mode is ConfirmDelete || old(app).selected_view() is Some,
        old(app).mode is ConfirmDelete ==> {
            if is_confirm_key(key) {
                &&& r == Action::DeleteConfirmed
                &&& back_to_browsing(*old(app), *final(app))
                &&& final(app).status == old(app).status
            } else if is_cancel_key(key) {
                &&& r == Action::Nothing
                &&& back_to_browsing(*old(app), *final(app))
                &&& final(app).status matches Some(s) && s@ == "Delete cancelled"@
            } else {
                r == Action::Nothing && *final(app) == *old(app)
            }
        },
        old(app).mode is Browsing ==> {
            if is_quit_key(key) {
                r == Action::Quit && *final(app) == *old(app)
            } else if key == Key::Up {
                r == Action::Nothing && App::navigated(
                    *old(app),
                    *final(app),
                    (old(app).zoom_path@, old(app).moved_selection(-1i32)),
                )
            } else if key == Key::Down {
                r == Action::Nothing && App::navigated(
                    *old(app),
                    *final(app),
                    (old(app).zoom_path@, old(app).moved_selection(1i32)),
                )
            } else if is_zoom_in_key(key) {
                r == Action::Nothing && App::navigated(*old(app), *final(app), old(app).zoom_in_nav())
            } else if is_zoom_out_key(key) {
                r == Action::Nothing && App::navigated(*old(app), *final(app), old(app).zoom_out_nav())
            } else if is_delete_key(key) {
                &&& r == Action::Nothing
                &&& final(app).root == old(app).root
                &&& final(app).zoom_path == old(app).zoom_path
                &&& final(app).selection == old(app).selection
                &&& final(app).progress == old(app).progress
                &&& final(app).scan_errors == old(app).scan_errors
                &&& final(app).disk_space == old(app).disk_space
                &&& if old(app).selected_view() is Some {
                    final(app).mode is ConfirmDelete && final(app).status == old(app).status
                } else {
                    &&& final(app).mode is Browsing
                    &&& final(app).status matches Some(s) && s@ == "Nothing selected"@
                }
            } else if is_refresh_key(key) {
                r == Action::Refresh && *final(app) == *old(app)
            } else {
                r == Action::Nothing && *final(app) == *old(app)
            }
        },
        (old(app).mode is Scanning || old(app).mode is Error) ==> {
            &&& r == (if key == Key::Char('q') {
                Action::Quit
            } else {
                Action::Nothing
            })
            &&& *final(app) == *old(app)
        },
{
    match app.mode {
        Mode::ConfirmDelete => match key {
            Key::Char('y') | Key::Char('Y') => {
                app.mode = Mode::Browsing;
                return Action::DeleteConfirmed;
            },
            Key::Char('n') | Key::Char('N') | Key::Esc => {
                app.mode = Mode::Browsing;
                app.status = Some("Delete cancelled".to_owned());
            },
            _ => {},
        },
        Mode::Browsing => match key {
            Key::Char('q') | Key::Char('Q') => return Action::Quit,
            Key::Up => app.move_sibling(-1),
            Key::Down => app.move_sibling(1),
            Key::Enter | Key::Right => app.zoom_in(),
            Key::Backspace | Key::Esc | Key::Left => app.zoom_out(),
            Key::Char('x') | Key::Delete => {
                if app.selected_node().is_some() {
                    app.mode = Mode::ConfirmDelete;
                } else {
                    app.status = Some("Nothing selected".to_owned());
                }
            },
            Key::Char('r') | Key::Char('R') => return Action::Refresh,
            _ => {},
        },
        Mode::Scanning | Mode::Error(_) => {
            if let Key::Char('q') = key {
                return Action::Quit;
            }
        },
    }
    Action::Nothing
}

} // verus!
