//! The tree view: cursor movement, composition, and key bindings.

use cove::auth;
use cove::auth::EventResult;
use cove::config::{Config, Euph, EuphRoom, RoomsSortOrder};
use cove::input::{BindingLine, EditorState, Key, KeyBindingsList};
use cove::rooms::{room_char, Order};
use cove::tree::{Cursor, InnerTreeViewState, Reaction};
use cove::vault::{Archive, ArchivedMsg, Span};

fn msg(id: u64, parent: Option<u64>) -> ArchivedMsg {
    ArchivedMsg {
        id,
        parent,
        time: id * 10,
        sender: String::from("someone"),
        content: format!("message {id}"),
        seen: false,
    }
}

fn forest_view() -> InnerTreeViewState<ArchivedMsg, Archive> {
    let mut a = Archive::new();
    a.add_msgs(
        vec![
            msg(1, None),
            msg(2, Some(1)),
            msg(3, Some(1)),
            msg(4, Some(3)),
            msg(5, None),
        ],
        Some(Span { lo: 1, hi: 5 }),
    );
    InnerTreeViewState::new(a)
}

#[test]
fn composition_echo() {
    let mut view = forest_view();
    view.cursor = Cursor::Msg(3);

    // A normal reply to a nested message joins its thread.
    let r = view.handle_key_event(24, Key::Char('r'), true);
    assert!(matches!(r, Reaction::Handled));
    assert_eq!(
        view.cursor,
        Cursor::Editor { coming_from: Some(3), parent: Some(1) }
    );

    let _ = view.handle_key_event(24, Key::Char('h'), true);
    let _ = view.handle_key_event(24, Key::Char('i'), true);
    let r = view.handle_key_event(24, Key::Enter, true);
    match r {
        Reaction::Composed { parent, content } => {
            assert_eq!(parent, Some(1));
            assert_eq!(content, vec!['h', 'i']);
        },
        _ => panic!("enter with content composes"),
    }
    assert_eq!(
        view.cursor,
        Cursor::Pseudo { coming_from: Some(3), parent: Some(1) }
    );

    // The server echoes the message under id 7.
    view.sent(Some(7));
    assert_eq!(view.cursor, Cursor::Msg(7));
    assert!(view.editor.text().is_empty());
}

#[test]
fn failed_send_returns_to_origin() {
    let mut view = forest_view();
    view.cursor = Cursor::Msg(3);
    let _ = view.handle_key_event(24, Key::Char('R'), true);
    assert_eq!(
        view.cursor,
        Cursor::Editor { coming_from: Some(3), parent: Some(3) }
    );
    let _ = view.handle_key_event(24, Key::Char('x'), true);
    let _ = view.handle_key_event(24, Key::Enter, true);
    view.sent(None);
    assert_eq!(view.cursor, Cursor::Msg(3));
}

#[test]
fn new_thread_from_bottom() {
    let mut view = forest_view();
    let r = view.handle_key_event(24, Key::Char('t'), true);
    assert!(matches!(r, Reaction::Handled));
    assert_eq!(view.cursor, Cursor::Editor { coming_from: None, parent: None });
    let _ = view.handle_key_event(24, Key::Esc, true);
    assert_eq!(view.cursor, Cursor::Bottom);
}

#[test]
fn blank_content_is_not_sent() {
    let mut view = forest_view();
    view.cursor = Cursor::Msg(3);
    let _ = view.handle_key_event(24, Key::Char('r'), true);
    let _ = view.handle_key_event(24, Key::Char(' '), true);
    let r = view.handle_key_event(24, Key::Enter, true);
    assert!(matches!(r, Reaction::Handled));
    assert!(matches!(view.cursor, Cursor::Editor { .. }));
}

#[test]
fn chronological_movement() {
    let mut view = forest_view();
    // From the bottom, older jumps to the newest message.
    view.move_cursor_older();
    assert_eq!(view.cursor, Cursor::Msg(5));
    view.move_cursor_older();
    assert_eq!(view.cursor, Cursor::Msg(4));
    view.move_cursor_newer();
    assert_eq!(view.cursor, Cursor::Msg(5));
    // Past the newest message lies the bottom.
    view.move_cursor_newer();
    assert_eq!(view.cursor, Cursor::Bottom);
}

#[test]
fn layout_movement() {
    let mut view = forest_view();
    view.cursor = Cursor::Msg(1);
    // Down enters the first child.
    view.move_cursor_down();
    assert_eq!(view.cursor, Cursor::Msg(2));
    view.move_cursor_down();
    assert_eq!(view.cursor, Cursor::Msg(3));
    view.move_cursor_down();
    assert_eq!(view.cursor, Cursor::Msg(4));
    // Past the last message of a tree lies the next tree's root.
    view.move_cursor_down();
    assert_eq!(view.cursor, Cursor::Msg(5));
    view.move_cursor_down();
    assert_eq!(view.cursor, Cursor::Bottom);
    // Up from the bottom lands on the end of the last tree.
    view.move_cursor_up();
    assert_eq!(view.cursor, Cursor::Msg(5));
    // Up from a root lands on the end of the previous tree.
    view.move_cursor_up();
    assert_eq!(view.cursor, Cursor::Msg(4));
    view.move_cursor_up();
    assert_eq!(view.cursor, Cursor::Msg(3));
    view.move_cursor_up();
    assert_eq!(view.cursor, Cursor::Msg(2));
    view.move_cursor_up();
    assert_eq!(view.cursor, Cursor::Msg(1));
}

#[test]
fn up_enters_the_previous_siblings_subtree() {
    // One tree: 1 with children 2 and 5, where 2 has children 3 and 4.
    let mut a = Archive::new();
    a.add_msgs(
        vec![
            msg(1, None),
            msg(2, Some(1)),
            msg(3, Some(2)),
            msg(4, Some(2)),
            msg(5, Some(1)),
        ],
        None,
    );
    let mut view = InnerTreeViewState::new(a);
    view.cursor = Cursor::Msg(5);
    // Up from 5 lands on the end of sibling 2's subtree: its last child 4.
    view.move_cursor_up();
    assert_eq!(view.cursor, Cursor::Msg(4));
    view.move_cursor_down();
    assert_eq!(view.cursor, Cursor::Msg(5));
}

#[test]
fn top_and_bottom() {
    let mut view = forest_view();
    view.move_cursor_to_top();
    assert_eq!(view.cursor, Cursor::Msg(1));
    view.move_cursor_to_bottom();
    assert_eq!(view.cursor, Cursor::Bottom);
}

#[test]
fn scrolling_keeps_cursor() {
    let mut view = forest_view();
    view.cursor = Cursor::Msg(2);
    let handled = view.handle_movement_key_event(24, Key::Ctrl('u'));
    assert!(handled);
    assert_eq!(view.cursor, Cursor::Msg(2));
    assert_eq!(view.scroll, 12);
    let handled = view.handle_movement_key_event(24, Key::Ctrl('d'));
    assert!(handled);
    assert_eq!(view.scroll, 0);
}

#[test]
fn key_bindings_listing() {
    let view = forest_view();
    let mut bindings = KeyBindingsList::new();
    view.list_key_bindings(&mut bindings, true);
    // A heading, seven movement rows, five composition rows.
    assert_eq!(bindings.len(), 13);
    assert!(matches!(&bindings.lines()[0], BindingLine::Heading(t) if t == "Chat"));
    assert!(
        matches!(&bindings.lines()[1], BindingLine::Binding(k, d) if k == "j/k, ↓/↑" && d == "move cursor up/down")
    );
    let mut bindings = KeyBindingsList::new();
    view.list_key_bindings(&mut bindings, false);
    assert_eq!(bindings.len(), 8);
    let mut bindings = KeyBindingsList::new();
    view.list_movement_key_bindings(&mut bindings);
    assert_eq!(bindings.len(), 7);
    let mut bindings = KeyBindingsList::new();
    view.list_edit_initiating_key_bindings(&mut bindings);
    assert_eq!(bindings.len(), 5);
    let mut bindings = KeyBindingsList::new();
    view.list_normal_key_bindings(&mut bindings, true);
    assert_eq!(bindings.len(), 12);
}

#[test]
fn auth_popup() {
    let mut editor = auth::new();
    let mut bindings = KeyBindingsList::new();
    auth::list_key_bindings(&mut bindings);
    assert_eq!(bindings.len(), 2);

    let (r, pw) = auth::handle_input_event(&mut editor, Key::Char('s'));
    assert!(matches!(r, EventResult::Handled));
    assert!(pw.is_none());
    let (_, _) = auth::handle_input_event(&mut editor, Key::Char('w'));
    let (_, _) = auth::handle_input_event(&mut editor, Key::Backspace);
    let (r, pw) = auth::handle_input_event(&mut editor, Key::Enter);
    assert!(matches!(r, EventResult::ResetState));
    assert_eq!(pw.expect("enter hands the password out"), vec!['s']);
    let (r, pw) = auth::handle_input_event(&mut editor, Key::Esc);
    assert!(matches!(r, EventResult::ResetState));
    assert!(pw.is_none());
}

#[test]
fn editor_state_edits() {
    let mut editor = EditorState::new();
    editor.push_char('a');
    editor.push_char('b');
    assert_eq!(editor.text(), vec!['a', 'b']);
    editor.backspace();
    assert_eq!(editor.text(), vec!['a']);
    assert!(!editor.blank());
    editor.clear();
    assert!(editor.blank());
    editor.push_char(' ');
    assert!(editor.blank());
}

#[test]
fn config_room_lookup() {
    let mut config = Config::default();
    config.euph = Euph {
        rooms: vec![(
            String::from("test"),
            EuphRoom {
                autojoin: true,
                username: Some(String::from("u")),
                force_username: false,
                password: None,
            },
        )],
    };
    let room = config.euph_room(&String::from("test"));
    assert!(room.autojoin);
    assert_eq!(room.username.as_deref(), Some("u"));
    let missing = config.euph_room(&String::from("absent"));
    assert!(!missing.autojoin);
    assert!(missing.username.is_none());
}

#[test]
fn rooms_order_and_name_chars() {
    assert_eq!(
        Order::from_rooms_sort_order(RoomsSortOrder::Alphabet),
        Order::Alphabet
    );
    assert_eq!(
        Order::from_rooms_sort_order(RoomsSortOrder::Importance),
        Order::Importance
    );
    assert!(room_char('a') && room_char('Z') && room_char('0') && room_char('_'));
    assert!(!room_char('-') && !room_char(' ') && !room_char('é'));
}
