//! Password entry for rooms that require authentication: a small editor
//! and the decisions its keys trigger.

use vstd::prelude::*;

use crate::input::{BindingLine, EditorState, Key, KeyBindingsList};

verus! {

/// How the password popup reacted to a key.
pub enum EventResult {
    NotHandled,
    Handled,
    /// The popup is done and the surrounding view takes over again.
    ResetState,
}

/// A fresh, empty password editor.
pub fn new() -> (r: EditorState)
    ensures
        r@ == Seq::<char>::empty(),
{
    EditorState::new()
}

/// Lists the password popup's key bindings.
pub fn list_key_bindings(bindings: &mut KeyBindingsList)
    ensures
        final(bindings)@.len() == old(bindings)@.len() + 2,
        final(bindings)@.take(old(bindings)@.len() as int) == old(bindings)@,
        final(bindings)@[old(bindings)@.len() as int] matches BindingLine::Binding(k, d) && k@
            == "esc"@ && d@ == "abort"@,
        final(bindings)@[old(bindings)@.len() as int + 1] matches BindingLine::Binding(k, d) && k@
            == "enter"@ && d@ == "authenticate"@,
{
    let ghost b0 = bindings@;
    bindings.binding("esc", "abort");
    let ghost b1 = bindings@;
    bindings.binding("enter", "authenticate");
    proof {
        let b2 = bindings@;
        assert(b2.drop_last() == b1 && b1.drop_last() == b0);
        assert(b2.take(b0.len() as int) =~= b0);
        assert(b2[b0.len() as int] == b1.last());
        assert(b2[b0.len() as int + 1] == b2.last());
    }
}

/// Handles one key in the password popup: escape aborts, enter hands the
/// entered password out for an authenticate command, and other keys edit
/// the password.
pub fn handle_input_event(editor: &mut EditorState, event: Key) -> (r: (
    EventResult,
    Option<Vec<char>>,
))
    ensures
        match event {
            Key::Esc => r.0 matches EventResult::ResetState && r.1 is None
                && *final(editor) == *old(editor),
            Key::Enter => r.0 matches EventResult::ResetState && r.1 matches Some(pw) && pw@
                == old(editor)@ && *final(editor) == *old(editor),
            Key::Char(c) => r.0 matches EventResult::Handled && r.1 is None && final(editor)@
                == old(editor)@.push(c),
            Key::Backspace => r.0 matches EventResult::Handled && r.1 is None && final(editor)@
                == (if old(editor)@.len() == 0 {
                old(editor)@
            } else {
                old(editor)@.drop_last()
            }),
            _ => r.0 matches EventResult::NotHandled && r.1 is None
                && *final(editor) == *old(editor),
        },
{
    match event {
        Key::Esc => (EventResult::ResetState, None),
        Key::Enter => {
            let pw = editor.text();
            (EventResult::ResetState, Some(pw))
        },
        Key::Char(c) => {
            editor.push_char(c);
            (EventResult::Handled, None)
        },
        Key::Backspace => {
            editor.backspace();
            (EventResult::Handled, None)
        },
        _ => (EventResult::NotHandled, None),
    }
}

} // verus!
