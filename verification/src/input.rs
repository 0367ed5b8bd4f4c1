//! Plain input values: the keys the chat view reacts to, the listing of
//! key bindings shown to the user, and the text editor state used while
//! composing a message.

use vstd::prelude::*;

verus! {

/// One key press, already decoded from the terminal.
#[derive(Clone, Copy, Debug, PartialEq, Eq, Structural)]
pub enum Key {
    Char(char),
    Ctrl(char),
    Enter,
    Esc,
    Backspace,
    Up,
    Down,
    Left,
    Right,
    Home,
    End,
}

/// One row in the key binding listing.
pub enum BindingLine {
    Heading(String),
    Binding(String, String),
    /// A continuation line under the previous binding.
    Ctd(String),
    Empty,
}

/// The key binding listing a view fills row by row.
pub struct KeyBindingsList {
    lines: Vec<BindingLine>,
}

impl View for KeyBindingsList {
    type V = Seq<BindingLine>;

    closed spec fn view(&self) -> Seq<BindingLine> {
        self.lines@
    }
}

impl KeyBindingsList {
    pub fn new() -> (r: Self)
        ensures
            r@ == Seq::<BindingLine>::empty(),
    {
        KeyBindingsList { lines: Vec::new() }
    }

    pub fn heading(&mut self, text: &str)
        ensures
            final(self)@.len() == old(self)@.len() + 1,
            final(self)@.drop_last() == old(self)@,
            final(self)@.last() matches BindingLine::Heading(t) && t@ == text@,
    {
        self.lines.push(BindingLine::Heading(text.to_owned()));
        proof {
            assert(self.lines@.drop_last() =~= old(self)@);
        }
    }

    pub fn binding(&mut self, keys: &str, desc: &str)
        ensures
            final(self)@.len() == old(self)@.len() + 1,
            final(self)@.drop_last() == old(self)@,
            final(self)@.last() matches BindingLine::Binding(k, d) && k@ == keys@ && d@ == desc@,
    {
        self.lines.push(BindingLine::Binding(keys.to_owned(), desc.to_owned()));
        proof {
            assert(self.lines@.drop_last() =~= old(self)@);
        }
    }

    pub fn binding_ctd(&mut self, desc: &str)
        ensures
            final(self)@.len() == old(self)@.len() + 1,
            final(self)@.drop_last() == old(self)@,
            final(self)@.last() matches BindingLine::Ctd(d) && d@ == desc@,
    {
        self.lines.push(BindingLine::Ctd(desc.to_owned()));
        proof {
            assert(self.lines@.drop_last() =~= old(self)@);
        }
    }

    pub fn empty(&mut self)
        ensures
            final(self)@.len() == old(self)@.len() + 1,
            final(self)@.drop_last() == old(self)@,
            final(self)@.last() matches BindingLine::Empty,
    {
        self.lines.push(BindingLine::Empty);
        proof {
            assert(self.lines@.drop_last() =~= old(self)@);
        }
    }

    pub fn len(&self) -> (r: usize)
        ensures
            r == self@.len(),
    {
        self.lines.len()
    }

    pub fn lines(&self) -> (r: &Vec<BindingLine>)
        ensures
            r@ == self@,
    {
        &self.lines
    }
}

/// Whitespace as far as blank message detection is concerned.
pub open spec fn is_space(c: char) -> bool {
    c == ' ' || c == '\t' || c == '\n' || c == '\r'
}

/// A content that consists of whitespace only is blank and is not sent.
pub open spec fn is_blank(s: Seq<char>) -> bool {
    forall|i: int| 0 <= i < s.len() ==> is_space(#[trigger] s[i])
}

/// The text being composed, held as plain characters.
pub struct EditorState {
    content: Vec<char>,
}

impl View for EditorState {
    type V = Seq<char>;

    closed spec fn view(&self) -> Seq<char> {
        self.content@
    }
}

impl EditorState {
    pub fn new() -> (r: Self)
        ensures
            r@ == Seq::<char>::empty(),
    {
        EditorState { content: Vec::new() }
    }

    /// A copy of the composed text.
    pub fn text(&self) -> (r: Vec<char>)
        ensures
            r@ == self@,
    {
        let n = self.content.len();
        let mut r: Vec<char> = Vec::new();
        let mut i: usize = 0;
        while i < n
            invariant
                n == self@.len(),
                i <= n,
                r@ == self@.take(i as int),
            decreases n - i,
        {
            r.push(self.content[i]);
            assert(r@ == self@.take(i + 1 as int));
            i += 1;
        }
        proof {
            assert(self@.take(n as int) =~= self@);
        }
        r
    }

    pub fn push_char(&mut self, c: char)
        ensures
            final(self)@ == old(self)@.push(c),
    {
        self.content.push(c);
    }

    pub fn backspace(&mut self)
        ensures
            final(self)@ == (if old(self)@.len() == 0 {
                old(self)@
            } else {
                old(self)@.drop_last()
            }),
    {
        if self.content.len() > 0 {
            self.content.pop();
        }
    }

    pub fn clear(&mut self)
        ensures
            final(self)@ == Seq::<char>::empty(),
    {
        self.content = Vec::new();
    }

    /// Whether the composed text is all whitespace.
    pub fn blank(&self) -> (r: bool)
        ensures
            r == is_blank(self@),
    {
        let n = self.content.len();
        let mut i: usize = 0;
        while i < n
            invariant
                n == self@.len(),
                i <= n,
                forall|k: int| 0 <= k < i ==> is_space(#[trigger] self@[k]),
            decreases n - i,
        {
            let c = self.content[i];
            if !(c == ' ' || c == '\t' || c == '\n' || c == '\r') {
                return false;
            }
            i += 1;
        }
        true
    }
}

} // verus!
