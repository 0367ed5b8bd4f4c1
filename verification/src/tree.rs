//! The tree view: a cursor over the reply forest, movement over the store
//! query surface, and the embedded editor used while composing a message.

use vstd::prelude::*;

use crate::input::{is_blank, BindingLine, EditorState, Key, KeyBindingsList};
use crate::store::{msg_wf, Msg, MsgStore, Tree};

verus! {

/// Navigation state over the forest: a real message, the space below the
/// newest message, the editor while composing, or the placeholder shown
/// after sending and before the server echoes the message back.
#[derive(Clone, Copy, Debug, PartialEq, Eq, Structural)]
pub enum Cursor {
    Bottom,
    Msg(u64),
    Editor { coming_from: Option<u64>, parent: Option<u64> },
    Pseudo { coming_from: Option<u64>, parent: Option<u64> },
}

/// A pending scroll/cursor adjustment applied on the next layout.
#[derive(Clone, Copy, Debug, PartialEq, Eq, Structural)]
pub enum Correction {
    MakeCursorVisible,
    MoveCursorToVisibleArea,
}

/// What handling one key produced.
pub enum Reaction {
    NotHandled,
    Handled,
    /// A message to send: its parent and its content.
    Composed { parent: Option<u64>, content: Vec<char> },
}

/// Whether `a` lies on the proper ancestor chain of `x` inside the store:
/// every hop goes to a stored parent with a smaller id.
pub open spec fn store_reaches<M: Msg, S: MsgStore<M>>(s: &S, x: u64, a: u64) -> bool
    decreases x,
{
    if !s.ids().contains(x) {
        false
    } else {
        match s.msg_of(x).spec_parent() {
            None => false,
            Some(p) => (p == a && s.ids().contains(a)) || (p < x && s.ids().contains(p)
                && store_reaches(s, p, a)),
        }
    }
}

/// The root that repeated parent traversal reaches from `x`: the walk
/// stops at a message without a parent, or whose parent the store does
/// not hold.
pub open spec fn store_root_of<M: Msg, S: MsgStore<M>>(s: &S, x: u64) -> u64
    decreases x,
{
    if s.ids().contains(x) && (match s.msg_of(x).spec_parent() {
        Some(p) => p < x && s.ids().contains(p),
        None => false,
    }) {
        store_root_of(s, s.msg_of(x).spec_parent()->Some_0)
    } else {
        x
    }
}

/// `y` is the greatest stored child of `x`.
pub open spec fn store_greatest_child<M: Msg, S: MsgStore<M>>(s: &S, x: u64, y: u64) -> bool {
    &&& s.ids().contains(y)
    &&& s.msg_of(y).spec_parent() == Some(x)
    &&& forall|c: u64|
        s.ids().contains(c) && (#[trigger] s.msg_of(c)).spec_parent() == Some(x) ==> c <= y
}

/// The end of the chain of greatest children below `x` in the store: the
/// message the layout shows last inside `x`'s subtree.
pub open spec fn store_last_desc<M: Msg, S: MsgStore<M>>(s: &S, x: u64) -> u64
    decreases u64::MAX - x,
{
    if exists|y: u64| store_greatest_child(s, x, y) {
        let y = choose|y: u64| store_greatest_child(s, x, y);
        if y > x {
            store_last_desc(s, y)
        } else {
            x
        }
    } else {
        x
    }
}

/// The shape the store's `path` query hands back: every segment stored,
/// consecutive parent links, and a head whose parent is absent.
pub open spec fn path_shape<M: Msg, S: MsgStore<M>>(s: &S, p: Seq<u64>) -> bool {
    &&& p.len() > 0
    &&& forall|j: int| 0 <= j < p.len() ==> s.ids().contains(#[trigger] p[j])
    &&& forall|j: int|
        0 <= j < p.len() - 1 ==> s.msg_of(#[trigger] p[j + 1]).spec_parent() == Some(p[j])
    &&& match s.msg_of(p[0]).spec_parent() {
        None => true,
        Some(q) => !s.ids().contains(q),
    }
}

/// Every proper prefix segment of a path is an ancestor of its target.
proof fn lemma_path_anc<M: Msg, S: MsgStore<M>>(s: &S, p: Seq<u64>, k: int)
    requires
        s.inv(),
        path_shape(s, p),
        0 <= k < p.len(),
    ensures
        k == p.len() - 1 || store_reaches(s, p.last(), p[k]),
    decreases p.len(),
{
    s.inv_facts();
    let n = p.len() as int;
    if k < n - 1 {
        let q = p.take(n - 1);
        assert(path_shape(s, q)) by {
            assert forall|j: int| 0 <= j < q.len() - 1 implies s.msg_of(
                #[trigger] q[j + 1],
            ).spec_parent() == Some(q[j]) by {
                assert(s.msg_of(p[j + 1]).spec_parent() == Some(p[j]));
            }
        }
        assert(s.msg_of(p[(n - 2) + 1]).spec_parent() == Some(p[n - 2]));
        assert(msg_wf(s.msg_of(p.last())));
        assert((s.msg_of(p.last())).spec_id() == p.last());
        assert(p[n - 2] < p.last());
        if k == n - 2 {
            assert(store_reaches(s, p.last(), p[k]));
        } else {
            lemma_path_anc(s, q, k);
            assert(q.last() == p[n - 2] && q[k] == p[k]);
            assert(store_reaches(s, p[n - 2], p[k]));
            assert(store_reaches(s, p.last(), p[k]));
        }
    }
}

/// Every ancestor of a path's target lies on the path.
proof fn lemma_anc_on_path<M: Msg, S: MsgStore<M>>(s: &S, p: Seq<u64>, a: u64)
    requires
        s.inv(),
        path_shape(s, p),
        store_reaches(s, p.last(), a),
    ensures
        p.contains(a),
    decreases p.len(),
{
    s.inv_facts();
    let n = p.len() as int;
    if n == 1 {
        // The head's parent is absent or missing, so it has no ancestor.
        assert(false);
    } else {
        assert(s.msg_of(p[(n - 2) + 1]).spec_parent() == Some(p[n - 2]));
        if a == p[n - 2] && s.ids().contains(a) {
            assert(p.contains(a)) by {
                assert(p[n - 2] == a);
            }
        } else {
            let q = p.take(n - 1);
            assert(path_shape(s, q)) by {
                assert forall|j: int| 0 <= j < q.len() - 1 implies s.msg_of(
                    #[trigger] q[j + 1],
                ).spec_parent() == Some(q[j]) by {
                    assert(s.msg_of(p[j + 1]).spec_parent() == Some(p[j]));
                }
            }
            assert(store_reaches(s, q.last(), a));
            lemma_anc_on_path(s, q, a);
            let j = choose|j: int| 0 <= j < q.len() && q[j] == a;
            assert(p[j] == a);
            assert(p.contains(a));
        }
    }
}

/// Path segments ascend: each parent has a smaller id than its reply.
proof fn lemma_path_ascending<M: Msg, S: MsgStore<M>>(s: &S, p: Seq<u64>)
    requires
        s.inv(),
        path_shape(s, p),
    ensures
        forall|j: int| 0 <= j < p.len() - 1 ==> #[trigger] p[j] < p[j + 1],
{
    s.inv_facts();
    assert forall|j: int| 0 <= j < p.len() - 1 implies #[trigger] p[j] < p[j + 1] by {
        assert(s.msg_of(p[j + 1]).spec_parent() == Some(p[j]));
        assert(msg_wf(s.msg_of(p[j + 1])));
        assert((s.msg_of(p[j + 1])).spec_id() == p[j + 1]);
    }
}

/// Path segments ascend across any distance.
proof fn lemma_path_monotone<M: Msg, S: MsgStore<M>>(s: &S, p: Seq<u64>, i: int, j: int)
    requires
        s.inv(),
        path_shape(s, p),
        0 <= i <= j < p.len(),
    ensures
        p[i] <= p[j],
    decreases j - i,
{
    if i < j {
        lemma_path_monotone(s, p, i, j - 1);
        s.inv_facts();
        assert(s.msg_of(p[(j - 1) + 1]).spec_parent() == Some(p[j - 1]));
        assert(msg_wf(s.msg_of(p[j])));
        assert((s.msg_of(p[j])).spec_id() == p[j]);
    }
}

/// A path leads up to the effective root of its target's tree.
proof fn lemma_root_of_path<M: Msg, S: MsgStore<M>>(s: &S, p: Seq<u64>)
    requires
        s.inv(),
        path_shape(s, p),
    ensures
        store_root_of(s, p.last()) == p[0],
    decreases p.len(),
{
    s.inv_facts();
    let n = p.len() as int;
    if n == 1 {
        assert(store_root_of(s, p.last()) == p[0]);
    } else {
        assert(s.msg_of(p[(n - 2) + 1]).spec_parent() == Some(p[n - 2]));
        assert(msg_wf(s.msg_of(p.last())));
        assert((s.msg_of(p.last())).spec_id() == p.last());
        assert(p[n - 2] < p.last());
        let q = p.take(n - 1);
        assert(path_shape(s, q)) by {
            assert forall|j: int| 0 <= j < q.len() - 1 implies s.msg_of(
                #[trigger] q[j + 1],
            ).spec_parent() == Some(q[j]) by {
                assert(s.msg_of(p[j + 1]).spec_parent() == Some(p[j]));
            }
        }
        lemma_root_of_path(s, q);
        assert(store_root_of(s, p.last()) == store_root_of(s, p[n - 2]));
    }
}

/// Inside a tree that mirrors the store, the chain of greatest children
/// is the same whether it is followed in the tree or in the store.
proof fn lemma_last_desc_bridge<M: Msg, S: MsgStore<M>>(s: &S, t: &Tree<M>, x: u64)
    requires
        s.inv(),
        t.wf(),
        t.contains(x),
        forall|x2: u64| #[trigger] t.contains(x2) ==> s.ids().contains(x2),
        forall|x2: u64, q: u64|
            #![trigger t.contains(q), s.msg_of(x2)]
            t.contains(q) && s.ids().contains(x2) && s.msg_of(x2).spec_parent() == Some(q)
                ==> t.contains(x2),
        forall|x2: u64| #[trigger] t.contains(x2) ==> t.spec_msg_of(x2) == s.msg_of(x2),
    ensures
        t.spec_last_desc(x) == store_last_desc(s, x),
    decreases u64::MAX - x,
{
    s.inv_facts();
    // The children of `x` coincide in the tree and in the store.
    assert forall|c: u64| #[trigger] t.is_child_of(c, x) implies s.ids().contains(c) && s.msg_of(
        c,
    ).spec_parent() == Some(x) by {
        let j = choose|j: int|
            0 <= j < t.msg_seq().len() && #[trigger] t.msg_seq()[j].spec_id() == c
                && t.msg_seq()[j].spec_parent() == Some(x);
        t.lemma_msg_at(j, c);
        assert(t.contains(c));
    }
    assert forall|c: u64|
        s.ids().contains(c) && (#[trigger] s.msg_of(c)).spec_parent() == Some(
            x,
        ) implies t.is_child_of(c, x) by {
        assert(t.contains(c));
        let j = choose|j: int|
            0 <= j < t.msg_seq().len() && #[trigger] t.msg_seq()[j].spec_id() == c;
        t.lemma_msg_at(j, c);
        assert(t.msg_seq()[j].spec_parent() == Some(x));
    }
    if exists|y: u64| t.is_greatest_child(x, y) {
        let y = choose|y: u64| t.is_greatest_child(x, y);
        assert(store_greatest_child(s, x, y));
        let y2 = choose|y2: u64| store_greatest_child(s, x, y2);
        assert(store_greatest_child(s, x, y2));
        assert(t.is_child_of(y2, x));
        assert(y2 <= y && y <= y2);
        assert(msg_wf(s.msg_of(y)));
        assert((s.msg_of(y)).spec_id() == y);
        assert(x < y);
        assert(t.contains(y)) by {
            let j = choose|j: int|
                0 <= j < t.msg_seq().len() && #[trigger] t.msg_seq()[j].spec_id() == y
                    && t.msg_seq()[j].spec_parent() == Some(x);
            t.lemma_msg_at(j, y);
        }
        lemma_last_desc_bridge(s, t, y);
        assert(t.spec_last_desc(x) == t.spec_last_desc(y));
        assert(store_last_desc(s, x) == store_last_desc(s, y));
    } else {
        assert(!exists|y2: u64| store_greatest_child(s, x, y2)) by {
            if exists|y2: u64| store_greatest_child(s, x, y2) {
                let y2 = choose|y2: u64| store_greatest_child(s, x, y2);
                assert(t.is_child_of(y2, x));
                assert(t.is_greatest_child(x, y2)) by {
                    assert forall|c: u64| #[trigger] t.is_child_of(c, x) implies c <= y2 by {}
                }
                assert(false);
            }
        }
        assert(t.spec_last_desc(x) == x);
        assert(store_last_desc(s, x) == x);
    }
}

/// Walking a parent chain stays inside a tree that holds the chain's
/// first segment and is closed downwards under the stored parent relation.
proof fn lemma_path_members<M: Msg, S: MsgStore<M>>(s: &S, t: &Tree<M>, p: Seq<u64>, k: int)
    requires
        0 <= k < p.len(),
        t.contains(p[0]),
        forall|j: int| 0 <= j < p.len() ==> s.ids().contains(#[trigger] p[j]),
        forall|j: int|
            0 <= j < p.len() - 1 ==> s.msg_of(#[trigger] p[j + 1]).spec_parent() == Some(p[j]),
        forall|x: u64, q: u64|
            #![trigger t.contains(q), s.msg_of(x)]
            t.contains(q) && s.ids().contains(x) && s.msg_of(x).spec_parent() == Some(q)
                ==> t.contains(x),
    ensures
        t.contains(p[k]),
    decreases k,
{
    if k == 0 {
    } else {
        lemma_path_members(s, t, p, k - 1);
        assert(s.msg_of(p[(k - 1) + 1]).spec_parent() == Some(p[k - 1]));
        assert(t.contains(p[k]));
    }
}

/// The seven movement binding rows, starting at position `base`.
pub open spec fn movement_rows_at(s: Seq<BindingLine>, base: int) -> bool {
    &&& 0 <= base
    &&& base + 7 <= s.len()
    &&& s[base] matches BindingLine::Binding(k, d) && k@ == "j/k, ↓/↑"@ && d@
        == "move cursor up/down"@
    &&& s[base + 1] matches BindingLine::Binding(k, d) && k@ == "h/l, ←/→"@ && d@
        == "move cursor chronologically"@
    &&& s[base + 2] matches BindingLine::Binding(k, d) && k@ == "g, home"@ && d@
        == "move cursor to top"@
    &&& s[base + 3] matches BindingLine::Binding(k, d) && k@ == "G, end"@ && d@
        == "move cursor to bottom"@
    &&& s[base + 4] matches BindingLine::Binding(k, d) && k@ == "ctrl+y/e"@ && d@
        == "scroll up/down a line"@
    &&& s[base + 5] matches BindingLine::Binding(k, d) && k@ == "ctrl+u/d"@ && d@
        == "scroll up/down half a screen"@
    &&& s[base + 6] matches BindingLine::Binding(k, d) && k@ == "ctrl+b/f"@ && d@
        == "scroll up/down one screen"@
}

/// The five edit-initiating binding rows, starting at position `base`.
pub open spec fn edit_rows_at(s: Seq<BindingLine>, base: int) -> bool {
    &&& 0 <= base
    &&& base + 5 <= s.len()
    &&& s[base] matches BindingLine::Empty
    &&& s[base + 1] matches BindingLine::Binding(k, d) && k@ == "r"@ && d@ == "reply to message"@
    &&& s[base + 2] matches BindingLine::Ctd(d) && d@ == "(inline if possible, otherwise directly)"@
    &&& s[base + 3] matches BindingLine::Binding(k, d) && k@ == "R"@ && d@
        == "reply to message (opposite of r)"@
    &&& s[base + 4] matches BindingLine::Binding(k, d) && k@ == "t"@ && d@ == "start a new thread"@
}

/// The three editor binding rows, starting at position `base`.
pub open spec fn editor_rows_at(s: Seq<BindingLine>, base: int) -> bool {
    &&& 0 <= base
    &&& base + 3 <= s.len()
    &&& s[base] matches BindingLine::Binding(k, d) && k@ == "esc"@ && d@ == "close editor"@
    &&& s[base + 1] matches BindingLine::Binding(k, d) && k@ == "enter"@ && d@ == "send message"@
    &&& s[base + 2] matches BindingLine::Binding(k, d) && k@ == "backspace"@ && d@
        == "delete previous character"@
}

/// Rows already written stay in place when more rows are appended.
proof fn lemma_movement_rows_preserved(pre: Seq<BindingLine>, post: Seq<BindingLine>, base: int)
    requires
        movement_rows_at(pre, base),
        pre.len() <= post.len(),
        post.take(pre.len() as int) == pre,
    ensures
        movement_rows_at(post, base),
{
    assert(post[base] == pre[base]);
    assert(post[base + 1] == pre[base + 1]);
    assert(post[base + 2] == pre[base + 2]);
    assert(post[base + 3] == pre[base + 3]);
    assert(post[base + 4] == pre[base + 4]);
    assert(post[base + 5] == pre[base + 5]);
    assert(post[base + 6] == pre[base + 6]);
}

/// The value `v` clamped into the `i32` range.
pub open spec fn sat_i32(v: int) -> int {
    if v > i32::MAX as int {
        i32::MAX as int
    } else if v < i32::MIN as int {
        i32::MIN as int
    } else {
        v
    }
}

/// Saturating signed addition.
fn sat_add_i32(a: i32, b: i32) -> (r: i32)
    ensures
        r as int == sat_i32(a as int + b as int),
{
    let s: i64 = a as i64 + b as i64;
    if s > i32::MAX as i64 {
        i32::MAX
    } else if s < i32::MIN as i64 {
        i32::MIN
    } else {
        s as i32
    }
}

/// Saturating signed subtraction.
fn sat_sub_i32(a: i32, b: i32) -> (r: i32)
    ensures
        r as int == sat_i32(a as int - b as int),
{
    let s: i64 = a as i64 - b as i64;
    if s > i32::MAX as i64 {
        i32::MAX
    } else if s < i32::MIN as i64 {
        i32::MIN
    } else {
        s as i32
    }
}

/// The inner state of the tree view of one room.
pub struct InnerTreeViewState<M: Msg, S: MsgStore<M>> {
    pub store: S,
    pub last_cursor: Cursor,
    pub last_cursor_line: i32,
    pub cursor: Cursor,
    /// Scroll the view on the next render. Positive values scroll up and
    /// negative values scroll down.
    pub scroll: i32,
    pub correction: Option<Correction>,
    pub editor: EditorState,
    pub marker: core::marker::PhantomData<M>,
}

impl<M: Msg, S: MsgStore<M>> InnerTreeViewState<M, S> {
    pub open spec fn wf(&self) -> bool {
        self.store.inv()
    }

    pub fn new(store: S) -> (r: Self)
        ensures
            r.store == store,
            r.cursor == Cursor::Bottom,
            r.last_cursor == Cursor::Bottom,
            r.last_cursor_line == 0,
            r.scroll == 0,
            r.correction is None,
            r.editor@ == Seq::<char>::empty(),
    {
        InnerTreeViewState {
            store,
            last_cursor: Cursor::Bottom,
            last_cursor_line: 0,
            cursor: Cursor::Bottom,
            scroll: 0,
            correction: None,
            editor: EditorState::new(),
            marker: core::marker::PhantomData,
        }
    }

    /// The parent a normal reply gets: replying to a nested message joins
    /// its thread (the message's own parent); replying to a top-level
    /// message, or to one the store does not hold, replies to it directly.
    /// Without a current message the reply starts a new thread.
    pub fn parent_for_normal_reply(&self, id: Option<u64>) -> (r: Option<Option<u64>>)
        requires
            self.wf(),
        ensures
            r == Some(
                match id {
                    None => None::<u64>,
                    Some(x) => Some(
                        if self.store.ids().contains(x) && self.store.msg_of(x).spec_parent()
                            is Some {
                            self.store.msg_of(x).spec_parent()->Some_0
                        } else {
                            x
                        },
                    ),
                },
            ),
    {
        match id {
            None => Some(None),
            Some(x) => {
                match self.store.msg(x) {
                    Some(m) => {
                        match m.parent() {
                            Some(p) => Some(Some(p)),
                            None => Some(Some(x)),
                        }
                    },
                    None => Some(Some(x)),
                }
            },
        }
    }

    /// The parent an alternate reply gets: the current message itself.
    /// Without a current message the reply starts a new thread.
    pub fn parent_for_alternate_reply(&self, id: Option<u64>) -> (r: Option<Option<u64>>)
        requires
            self.wf(),
        ensures
            r == Some(
                match id {
                    None => None::<u64>,
                    Some(x) => Some(x),
                },
            ),
    {
        match id {
            None => Some(None),
            Some(x) => Some(Some(x)),
        }
    }

    /// Starts composing on a reply or new-thread key. Returns whether the
    /// key was one of those.
    pub fn handle_edit_initiating_key_event(&mut self, event: Key, id: Option<u64>) -> (r: bool)
        requires
            old(self).wf(),
        ensures
            final(self).wf(),
            final(self).store == old(self).store,
            final(self).editor == old(self).editor,
            final(self).last_cursor == old(self).last_cursor,
            final(self).scroll == old(self).scroll,
            match event {
                Key::Char(c) => if c == 'r' {
                    r && final(self).cursor == (Cursor::Editor {
                        coming_from: id,
                        parent: match id {
                            None => None::<u64>,
                            Some(x) => Some(
                                if old(self).store.ids().contains(x) && old(self).store.msg_of(
                                    x,
                                ).spec_parent() is Some {
                                    old(self).store.msg_of(x).spec_parent()->Some_0
                                } else {
                                    x
                                },
                            ),
                        },
                    }) && final(self).correction == Some(Correction::MakeCursorVisible)
                } else if c == 'R' {
                    r && final(self).cursor == (Cursor::Editor {
                        coming_from: id,
                        parent: id,
                    }) && final(self).correction == Some(Correction::MakeCursorVisible)
                } else if c == 't' || c == 'T' {
                    r && final(self).cursor == (Cursor::Editor {
                        coming_from: id,
                        parent: None::<u64>,
                    }) && final(self).correction == Some(Correction::MakeCursorVisible)
                } else {
                    !r && *final(self) == *old(self)
                },
                _ => !r && *final(self) == *old(self),
            },
    {
        match event {
            Key::Char(c) => {
                if c == 'r' {
                    match self.parent_for_normal_reply(id) {
                        Some(parent) => {
                            self.cursor = Cursor::Editor { coming_from: id, parent };
                            self.correction = Some(Correction::MakeCursorVisible);
                        },
                        None => {},
                    }
                    true
                } else if c == 'R' {
                    match self.parent_for_alternate_reply(id) {
                        Some(parent) => {
                            self.cursor = Cursor::Editor { coming_from: id, parent };
                            self.correction = Some(Correction::MakeCursorVisible);
                        },
                        None => {},
                    }
                    true
                } else if c == 't' || c == 'T' {
                    self.cursor = Cursor::Editor { coming_from: id, parent: None };
                    self.correction = Some(Correction::MakeCursorVisible);
                    true
                } else {
                    false
                }
            },
            _ => false,
        }
    }

    /// Handles a key while the editor cursor is active: escape abandons
    /// the draft, enter with non-blank content emits it and switches to
    /// the pseudo cursor, and other keys edit the draft.
    pub fn handle_editor_key_event(
        &mut self,
        event: Key,
        coming_from: Option<u64>,
        parent: Option<u64>,
    ) -> (r: Reaction)
        requires
            old(self).wf(),
        ensures
            final(self).wf(),
            final(self).store == old(self).store,
            final(self).last_cursor == old(self).last_cursor,
            final(self).scroll == old(self).scroll,
            match event {
                Key::Esc => r matches Reaction::Handled && final(self).cursor == (match
                    coming_from {
                    Some(c) => Cursor::Msg(c),
                    None => Cursor::Bottom,
                }) && final(self).editor == old(self).editor,
                Key::Enter => if !is_blank(old(self).editor@) {
                    &&& r matches Reaction::Composed { parent: rp, content: rc }
                    &&& rp == parent
                    &&& rc@ == old(self).editor@
                    &&& final(self).cursor == (Cursor::Pseudo { coming_from, parent })
                    &&& final(self).editor == old(self).editor
                } else {
                    &&& r matches Reaction::Handled
                    &&& final(self).cursor == old(self).cursor
                    &&& final(self).editor == old(self).editor
                    &&& final(self).correction == Some(Correction::MakeCursorVisible)
                },
                Key::Char(c) => {
                    &&& r matches Reaction::Handled
                    &&& final(self).editor@ == old(self).editor@.push(c)
                    &&& final(self).cursor == old(self).cursor
                    &&& final(self).correction == Some(Correction::MakeCursorVisible)
                },
                Key::Backspace => {
                    &&& r matches Reaction::Handled
                    &&& final(self).editor@ == (if old(self).editor@.len() == 0 {
                        old(self).editor@
                    } else {
                        old(self).editor@.drop_last()
                    })
                    &&& final(self).cursor == old(self).cursor
                    &&& final(self).correction == Some(Correction::MakeCursorVisible)
                },
                _ => r matches Reaction::NotHandled && *final(self) == *old(self),
            },
    {
        match event {
            Key::Esc => {
                self.cursor = match coming_from {
                    Some(c) => Cursor::Msg(c),
                    None => Cursor::Bottom,
                };
                Reaction::Handled
            },
            Key::Enter => {
                if !self.editor.blank() {
                    let content = self.editor.text();
                    self.cursor = Cursor::Pseudo { coming_from, parent };
                    Reaction::Composed { parent, content }
                } else {
                    self.correction = Some(Correction::MakeCursorVisible);
                    Reaction::Handled
                }
            },
            Key::Char(c) => {
                self.editor.push_char(c);
                self.correction = Some(Correction::MakeCursorVisible);
                Reaction::Handled
            },
            Key::Backspace => {
                self.editor.backspace();
                self.correction = Some(Correction::MakeCursorVisible);
                Reaction::Handled
            },
            _ => Reaction::NotHandled,
        }
    }

    /// Where movement starts from: the current message, or the message
    /// composing started from while the pseudo cursor is shown.
    pub open spec fn anchor(&self) -> Option<u64> {
        match self.cursor {
            Cursor::Msg(id) => Some(id),
            Cursor::Pseudo { coming_from, .. } => coming_from,
            Cursor::Bottom => None,
            Cursor::Editor { .. } => None,
        }
    }

    /// `x` is the chronological predecessor of `id`: the largest stored id
    /// below it.
    pub open spec fn older_spec(&self, id: u64, x: u64) -> bool {
        &&& self.store.ids().contains(x)
        &&& x < id
        &&& forall|y: u64| self.store.ids().contains(y) && y < id ==> y <= x
    }

    /// `x` is the chronological successor of `id`: the smallest stored id
    /// above it.
    pub open spec fn newer_spec(&self, id: u64, x: u64) -> bool {
        &&& self.store.ids().contains(x)
        &&& x > id
        &&& forall|y: u64| self.store.ids().contains(y) && y > id ==> y >= x
    }

    /// `x` is the newest stored id.
    pub open spec fn newest_spec(&self, x: u64) -> bool {
        &&& self.store.ids().contains(x)
        &&& forall|y: u64| self.store.ids().contains(y) ==> y <= x
    }

    /// Everything except the cursor and the pending correction stays as it
    /// was.
    pub open spec fn only_cursor_moved(&self, pre: Self) -> bool {
        &&& self.store == pre.store
        &&& self.editor == pre.editor
        &&& self.last_cursor == pre.last_cursor
        &&& self.last_cursor_line == pre.last_cursor_line
        &&& self.scroll == pre.scroll
    }

    /// A cursor that points only at stored messages, the bottom, or a
    /// composition placeholder.
    pub open spec fn cursor_in_store(&self, c: Cursor) -> bool {
        match c {
            Cursor::Msg(x) => self.store.ids().contains(x),
            _ => true,
        }
    }

    /// `x` is the first child of `id`: the smallest stored id whose parent
    /// is `id`.
    pub open spec fn first_child_spec(&self, id: u64, x: u64) -> bool {
        &&& self.store.ids().contains(x)
        &&& self.store.msg_of(x).spec_parent() == Some(id)
        &&& forall|y: u64|
            self.store.ids().contains(y) && (#[trigger] self.store.msg_of(y)).spec_parent()
                == Some(id) ==> y >= x
    }

    /// Moves the cursor one line down in the layout: to the current
    /// message's first child when it has one, else to the next sibling of
    /// the nearest ancestor that has one, else to the next tree's root,
    /// else to the bottom.
    pub fn move_cursor_down(&mut self)
        requires
            old(self).wf(),
        ensures
            final(self).wf(),
            final(self).only_cursor_moved(*old(self)),
            match old(self).cursor {
                Cursor::Editor { .. } => *final(self) == *old(self),
                _ => match old(self).anchor() {
                    Some(id) => if !old(self).store.ids().contains(id) {
                        *final(self) == *old(self)
                    } else if exists|x: u64| old(self).first_child_spec(id, x) {
                        final(self).cursor matches Cursor::Msg(x) && old(self).first_child_spec(
                            id,
                            x,
                        ) && final(self).correction == Some(Correction::MakeCursorVisible)
                    } else if exists|a: u64|
                        #[trigger] old(self).has_next_sibling(a) && old(self).ancestor_or_self(
                            id,
                            a,
                        ) {
                        // The next sibling of the nearest ancestor that
                        // has one.
                        (exists|a: u64, c: u64|
                            old(self).ancestor_or_self(id, a) && #[trigger] old(
                                self,
                            ).next_sibling_spec(a, c) && (forall|a2: u64|
                                old(self).ancestor_or_self(id, a2) && a2 > a ==> !old(
                                    self,
                                ).has_next_sibling(a2)) && final(self).cursor == Cursor::Msg(c))
                            && final(self).correction == Some(Correction::MakeCursorVisible)
                    } else if exists|r: u64|
                        #[trigger] old(self).next_root_spec(
                            store_root_of(&old(self).store, id),
                            r,
                        ) {
                        (exists|r: u64|
                            #[trigger] old(self).next_root_spec(
                                store_root_of(&old(self).store, id),
                                r,
                            ) && final(self).cursor == Cursor::Msg(r)) && final(self).correction
                            == Some(Correction::MakeCursorVisible)
                    } else {
                        final(self).cursor == Cursor::Bottom && final(self).correction == Some(
                            Correction::MakeCursorVisible,
                        )
                    },
                    None => *final(self) == *old(self),
                },
            },
    {
        let id = match self.cursor {
            Cursor::Msg(id) => id,
            Cursor::Pseudo { coming_from: Some(id), .. } => id,
            _ => {
                return ;
            },
        };
        proof {
            self.store.inv_facts();
        }
        let path = match self.store.path(id) {
            Some(p) => p,
            None => {
                return ;
            },
        };
        let root = path.first();
        let t = self.store.tree(root);
        proof {
            assert(t.contains(root));
            assert forall|j: int| 0 <= j < path@.len() implies t.contains(
                #[trigger] path@[j],
            ) by {
                lemma_path_members(&self.store, &t, path@, j);
            }
            assert(t.contains(id));
            assert(path_shape(&self.store, path@));
        }
        // First child, if any.
        match t.children(id) {
            Some(l) => {
                if l.len() > 0 {
                    let nx = l[0];
                    proof {
                        assert(l@.contains(l@[0]));
                        assert(t.is_child_of(nx, id));
                        assert(t.contains(nx)) by {
                            let k = choose|k: int|
                                0 <= k < t.msg_seq().len() && #[trigger] t.msg_seq()[k].spec_id()
                                    == nx && t.msg_seq()[k].spec_parent() == Some(id);
                            t.lemma_msg_at(k, nx);
                        }
                        assert(self.store.ids().contains(nx));
                        assert(self.store.msg_of(nx).spec_parent() == Some(id)) by {
                            let k = choose|k: int|
                                0 <= k < t.msg_seq().len() && #[trigger] t.msg_seq()[k].spec_id()
                                    == nx && t.msg_seq()[k].spec_parent() == Some(id);
                            t.lemma_msg_at(k, nx);
                        }
                        assert forall|y: u64|
                            self.store.ids().contains(y) && (#[trigger] self.store.msg_of(
                                y,
                            )).spec_parent() == Some(id) implies y >= nx by {
                            // Any stored child of `id` is in this tree,
                            // hence in this sorted children list.
                            assert(t.contains(y));
                            assert(t.spec_msg_of(y) == self.store.msg_of(y));
                            assert(t.is_child_of(y, id)) by {
                                let k = choose|k: int|
                                    0 <= k < t.msg_seq().len()
                                        && #[trigger] t.msg_seq()[k].spec_id() == y;
                                t.lemma_msg_at(k, y);
                                assert(t.msg_seq()[k].spec_parent() == Some(id));
                            }
                            assert(l@.contains(y));
                            let ky = choose|ky: int| 0 <= ky < l@.len() && l@[ky] == y;
                            if ky > 0 {
                                assert(l@[0] < l@[ky]);
                            }
                        }
                        assert(self.first_child_spec(id, nx));
                    }
                    self.cursor = Cursor::Msg(nx);
                    self.correction = Some(Correction::MakeCursorVisible);
                    return ;
                } else {
                    proof {
                        assert forall|c: u64| !t.is_child_of(c, id) by {
                            if t.is_child_of(c, id) {
                                assert(l@.contains(c));
                            }
                        }
                    }
                }
            },
            None => {
                proof {
                    assert(forall|c: u64| !t.is_child_of(c, id));
                }
            },
        }
        proof {
            // `id` has no stored child: such a child would be a member of
            // this tree and of its children list.
            assert forall|x: u64| !old(self).first_child_spec(id, x) by {
                if old(self).first_child_spec(id, x) {
                    assert(t.contains(x));
                    assert(t.spec_msg_of(x) == self.store.msg_of(x));
                    assert(t.is_child_of(x, id)) by {
                        let k = choose|k: int|
                            0 <= k < t.msg_seq().len() && #[trigger] t.msg_seq()[k].spec_id() == x;
                        t.lemma_msg_at(k, x);
                        assert(t.msg_seq()[k].spec_parent() == Some(id));
                    }
                }
            }
        }
        // Next sibling of the nearest ancestor that has one.
        let n = path.len();
        let mut k: usize = n;
        while k > 1
            invariant
                self.wf(),
                *self == *old(self),
                n == path@.len(),
                1 <= n,
                1 <= k <= n,
                t.wf(),
                old(self).anchor() == Some(id),
                old(self).store.ids().contains(id),
                path_shape(&self.store, path@),
                id == path@[n - 1],
                forall|x: u64| !old(self).first_child_spec(id, x),
                forall|x: u64| #[trigger] t.contains(x) ==> self.store.ids().contains(x),
                forall|x: u64|
                    #[trigger] t.contains(x) ==> t.spec_msg_of(x) == self.store.msg_of(x),
                forall|x2: u64, q: u64|
                    #![trigger t.contains(q), self.store.msg_of(x2)]
                    t.contains(q) && self.store.ids().contains(x2) && self.store.msg_of(
                        x2,
                    ).spec_parent() == Some(q) ==> t.contains(x2),
                forall|j: int| 0 <= j < n ==> t.contains(#[trigger] path@[j]),
                forall|j: int| k <= j < n ==> !old(self).has_next_sibling(#[trigger] path@[j]),
            decreases k,
        {
            k -= 1;
            let seg = path.get(k);
            match t.next_sibling(seg) {
                Some(s) => {
                    proof {
                        self.store.inv_facts();
                        let p = choose|p: u64|
                            t.spec_msg_of(seg).spec_parent() == Some(p) && #[trigger] t.is_child_of(
                                s,
                                p,
                            ) && s > seg && (forall|c: u64|
                                t.is_child_of(c, p) && c > seg ==> c >= s);
                        assert(t.contains(s)) by {
                            let j = choose|j: int|
                                0 <= j < t.msg_seq().len() && #[trigger] t.msg_seq()[j].spec_id()
                                    == s && t.msg_seq()[j].spec_parent() == Some(p);
                            t.lemma_msg_at(j, s);
                        }
                        assert(self.store.ids().contains(s));
                        // The tree parent of `seg` is its stored parent,
                        // the path segment before it.
                        assert(self.store.msg_of(#[trigger] path@[(k - 1) + 1]).spec_parent()
                            == Some(path@[k - 1]));
                        assert(t.spec_msg_of(seg) == self.store.msg_of(seg));
                        assert(p == path@[k - 1]);
                        assert(self.store.ids().contains(p));
                        assert(self.store.msg_of(s).spec_parent() == Some(p)) by {
                            let j = choose|j: int|
                                0 <= j < t.msg_seq().len() && #[trigger] t.msg_seq()[j].spec_id()
                                    == s && t.msg_seq()[j].spec_parent() == Some(p);
                            t.lemma_msg_at(j, s);
                        }
                        // Minimality also holds at the store level: any
                        // stored sibling above `seg` is in this tree.
                        assert forall|c2: u64|
                            self.store.ids().contains(c2) && (#[trigger] self.store.msg_of(
                                c2,
                            )).spec_parent() == self.store.msg_of(seg).spec_parent() && c2
                            > seg implies c2 >= s by {
                            assert(t.contains(p));
                            assert(t.contains(c2));
                            assert(t.spec_msg_of(c2) == self.store.msg_of(c2));
                            assert(t.is_child_of(c2, p)) by {
                                let j = choose|j: int|
                                    0 <= j < t.msg_seq().len()
                                        && #[trigger] t.msg_seq()[j].spec_id() == c2;
                                t.lemma_msg_at(j, c2);
                                assert(t.msg_seq()[j].spec_parent() == Some(p));
                            }
                        }
                        assert(old(self).next_sibling_spec(seg, s));
                        // `seg` is `id` or one of its ancestors.
                        if k as int == n - 1 {
                            assert(old(self).ancestor_or_self(id, seg));
                        } else {
                            lemma_path_anc(&self.store, path@, k as int);
                            assert(old(self).ancestor_or_self(id, seg));
                        }
                        // Every deeper ancestor was already checked and
                        // has no next sibling.
                        lemma_path_ascending(&self.store, path@);
                        assert forall|a2: u64|
                            old(self).ancestor_or_self(id, a2) && a2 > seg implies !old(
                            self,
                        ).has_next_sibling(a2) by {
                            if a2 == id {
                                assert(a2 == path@[n - 1]);
                                if k as int == n - 1 {
                                    assert(a2 == seg);
                                    assert(false);
                                }
                            } else {
                                lemma_anc_on_path(&self.store, path@, a2);
                                let j = choose|j: int| 0 <= j < n && path@[j] == a2;
                                if j <= k as int {
                                    lemma_path_monotone(&self.store, path@, j, k as int);
                                    assert(false);
                                }
                            }
                        }
                        assert(old(self).has_next_sibling(seg));
                    }
                    self.cursor = Cursor::Msg(s);
                    self.correction = Some(Correction::MakeCursorVisible);
                    return ;
                },
                None => {
                    proof {
                        // The tree found no sibling above `seg`, and any
                        // stored one would be a tree sibling.
                        assert forall|c: u64| !old(self).next_sibling_spec(seg, c) by {
                            if old(self).next_sibling_spec(seg, c) {
                                assert(self.store.msg_of(
                                    #[trigger] path@[(k - 1) + 1],
                                ).spec_parent() == Some(path@[k - 1]));
                                let p = path@[k - 1];
                                assert(t.contains(p));
                                assert(t.contains(c));
                                assert(t.spec_msg_of(c) == self.store.msg_of(c));
                                assert(t.is_child_of(c, p)) by {
                                    let j = choose|j: int|
                                        0 <= j < t.msg_seq().len()
                                            && #[trigger] t.msg_seq()[j].spec_id() == c;
                                    t.lemma_msg_at(j, c);
                                    assert(t.msg_seq()[j].spec_parent() == Some(p));
                                }
                                assert(t.spec_msg_of(seg) == self.store.msg_of(seg));
                            }
                        }
                    }
                },
            }
        }
        proof {
            // No ancestor of the anchor has a next sibling: they all lie
            // on the path, whose checked segments had none, and the
            // effective root has no stored parent to be a sibling under.
            assert forall|a: u64|
                !(#[trigger] old(self).has_next_sibling(a) && old(self).ancestor_or_self(
                    id,
                    a,
                )) by {
                if old(self).has_next_sibling(a) && old(self).ancestor_or_self(id, a) {
                    if a == id {
                        assert(a == path@[n - 1]);
                        if n == 1 {
                            assert(a == path@[0]);
                        }
                    } else {
                        lemma_anc_on_path(&self.store, path@, a);
                    }
                    let j = choose|j: int| 0 <= j < n && path@[j] == a;
                    if j == 0 {
                        // The head's parent is absent or missing, so it
                        // has no sibling.
                        let c = choose|c: u64| old(self).next_sibling_spec(a, c);
                        assert(false);
                    } else {
                        assert(!old(self).has_next_sibling(path@[j]));
                        assert(false);
                    }
                }
            }
            lemma_root_of_path(&self.store, path@);
            assert(store_root_of(&old(self).store, id) == root);
        }
        // Next tree, else the bottom.
        match self.store.next_tree_id(root) {
            Some(nt) => {
                proof {
                    assert(old(self).next_root_spec(store_root_of(&old(self).store, id), nt));
                }
                self.cursor = Cursor::Msg(nt);
            },
            None => {
                proof {
                    if exists|r: u64|
                        old(self).next_root_spec(store_root_of(&old(self).store, id), r) {
                        let r = choose|r: u64|
                            old(self).next_root_spec(store_root_of(&old(self).store, id), r);
                        assert(false);
                    }
                }
                self.cursor = Cursor::Bottom;
            },
        }
        self.correction = Some(Correction::MakeCursorVisible);
    }


    /// `c` is a sibling of `id` (same stored parent `py`) with a smaller id.
    pub open spec fn smaller_sibling_spec(&self, id: u64, py: u64, c: u64) -> bool {
        &&& self.store.ids().contains(c)
        &&& self.store.msg_of(c).spec_parent() == Some(py)
        &&& c < id
    }

    /// `sib` is the greatest sibling of `id` below it.
    pub open spec fn greatest_smaller_sibling(&self, id: u64, py: u64, sib: u64) -> bool {
        &&& self.smaller_sibling_spec(id, py, sib)
        &&& forall|c: u64| #[trigger] self.smaller_sibling_spec(id, py, c) ==> c <= sib
    }

    /// `a` is `id` itself or one of its ancestors inside the store.
    pub open spec fn ancestor_or_self(&self, id: u64, a: u64) -> bool {
        a == id || store_reaches(&self.store, id, a)
    }

    /// `c` is the next sibling of `a`: the least stored message above `a`
    /// that shares `a`'s stored parent, which must itself be stored.
    pub open spec fn next_sibling_spec(&self, a: u64, c: u64) -> bool {
        &&& self.store.ids().contains(a)
        &&& self.store.msg_of(a).spec_parent() is Some
        &&& self.store.ids().contains(self.store.msg_of(a).spec_parent()->Some_0)
        &&& self.store.ids().contains(c)
        &&& self.store.msg_of(c).spec_parent() == self.store.msg_of(a).spec_parent()
        &&& c > a
        &&& forall|c2: u64|
            self.store.ids().contains(c2) && (#[trigger] self.store.msg_of(c2)).spec_parent()
                == self.store.msg_of(a).spec_parent() && c2 > a ==> c2 >= c
    }

    pub open spec fn has_next_sibling(&self, a: u64) -> bool {
        exists|c: u64| self.next_sibling_spec(a, c)
    }

    /// `r` is the first tree root after `x`.
    pub open spec fn next_root_spec(&self, x: u64, r: u64) -> bool {
        &&& self.store.ids().contains(r)
        &&& self.store.msg_of(r).spec_parent() is None
        &&& r > x
        &&& forall|r2: u64|
            self.store.ids().contains(r2) && (#[trigger] self.store.msg_of(r2)).spec_parent()
                is None && r2 > x ==> r2 >= r
    }

    /// `r` is the last tree root before `x`.
    pub open spec fn prev_root_spec(&self, x: u64, r: u64) -> bool {
        &&& self.store.ids().contains(r)
        &&& self.store.msg_of(r).spec_parent() is None
        &&& r < x
        &&& forall|r2: u64|
            self.store.ids().contains(r2) && (#[trigger] self.store.msg_of(r2)).spec_parent()
                is None && r2 < x ==> r2 <= r
    }

    /// `r` is the last tree root of the room.
    pub open spec fn last_root_spec(&self, r: u64) -> bool {
        &&& self.store.ids().contains(r)
        &&& self.store.msg_of(r).spec_parent() is None
        &&& forall|r2: u64|
            self.store.ids().contains(r2) && (#[trigger] self.store.msg_of(r2)).spec_parent()
                is None ==> r2 <= r
    }

    /// Moves the cursor one line up in the layout: to the end of the
    /// greatest smaller sibling's subtree when one exists, else to the
    /// parent, else to the end of the previous tree; from the bottom it
    /// moves to the end of the last tree.
    pub fn move_cursor_up(&mut self)
        requires
            old(self).wf(),
        ensures
            final(self).wf(),
            final(self).only_cursor_moved(*old(self)),
            match old(self).cursor {
                Cursor::Editor { .. } => *final(self) == *old(self),
                _ => match old(self).anchor() {
                    Some(id) => if !old(self).store.ids().contains(id) {
                        *final(self) == *old(self)
                    } else {
                        match old(self).store.msg_of(id).spec_parent() {
                            Some(py) => if old(self).store.ids().contains(py) {
                                if exists|c: u64| old(self).smaller_sibling_spec(id, py, c) {
                                    (exists|sib: u64|
                                        #[trigger] old(self).greatest_smaller_sibling(id, py, sib)
                                            && final(self).cursor == Cursor::Msg(
                                            store_last_desc(&old(self).store, sib),
                                        )) && final(self).correction == Some(
                                        Correction::MakeCursorVisible,
                                    )
                                } else {
                                    final(self).cursor == Cursor::Msg(py) && final(self).correction == Some(Correction::MakeCursorVisible)
                                }
                            } else {
                                // The anchor heads its own tree: the
                                // previous tree's end, if any.
                                if exists|r: u64| old(self).prev_root_spec(id, r) {
                                    (exists|r: u64|
                                        #[trigger] old(self).prev_root_spec(id, r) && final(self).cursor == Cursor::Msg(
                                            store_last_desc(&old(self).store, r),
                                        )) && final(self).correction == Some(
                                        Correction::MakeCursorVisible,
                                    )
                                } else {
                                    *final(self) == *old(self)
                                }
                            },
                            None => if exists|r: u64| old(self).prev_root_spec(id, r) {
                                (exists|r: u64|
                                    #[trigger] old(self).prev_root_spec(id, r) && final(self).cursor == Cursor::Msg(
                                        store_last_desc(&old(self).store, r),
                                    )) && final(self).correction == Some(
                                    Correction::MakeCursorVisible,
                                )
                            } else {
                                *final(self) == *old(self)
                            },
                        }
                    },
                    None => if exists|r: u64| old(self).last_root_spec(r) {
                        (exists|r: u64|
                            #[trigger] old(self).last_root_spec(r) && final(self).cursor
                                == Cursor::Msg(store_last_desc(&old(self).store, r))) && final(self).correction == Some(Correction::MakeCursorVisible)
                    } else {
                        *final(self) == *old(self)
                    },
                },
            },
    {
        let id = match self.cursor {
            Cursor::Msg(id) => id,
            Cursor::Pseudo { coming_from: Some(id), .. } => id,
            Cursor::Editor { .. } => {
                return ;
            },
            _ => {
                // From the bottom: the end of the last tree.
                match self.store.last_tree_id() {
                    Some(lt) => {
                        let t = self.store.tree(lt);
                        proof {
                            assert(t.contains(lt));
                        }
                        let x = t.last_descendant(lt);
                        proof {
                            lemma_last_desc_bridge(&self.store, &t, lt);
                            assert(old(self).last_root_spec(lt));
                        }
                        self.cursor = Cursor::Msg(x);
                        self.correction = Some(Correction::MakeCursorVisible);
                    },
                    None => {
                        proof {
                            if exists|r: u64| old(self).last_root_spec(r) {
                                let r = choose|r: u64| old(self).last_root_spec(r);
                                assert(false);
                            }
                        }
                    },
                }
                return ;
            },
        };
        proof {
            self.store.inv_facts();
        }
        let path = match self.store.path(id) {
            Some(p) => p,
            None => {
                return ;
            },
        };
        let n = path.len();
        let root = path.first();
        let t = self.store.tree(root);
        proof {
            assert(t.contains(root));
            lemma_path_members(&self.store, &t, path@, path@.len() - 1);
            assert(t.contains(id));
            assert(path_shape(&self.store, path@));
        }
        if n >= 2 {
            let parent = path.get(n - 2);
            proof {
                assert(self.store.msg_of(#[trigger] path@[(n - 2) + 1]).spec_parent() == Some(
                    path@[n - 2 as int],
                ));
                assert(self.store.msg_of(id).spec_parent() == Some(parent));
                lemma_path_members(&self.store, &t, path@, n - 2);
                assert(t.contains(parent));
            }
            match t.prev_sibling(id) {
                Some(s) => {
                    proof {
                        let p = choose|p: u64|
                            t.spec_msg_of(id).spec_parent() == Some(p) && #[trigger] t.is_child_of(
                                s,
                                p,
                            ) && s < id && (forall|c: u64|
                                t.is_child_of(c, p) && c < id ==> c <= s);
                        assert(t.contains(s)) by {
                            let j = choose|j: int|
                                0 <= j < t.msg_seq().len() && #[trigger] t.msg_seq()[j].spec_id()
                                    == s && t.msg_seq()[j].spec_parent() == Some(p);
                            t.lemma_msg_at(j, s);
                        }
                        assert(t.spec_msg_of(id) == self.store.msg_of(id));
                        assert(p == parent);
                        assert(t.spec_msg_of(s) == self.store.msg_of(s));
                        assert(self.store.msg_of(s).spec_parent() == Some(parent)) by {
                            let j = choose|j: int|
                                0 <= j < t.msg_seq().len() && #[trigger] t.msg_seq()[j].spec_id()
                                    == s && t.msg_seq()[j].spec_parent() == Some(p);
                            t.lemma_msg_at(j, s);
                        }
                        assert(self.smaller_sibling_spec(id, parent, s));
                        // Any stored smaller sibling is in this tree and
                        // in the sibling list the tree maximised over.
                        assert forall|c: u64|
                            #[trigger] self.smaller_sibling_spec(id, parent, c) implies c
                            <= s by {
                            assert(t.contains(c));
                            assert(t.spec_msg_of(c) == self.store.msg_of(c));
                            assert(t.is_child_of(c, parent)) by {
                                let j = choose|j: int|
                                    0 <= j < t.msg_seq().len()
                                        && #[trigger] t.msg_seq()[j].spec_id() == c;
                                t.lemma_msg_at(j, c);
                                assert(t.msg_seq()[j].spec_parent() == Some(parent));
                            }
                        }
                        assert(self.greatest_smaller_sibling(id, parent, s));
                    }
                    let x = t.last_descendant(s);
                    proof {
                        assert(t.contains(s)) by {
                            let p = choose|p: u64|
                                t.spec_msg_of(id).spec_parent() == Some(p)
                                    && #[trigger] t.is_child_of(s, p) && s < id && (forall|c: u64|
                                    t.is_child_of(c, p) && c < id ==> c <= s);
                            let j = choose|j: int|
                                0 <= j < t.msg_seq().len() && #[trigger] t.msg_seq()[j].spec_id()
                                    == s && t.msg_seq()[j].spec_parent() == Some(p);
                            t.lemma_msg_at(j, s);
                        }
                        lemma_last_desc_bridge(&self.store, &t, s);
                    }
                    self.cursor = Cursor::Msg(x);
                },
                None => {
                    self.cursor = Cursor::Msg(parent);
                    proof {
                        // No smaller sibling: a stored one would be in this
                        // tree and a tree-sibling of `id`.
                        assert forall|c: u64|
                            !old(self).smaller_sibling_spec(id, parent, c) by {
                            if old(self).smaller_sibling_spec(id, parent, c) {
                                assert(t.contains(c));
                                assert(t.spec_msg_of(c) == self.store.msg_of(c));
                                assert(t.is_child_of(c, parent)) by {
                                    let j = choose|j: int|
                                        0 <= j < t.msg_seq().len()
                                            && #[trigger] t.msg_seq()[j].spec_id() == c;
                                    t.lemma_msg_at(j, c);
                                    assert(t.msg_seq()[j].spec_parent() == Some(parent));
                                }
                                assert(t.spec_msg_of(id) == self.store.msg_of(id));
                            }
                        }
                    }
                },
            }
            self.correction = Some(Correction::MakeCursorVisible);
        } else {
            // `id` is the effective root of its tree: its parent is
            // either absent from the store or not set at all.
            proof {
                assert(path@.first() == id);
            }
            match self.store.prev_tree_id(id) {
                Some(pt) => {
                    let t2 = self.store.tree(pt);
                    proof {
                        assert(t2.contains(pt));
                        assert(old(self).prev_root_spec(id, pt));
                    }
                    let x = t2.last_descendant(pt);
                    proof {
                        lemma_last_desc_bridge(&self.store, &t2, pt);
                    }
                    self.cursor = Cursor::Msg(x);
                    self.correction = Some(Correction::MakeCursorVisible);
                },
                None => {
                    proof {
                        if exists|r: u64| old(self).prev_root_spec(id, r) {
                            let r = choose|r: u64| old(self).prev_root_spec(id, r);
                            assert(false);
                        }
                    }
                },
            }
        }
    }


    /// Moves the cursor chronologically backwards: from a message to the
    /// largest stored id below it, and from the bottom to the newest
    /// message. At the oldest message, and on an empty room, it stays.
    pub fn move_cursor_older(&mut self)
        requires
            old(self).wf(),
        ensures
            final(self).wf(),
            final(self).only_cursor_moved(*old(self)),
            match old(self).cursor {
                Cursor::Editor { .. } => *final(self) == *old(self),
                _ => match old(self).anchor() {
                    Some(id) => if exists|x: u64| old(self).older_spec(id, x) {
                        final(self).cursor matches Cursor::Msg(x) && old(self).older_spec(id, x)
                            && final(self).correction == Some(Correction::MakeCursorVisible)
                    } else {
                        *final(self) == *old(self)
                    },
                    None => if exists|x: u64| old(self).newest_spec(x) {
                        final(self).cursor matches Cursor::Msg(x) && old(self).newest_spec(x)
                            && final(self).correction == Some(Correction::MakeCursorVisible)
                    } else {
                        *final(self) == *old(self)
                    },
                },
            },
    {
        let anchor = match self.cursor {
            Cursor::Msg(id) => Some(id),
            Cursor::Pseudo { coming_from, .. } => coming_from,
            Cursor::Bottom => None,
            Cursor::Editor { .. } => {
                return ;
            },
        };
        let target = match anchor {
            Some(id) => self.store.older_msg_id(id),
            None => self.store.newest_msg_id(),
        };
        match target {
            Some(x) => {
                self.cursor = Cursor::Msg(x);
                self.correction = Some(Correction::MakeCursorVisible);
            },
            None => {},
        }
        proof {
            match old(self).anchor() {
                Some(id) => {
                    if exists|x: u64| old(self).older_spec(id, x) {
                        let x = choose|x: u64| old(self).older_spec(id, x);
                        assert(target is Some);
                    }
                },
                None => {
                    if exists|x: u64| old(self).newest_spec(x) {
                        let x = choose|x: u64| old(self).newest_spec(x);
                        if target is None {
                            assert(!old(self).store.ids().contains(x));
                            assert(false);
                        }
                    }
                },
            }
        }
    }

    /// Moves the cursor chronologically forwards: from a message to the
    /// smallest stored id above it, or to the bottom when none exists.
    pub fn move_cursor_newer(&mut self)
        requires
            old(self).wf(),
        ensures
            final(self).wf(),
            final(self).only_cursor_moved(*old(self)),
            match old(self).cursor {
                Cursor::Editor { .. } => *final(self) == *old(self),
                _ => match old(self).anchor() {
                    Some(id) => if exists|x: u64| old(self).newer_spec(id, x) {
                        final(self).cursor matches Cursor::Msg(x) && old(self).newer_spec(id, x)
                            && final(self).correction == Some(Correction::MakeCursorVisible)
                    } else {
                        final(self).cursor == Cursor::Bottom && final(self).correction == Some(
                            Correction::MakeCursorVisible,
                        )
                    },
                    None => *final(self) == *old(self),
                },
            },
    {
        let anchor = match self.cursor {
            Cursor::Msg(id) => Some(id),
            Cursor::Pseudo { coming_from, .. } => coming_from,
            Cursor::Bottom => None,
            Cursor::Editor { .. } => {
                return ;
            },
        };
        match anchor {
            Some(id) => {
                match self.store.newer_msg_id(id) {
                    Some(x) => {
                        self.cursor = Cursor::Msg(x);
                    },
                    None => {
                        self.cursor = Cursor::Bottom;
                    },
                }
                self.correction = Some(Correction::MakeCursorVisible);
                proof {
                    if exists|x: u64| old(self).newer_spec(id, x) {
                        let x = choose|x: u64| old(self).newer_spec(id, x);
                        assert(self.cursor matches Cursor::Msg(_));
                    }
                }
            },
            None => {},
        }
    }

    /// Moves the cursor to the first tree's root; an empty room keeps the
    /// cursor where it was.
    pub fn move_cursor_to_top(&mut self)
        requires
            old(self).wf(),
        ensures
            final(self).wf(),
            final(self).only_cursor_moved(*old(self)),
            match old(self).cursor {
                Cursor::Editor { .. } => *final(self) == *old(self),
                _ => if exists|x: u64|
                    old(self).store.ids().contains(x) && (#[trigger] old(self).store.msg_of(
                        x,
                    )).spec_parent() is None {
                    {
                        &&& final(self).cursor matches Cursor::Msg(x)
                        &&& old(self).store.ids().contains(x)
                        &&& old(self).store.msg_of(x).spec_parent() is None
                        &&& (forall|y: u64|
                            old(self).store.ids().contains(y) && (#[trigger] old(self).store.msg_of(y)).spec_parent() is None ==> x <= y)
                        &&& final(self).correction == Some(Correction::MakeCursorVisible)
                    }
                } else {
                    *final(self) == *old(self)
                },
            },
    {
        match self.cursor {
            Cursor::Editor { .. } => {
                return ;
            },
            _ => {},
        }
        match self.store.first_tree_id() {
            Some(x) => {
                self.cursor = Cursor::Msg(x);
                self.correction = Some(Correction::MakeCursorVisible);
            },
            None => {},
        }
        proof {
            if exists|x: u64|
                old(self).store.ids().contains(x) && (#[trigger] old(self).store.msg_of(
                    x,
                )).spec_parent() is None {
                let x = choose|x: u64|
                    old(self).store.ids().contains(x) && (#[trigger] old(self).store.msg_of(
                        x,
                    )).spec_parent() is None;
                assert(self.cursor matches Cursor::Msg(_));
            }
        }
    }

    /// Moves the cursor to the bottom of the room.
    pub fn move_cursor_to_bottom(&mut self)
        requires
            old(self).wf(),
        ensures
            final(self).wf(),
            final(self).only_cursor_moved(*old(self)),
            match old(self).cursor {
                Cursor::Editor { .. } => *final(self) == *old(self),
                _ => final(self).cursor == Cursor::Bottom && final(self).correction == Some(
                    Correction::MakeCursorVisible,
                ),
            },
    {
        match self.cursor {
            Cursor::Editor { .. } => {
                return ;
            },
            _ => {},
        }
        self.cursor = Cursor::Bottom;
        self.correction = Some(Correction::MakeCursorVisible);
    }

    /// Scrolls the view up without moving the cursor; the cursor is pulled
    /// back on screen on the next layout.
    pub fn scroll_up(&mut self, amount: i32)
        ensures
            final(self).store == old(self).store,
            final(self).editor == old(self).editor,
            final(self).cursor == old(self).cursor,
            final(self).last_cursor == old(self).last_cursor,
            final(self).last_cursor_line == old(self).last_cursor_line,
            final(self).scroll as int == sat_i32(old(self).scroll as int + amount as int),
            final(self).correction == Some(Correction::MoveCursorToVisibleArea),
    {
        self.scroll = sat_add_i32(self.scroll, amount);
        self.correction = Some(Correction::MoveCursorToVisibleArea);
    }

    /// Scrolls the view down without moving the cursor.
    pub fn scroll_down(&mut self, amount: i32)
        ensures
            final(self).store == old(self).store,
            final(self).editor == old(self).editor,
            final(self).cursor == old(self).cursor,
            final(self).last_cursor == old(self).last_cursor,
            final(self).last_cursor_line == old(self).last_cursor_line,
            final(self).scroll as int == sat_i32(old(self).scroll as int - amount as int),
            final(self).correction == Some(Correction::MoveCursorToVisibleArea),
    {
        self.scroll = sat_sub_i32(self.scroll, amount);
        self.correction = Some(Correction::MoveCursorToVisibleArea);
    }

    /// What `move_cursor_down` does, as a relation on the view state.
    pub open spec fn down_rel(pre: Self, post: Self) -> bool {
        &&& post.only_cursor_moved(pre)
        &&& match pre.cursor {
            Cursor::Editor { .. } => post == pre,
            _ => match pre.anchor() {
                Some(id) => if !pre.store.ids().contains(id) {
                    post == pre
                } else if exists|x: u64| pre.first_child_spec(id, x) {
                    post.cursor matches Cursor::Msg(x) && pre.first_child_spec(id, x)
                        && post.correction == Some(Correction::MakeCursorVisible)
                } else if exists|a: u64|
                    #[trigger] pre.has_next_sibling(a) && pre.ancestor_or_self(id, a) {
                    (exists|a: u64, c: u64|
                        pre.ancestor_or_self(id, a) && #[trigger] pre.next_sibling_spec(a, c) && (
                        forall|a2: u64|
                            pre.ancestor_or_self(id, a2) && a2 > a ==> !pre.has_next_sibling(a2))
                            && post.cursor == Cursor::Msg(c)) && post.correction == Some(
                        Correction::MakeCursorVisible,
                    )
                } else if exists|r: u64|
                    #[trigger] pre.next_root_spec(store_root_of(&pre.store, id), r) {
                    (exists|r: u64|
                        #[trigger] pre.next_root_spec(store_root_of(&pre.store, id), r)
                            && post.cursor == Cursor::Msg(r)) && post.correction == Some(
                        Correction::MakeCursorVisible,
                    )
                } else {
                    post.cursor == Cursor::Bottom && post.correction == Some(
                        Correction::MakeCursorVisible,
                    )
                },
                None => post == pre,
            },
        }
    }

    /// What `move_cursor_up` does, as a relation on the view state.
    pub open spec fn up_rel(pre: Self, post: Self) -> bool {
        &&& post.only_cursor_moved(pre)
        &&& match pre.cursor {
            Cursor::Editor { .. } => post == pre,
            _ => match pre.anchor() {
                Some(id) => if !pre.store.ids().contains(id) {
                    post == pre
                } else {
                    match pre.store.msg_of(id).spec_parent() {
                        Some(py) => if pre.store.ids().contains(py) {
                            if exists|c: u64| pre.smaller_sibling_spec(id, py, c) {
                                (exists|sib: u64|
                                    #[trigger] pre.greatest_smaller_sibling(id, py, sib)
                                        && post.cursor == Cursor::Msg(
                                        store_last_desc(&pre.store, sib),
                                    )) && post.correction == Some(Correction::MakeCursorVisible)
                            } else {
                                post.cursor == Cursor::Msg(py) && post.correction == Some(
                                    Correction::MakeCursorVisible,
                                )
                            }
                        } else {
                            if exists|r: u64| pre.prev_root_spec(id, r) {
                                (exists|r: u64|
                                    #[trigger] pre.prev_root_spec(id, r) && post.cursor
                                        == Cursor::Msg(store_last_desc(&pre.store, r)))
                                    && post.correction == Some(Correction::MakeCursorVisible)
                            } else {
                                post == pre
                            }
                        },
                        None => if exists|r: u64| pre.prev_root_spec(id, r) {
                            (exists|r: u64|
                                #[trigger] pre.prev_root_spec(id, r) && post.cursor == Cursor::Msg(
                                    store_last_desc(&pre.store, r),
                                )) && post.correction == Some(Correction::MakeCursorVisible)
                        } else {
                            post == pre
                        },
                    }
                },
                None => if exists|r: u64| pre.last_root_spec(r) {
                    (exists|r: u64|
                        #[trigger] pre.last_root_spec(r) && post.cursor == Cursor::Msg(
                            store_last_desc(&pre.store, r),
                        )) && post.correction == Some(Correction::MakeCursorVisible)
                } else {
                    post == pre
                },
            },
        }
    }

    /// What `move_cursor_older` does, as a relation on the view state.
    pub open spec fn older_rel(pre: Self, post: Self) -> bool {
        &&& post.only_cursor_moved(pre)
        &&& match pre.cursor {
            Cursor::Editor { .. } => post == pre,
            _ => match pre.anchor() {
                Some(id) => if exists|x: u64| pre.older_spec(id, x) {
                    post.cursor matches Cursor::Msg(x) && pre.older_spec(id, x) && post.correction
                        == Some(Correction::MakeCursorVisible)
                } else {
                    post == pre
                },
                None => if exists|x: u64| pre.newest_spec(x) {
                    post.cursor matches Cursor::Msg(x) && pre.newest_spec(x) && post.correction
                        == Some(Correction::MakeCursorVisible)
                } else {
                    post == pre
                },
            },
        }
    }

    /// What `move_cursor_newer` does, as a relation on the view state.
    pub open spec fn newer_rel(pre: Self, post: Self) -> bool {
        &&& post.only_cursor_moved(pre)
        &&& match pre.cursor {
            Cursor::Editor { .. } => post == pre,
            _ => match pre.anchor() {
                Some(id) => if exists|x: u64| pre.newer_spec(id, x) {
                    post.cursor matches Cursor::Msg(x) && pre.newer_spec(id, x) && post.correction
                        == Some(Correction::MakeCursorVisible)
                } else {
                    post.cursor == Cursor::Bottom && post.correction == Some(
                        Correction::MakeCursorVisible,
                    )
                },
                None => post == pre,
            },
        }
    }

    /// What `move_cursor_to_top` does, as a relation on the view state.
    pub open spec fn top_rel(pre: Self, post: Self) -> bool {
        &&& post.only_cursor_moved(pre)
        &&& match pre.cursor {
            Cursor::Editor { .. } => post == pre,
            _ => if exists|x: u64|
                pre.store.ids().contains(x) && (#[trigger] pre.store.msg_of(x)).spec_parent()
                    is None {
                {
                    &&& post.cursor matches Cursor::Msg(x)
                    &&& pre.store.ids().contains(x)
                    &&& pre.store.msg_of(x).spec_parent() is None
                    &&& (forall|y: u64|
                        pre.store.ids().contains(y) && (#[trigger] pre.store.msg_of(
                            y,
                        )).spec_parent() is None ==> x <= y)
                    &&& post.correction == Some(Correction::MakeCursorVisible)
                }
            } else {
                post == pre
            },
        }
    }

    /// What `move_cursor_to_bottom` does, as a relation on the view state.
    pub open spec fn bottom_rel(pre: Self, post: Self) -> bool {
        &&& post.only_cursor_moved(pre)
        &&& match pre.cursor {
            Cursor::Editor { .. } => post == pre,
            _ => post.cursor == Cursor::Bottom && post.correction == Some(
                Correction::MakeCursorVisible,
            ),
        }
    }

    /// What a scroll by `delta` lines upward does (negative: downward).
    pub open spec fn scroll_rel(pre: Self, post: Self, delta: int) -> bool {
        &&& post.store == pre.store
        &&& post.editor == pre.editor
        &&& post.cursor == pre.cursor
        &&& post.last_cursor == pre.last_cursor
        &&& post.last_cursor_line == pre.last_cursor_line
        &&& post.scroll as int == sat_i32(pre.scroll as int + delta)
        &&& post.correction == Some(Correction::MoveCursorToVisibleArea)
    }

    /// Handles the movement and scrolling keys; other keys change nothing.
    /// The half- and full-screen scroll amounts derive from the chat
    /// height in lines.
    pub fn handle_movement_key_event(&mut self, chat_height: u16, event: Key) -> (r: bool)
        requires
            old(self).wf(),
        ensures
            final(self).wf(),
            final(self).store == old(self).store,
            final(self).editor == old(self).editor,
            match event {
                Key::Char(c) => if c == 'k' {
                    r && Self::up_rel(*old(self), *final(self))
                } else if c == 'j' {
                    r && Self::down_rel(*old(self), *final(self))
                } else if c == 'h' {
                    r && Self::older_rel(*old(self), *final(self))
                } else if c == 'l' {
                    r && Self::newer_rel(*old(self), *final(self))
                } else if c == 'g' {
                    r && Self::top_rel(*old(self), *final(self))
                } else if c == 'G' {
                    r && Self::bottom_rel(*old(self), *final(self))
                } else {
                    !r && *final(self) == *old(self)
                },
                Key::Up => r && Self::up_rel(*old(self), *final(self)),
                Key::Down => r && Self::down_rel(*old(self), *final(self)),
                Key::Left => r && Self::older_rel(*old(self), *final(self)),
                Key::Right => r && Self::newer_rel(*old(self), *final(self)),
                Key::Home => r && Self::top_rel(*old(self), *final(self)),
                Key::End => r && Self::bottom_rel(*old(self), *final(self)),
                Key::Ctrl(c) => if c == 'y' {
                    r && Self::scroll_rel(*old(self), *final(self), 1)
                } else if c == 'e' {
                    r && Self::scroll_rel(*old(self), *final(self), -1)
                } else if c == 'u' {
                    r && Self::scroll_rel(*old(self), *final(self), (chat_height / 2) as int)
                } else if c == 'd' {
                    r && Self::scroll_rel(*old(self), *final(self), -((chat_height / 2) as int))
                } else if c == 'b' {
                    r && Self::scroll_rel(
                        *old(self),
                        *final(self),
                        (if chat_height > 0 {
                            (chat_height - 1) as int
                        } else {
                            0int
                        }),
                    )
                } else if c == 'f' {
                    r && Self::scroll_rel(
                        *old(self),
                        *final(self),
                        -(if chat_height > 0 {
                            (chat_height - 1) as int
                        } else {
                            0int
                        }),
                    )
                } else {
                    !r && *final(self) == *old(self)
                },
                _ => !r && *final(self) == *old(self),
            },
    {
        match event {
            Key::Char(c) => {
                if c == 'k' {
                    self.move_cursor_up();
                    true
                } else if c == 'j' {
                    self.move_cursor_down();
                    true
                } else if c == 'h' {
                    self.move_cursor_older();
                    true
                } else if c == 'l' {
                    self.move_cursor_newer();
                    true
                } else if c == 'g' {
                    self.move_cursor_to_top();
                    true
                } else if c == 'G' {
                    self.move_cursor_to_bottom();
                    true
                } else {
                    false
                }
            },
            Key::Up => {
                self.move_cursor_up();
                true
            },
            Key::Down => {
                self.move_cursor_down();
                true
            },
            Key::Left => {
                self.move_cursor_older();
                true
            },
            Key::Right => {
                self.move_cursor_newer();
                true
            },
            Key::Home => {
                self.move_cursor_to_top();
                true
            },
            Key::End => {
                self.move_cursor_to_bottom();
                true
            },
            Key::Ctrl(c) => {
                if c == 'y' {
                    self.scroll_up(1);
                    true
                } else if c == 'e' {
                    self.scroll_down(1);
                    true
                } else if c == 'u' {
                    self.scroll_up((chat_height / 2) as i32);
                    true
                } else if c == 'd' {
                    self.scroll_down((chat_height / 2) as i32);
                    true
                } else if c == 'b' {
                    let amount = if chat_height > 0 {
                        chat_height - 1
                    } else {
                        0
                    };
                    self.scroll_up(amount as i32);
                    true
                } else if c == 'f' {
                    let amount = if chat_height > 0 {
                        chat_height - 1
                    } else {
                        0
                    };
                    self.scroll_down(amount as i32);
                    true
                } else {
                    false
                }
            },
            _ => false,
        }
    }

    /// The keys that move the cursor or scroll the view.
    pub open spec fn is_movement_key(event: Key) -> bool {
        match event {
            Key::Char(c) => c == 'k' || c == 'j' || c == 'h' || c == 'l' || c == 'g' || c == 'G',
            Key::Up | Key::Down | Key::Left | Key::Right | Key::Home | Key::End => true,
            Key::Ctrl(c) => c == 'y' || c == 'e' || c == 'u' || c == 'd' || c == 'b' || c == 'f',
            _ => false,
        }
    }

    /// The keys that start composing.
    pub open spec fn is_edit_key(event: Key) -> bool {
        match event {
            Key::Char(c) => c == 'r' || c == 'R' || c == 't' || c == 'T',
            _ => false,
        }
    }

    /// What handling a movement key does; any other key changes nothing.
    pub open spec fn movement_rel(pre: Self, post: Self, chat_height: u16, event: Key) -> bool {
        match event {
            Key::Char(c) => if c == 'k' {
                Self::up_rel(pre, post)
            } else if c == 'j' {
                Self::down_rel(pre, post)
            } else if c == 'h' {
                Self::older_rel(pre, post)
            } else if c == 'l' {
                Self::newer_rel(pre, post)
            } else if c == 'g' {
                Self::top_rel(pre, post)
            } else if c == 'G' {
                Self::bottom_rel(pre, post)
            } else {
                post == pre
            },
            Key::Up => Self::up_rel(pre, post),
            Key::Down => Self::down_rel(pre, post),
            Key::Left => Self::older_rel(pre, post),
            Key::Right => Self::newer_rel(pre, post),
            Key::Home => Self::top_rel(pre, post),
            Key::End => Self::bottom_rel(pre, post),
            Key::Ctrl(c) => if c == 'y' {
                Self::scroll_rel(pre, post, 1)
            } else if c == 'e' {
                Self::scroll_rel(pre, post, -1)
            } else if c == 'u' {
                Self::scroll_rel(pre, post, (chat_height / 2) as int)
            } else if c == 'd' {
                Self::scroll_rel(pre, post, -((chat_height / 2) as int))
            } else if c == 'b' {
                Self::scroll_rel(
                    pre,
                    post,
                    (if chat_height > 0 {
                        (chat_height - 1) as int
                    } else {
                        0int
                    }),
                )
            } else if c == 'f' {
                Self::scroll_rel(
                    pre,
                    post,
                    -(if chat_height > 0 {
                        (chat_height - 1) as int
                    } else {
                        0int
                    }),
                )
            } else {
                post == pre
            },
            _ => post == pre,
        }
    }

    /// What handling an edit-initiating key does: the cursor becomes an
    /// editor over the reply parent the key selects.
    pub open spec fn edit_rel(pre: Self, post: Self, event: Key, id: Option<u64>) -> bool {
        &&& post.store == pre.store
        &&& post.editor == pre.editor
        &&& post.last_cursor == pre.last_cursor
        &&& post.scroll == pre.scroll
        &&& match event {
            Key::Char(c) => if c == 'r' {
                post.cursor == (Cursor::Editor {
                    coming_from: id,
                    parent: match id {
                        None => None::<u64>,
                        Some(x) => Some(
                            if pre.store.ids().contains(x) && pre.store.msg_of(x).spec_parent()
                                is Some {
                                pre.store.msg_of(x).spec_parent()->Some_0
                            } else {
                                x
                            },
                        ),
                    },
                }) && post.correction == Some(Correction::MakeCursorVisible)
            } else if c == 'R' {
                post.cursor == (Cursor::Editor { coming_from: id, parent: id }) && post.correction
                    == Some(Correction::MakeCursorVisible)
            } else if c == 't' || c == 'T' {
                post.cursor == (Cursor::Editor { coming_from: id, parent: None::<u64> })
                    && post.correction == Some(Correction::MakeCursorVisible)
            } else {
                post == pre
            },
            _ => post == pre,
        }
    }

    /// What handling a key in the editor does: escape abandons the draft,
    /// enter with non-blank content composes, other keys edit.
    pub open spec fn editor_rel(
        pre: Self,
        post: Self,
        event: Key,
        coming_from: Option<u64>,
        parent: Option<u64>,
        r: Reaction,
    ) -> bool {
        &&& post.store == pre.store
        &&& post.last_cursor == pre.last_cursor
        &&& post.scroll == pre.scroll
        &&& match event {
            Key::Esc => r matches Reaction::Handled && post.cursor == (match coming_from {
                Some(c) => Cursor::Msg(c),
                None => Cursor::Bottom,
            }) && post.editor == pre.editor,
            Key::Enter => if !is_blank(pre.editor@) {
                &&& r matches Reaction::Composed { parent: rp, content: rc }
                &&& rp == parent
                &&& rc@ == pre.editor@
                &&& post.cursor == (Cursor::Pseudo { coming_from, parent })
                &&& post.editor == pre.editor
            } else {
                &&& r matches Reaction::Handled
                &&& post.cursor == pre.cursor
                &&& post.editor == pre.editor
                &&& post.correction == Some(Correction::MakeCursorVisible)
            },
            Key::Char(c) => {
                &&& r matches Reaction::Handled
                &&& post.editor@ == pre.editor@.push(c)
                &&& post.cursor == pre.cursor
                &&& post.correction == Some(Correction::MakeCursorVisible)
            },
            Key::Backspace => {
                &&& r matches Reaction::Handled
                &&& post.editor@ == (if pre.editor@.len() == 0 {
                    pre.editor@
                } else {
                    pre.editor@.drop_last()
                })
                &&& post.cursor == pre.cursor
                &&& post.correction == Some(Correction::MakeCursorVisible)
            },
            _ => r matches Reaction::NotHandled && post == pre,
        }
    }

    /// Handles a key while no editor is open: movement first, then, when
    /// composing is allowed, the edit-initiating keys.
    pub fn handle_normal_key_event(
        &mut self,
        chat_height: u16,
        event: Key,
        can_compose: bool,
        id: Option<u64>,
    ) -> (r: bool)
        requires
            old(self).wf(),
        ensures
            final(self).wf(),
            final(self).store == old(self).store,
            if Self::is_movement_key(event) {
                r && Self::movement_rel(*old(self), *final(self), chat_height, event)
            } else if can_compose && Self::is_edit_key(event) {
                r && Self::edit_rel(*old(self), *final(self), event, id)
            } else {
                !r && *final(self) == *old(self)
            },
    {
        if self.handle_movement_key_event(chat_height, event) {
            true
        } else if can_compose {
            self.handle_edit_initiating_key_event(event, id)
        } else {
            false
        }
    }

    /// Handles one key according to the cursor: the editor consumes keys
    /// while composing, the pseudo cursor allows movement only, and
    /// otherwise movement and composition are available.
    pub fn handle_key_event(&mut self, chat_height: u16, event: Key, can_compose: bool) -> (r:
        Reaction)
        requires
            old(self).wf(),
        ensures
            final(self).wf(),
            final(self).store == old(self).store,
            match old(self).cursor {
                Cursor::Bottom => if Self::is_movement_key(event) {
                    r matches Reaction::Handled && Self::movement_rel(
                        *old(self),
                        *final(self),
                        chat_height,
                        event,
                    )
                } else if can_compose && Self::is_edit_key(event) {
                    r matches Reaction::Handled && Self::edit_rel(
                        *old(self),
                        *final(self),
                        event,
                        None,
                    )
                } else {
                    r matches Reaction::NotHandled && *final(self) == *old(self)
                },
                Cursor::Msg(id) => if Self::is_movement_key(event) {
                    r matches Reaction::Handled && Self::movement_rel(
                        *old(self),
                        *final(self),
                        chat_height,
                        event,
                    )
                } else if can_compose && Self::is_edit_key(event) {
                    r matches Reaction::Handled && Self::edit_rel(
                        *old(self),
                        *final(self),
                        event,
                        Some(id),
                    )
                } else {
                    r matches Reaction::NotHandled && *final(self) == *old(self)
                },
                Cursor::Editor { coming_from, parent } => Self::editor_rel(
                    *old(self),
                    *final(self),
                    event,
                    coming_from,
                    parent,
                    r,
                ),
                Cursor::Pseudo { .. } => if Self::is_movement_key(event) {
                    r matches Reaction::Handled && Self::movement_rel(
                        *old(self),
                        *final(self),
                        chat_height,
                        event,
                    )
                } else {
                    r matches Reaction::NotHandled && *final(self) == *old(self)
                },
            },
    {
        match self.cursor {
            Cursor::Bottom => {
                if self.handle_normal_key_event(chat_height, event, can_compose, None) {
                    Reaction::Handled
                } else {
                    Reaction::NotHandled
                }
            },
            Cursor::Msg(id) => {
                if self.handle_normal_key_event(chat_height, event, can_compose, Some(id)) {
                    Reaction::Handled
                } else {
                    Reaction::NotHandled
                }
            },
            Cursor::Editor { coming_from, parent } => self.handle_editor_key_event(
                event,
                coming_from,
                parent,
            ),
            Cursor::Pseudo { .. } => {
                if self.handle_movement_key_event(chat_height, event) {
                    Reaction::Handled
                } else {
                    Reaction::NotHandled
                }
            },
        }
    }

    /// Lists the movement key bindings: seven rows describing cursor
    /// movement and scrolling, appended in order.
    pub fn list_movement_key_bindings(&self, bindings: &mut KeyBindingsList)
        ensures
            final(bindings)@.len() == old(bindings)@.len() + 7,
            final(bindings)@.take(old(bindings)@.len() as int) == old(bindings)@,
            movement_rows_at(final(bindings)@, old(bindings)@.len() as int),
    {
        let ghost b0 = bindings@;
        bindings.binding("j/k, ↓/↑", "move cursor up/down");
        let ghost b1 = bindings@;
        bindings.binding("h/l, ←/→", "move cursor chronologically");
        let ghost b2 = bindings@;
        bindings.binding("g, home", "move cursor to top");
        let ghost b3 = bindings@;
        bindings.binding("G, end", "move cursor to bottom");
        let ghost b4 = bindings@;
        bindings.binding("ctrl+y/e", "scroll up/down a line");
        let ghost b5 = bindings@;
        bindings.binding("ctrl+u/d", "scroll up/down half a screen");
        let ghost b6 = bindings@;
        bindings.binding("ctrl+b/f", "scroll up/down one screen");
        proof {
            let b7 = bindings@;
            assert(b7.drop_last() == b6 && b6.drop_last() == b5 && b5.drop_last() == b4
                && b4.drop_last() == b3 && b3.drop_last() == b2 && b2.drop_last() == b1
                && b1.drop_last() == b0);
            assert(b7.take(b0.len() as int) =~= b0);
            assert(b7[b0.len() as int] == b1.last());
            assert(b7[b0.len() as int + 1] == b2.last());
            assert(b7[b0.len() as int + 2] == b3.last());
            assert(b7[b0.len() as int + 3] == b4.last());
            assert(b7[b0.len() as int + 4] == b5.last());
            assert(b7[b0.len() as int + 5] == b6.last());
            assert(b7[b0.len() as int + 6] == b7.last());
            assert(movement_rows_at(b7, b0.len() as int));
        }
    }

    /// Lists the edit-initiating key bindings: a separator, the two reply
    /// forms, and the new-thread key.
    pub fn list_edit_initiating_key_bindings(&self, bindings: &mut KeyBindingsList)
        ensures
            final(bindings)@.len() == old(bindings)@.len() + 5,
            final(bindings)@.take(old(bindings)@.len() as int) == old(bindings)@,
            edit_rows_at(final(bindings)@, old(bindings)@.len() as int),
    {
        let ghost b0 = bindings@;
        bindings.empty();
        let ghost b1 = bindings@;
        bindings.binding("r", "reply to message");
        let ghost b2 = bindings@;
        bindings.binding_ctd("(inline if possible, otherwise directly)");
        let ghost b3 = bindings@;
        bindings.binding("R", "reply to message (opposite of r)");
        let ghost b4 = bindings@;
        bindings.binding("t", "start a new thread");
        proof {
            let b5 = bindings@;
            assert(b5.drop_last() == b4 && b4.drop_last() == b3 && b3.drop_last() == b2
                && b2.drop_last() == b1 && b1.drop_last() == b0);
            assert(b5.take(b0.len() as int) =~= b0);
            assert(b5[b0.len() as int] == b1.last());
            assert(b5[b0.len() as int + 1] == b2.last());
            assert(b5[b0.len() as int + 2] == b3.last());
            assert(b5[b0.len() as int + 3] == b4.last());
            assert(b5[b0.len() as int + 4] == b5.last());
            assert(edit_rows_at(b5, b0.len() as int));
        }
    }

    /// Lists the editor key bindings shown while composing.
    pub fn list_editor_key_bindings(&self, bindings: &mut KeyBindingsList)
        ensures
            final(bindings)@.len() == old(bindings)@.len() + 3,
            final(bindings)@.take(old(bindings)@.len() as int) == old(bindings)@,
            editor_rows_at(final(bindings)@, old(bindings)@.len() as int),
    {
        let ghost b0 = bindings@;
        bindings.binding("esc", "close editor");
        let ghost b1 = bindings@;
        bindings.binding("enter", "send message");
        let ghost b2 = bindings@;
        bindings.binding("backspace", "delete previous character");
        proof {
            let b3 = bindings@;
            assert(b3.drop_last() == b2 && b2.drop_last() == b1 && b1.drop_last() == b0);
            assert(b3.take(b0.len() as int) =~= b0);
            assert(b3[b0.len() as int] == b1.last());
            assert(b3[b0.len() as int + 1] == b2.last());
            assert(b3[b0.len() as int + 2] == b3.last());
            assert(editor_rows_at(b3, b0.len() as int));
        }
    }

    /// Lists the bindings available outside the editor: the movement rows
    /// always, followed by the edit-initiating rows when composing is
    /// allowed.
    pub fn list_normal_key_bindings(&self, bindings: &mut KeyBindingsList, can_compose: bool)
        ensures
            final(bindings)@.len() == old(bindings)@.len() + (if can_compose {
                12int
            } else {
                7int
            }),
            final(bindings)@.take(old(bindings)@.len() as int) == old(bindings)@,
            movement_rows_at(final(bindings)@, old(bindings)@.len() as int),
            can_compose ==> edit_rows_at(final(bindings)@, old(bindings)@.len() as int + 7),
    {
        let ghost b0 = bindings@;
        self.list_movement_key_bindings(bindings);
        let ghost b1 = bindings@;
        if can_compose {
            self.list_edit_initiating_key_bindings(bindings);
            proof {
                assert(bindings@.take(b0.len() as int) =~= b0) by {
                    assert(b1.take(b0.len() as int) == b0);
                    assert(bindings@.take(b1.len() as int) == b1);
                }
                lemma_movement_rows_preserved(b1, bindings@, b0.len() as int);
            }
        }
    }

    /// Lists the bindings the current cursor makes available, under a
    /// heading row: movement and composition rows at a message or at the
    /// bottom, the editor rows while composing, movement rows only at the
    /// placeholder of a sent message.
    pub fn list_key_bindings(&self, bindings: &mut KeyBindingsList, can_compose: bool)
        ensures
            final(bindings)@.len() == old(bindings)@.len() + 1 + (match self.cursor {
                Cursor::Bottom | Cursor::Msg(_) => if can_compose {
                    12int
                } else {
                    7int
                },
                Cursor::Editor { .. } => 3int,
                Cursor::Pseudo { .. } => 7int,
            }),
            final(bindings)@.take(old(bindings)@.len() as int) == old(bindings)@,
            final(bindings)@[old(bindings)@.len() as int] matches BindingLine::Heading(t) && t@
                == "Chat"@,
            match self.cursor {
                Cursor::Bottom | Cursor::Msg(_) => movement_rows_at(
                    final(bindings)@,
                    old(bindings)@.len() as int + 1,
                ) && (can_compose ==> edit_rows_at(
                    final(bindings)@,
                    old(bindings)@.len() as int + 8,
                )),
                Cursor::Editor { .. } => editor_rows_at(
                    final(bindings)@,
                    old(bindings)@.len() as int + 1,
                ),
                Cursor::Pseudo { .. } => movement_rows_at(
                    final(bindings)@,
                    old(bindings)@.len() as int + 1,
                ),
            },
    {
        let ghost b0 = bindings@;
        bindings.heading("Chat");
        let ghost b1 = bindings@;
        match self.cursor {
            Cursor::Bottom | Cursor::Msg(_) => {
                self.list_normal_key_bindings(bindings, can_compose);
            },
            Cursor::Editor { .. } => {
                self.list_editor_key_bindings(bindings);
            },
            Cursor::Pseudo { .. } => {
                self.list_movement_key_bindings(bindings);
            },
        }
        proof {
            assert(bindings@.take(b0.len() as int) =~= b0) by {
                assert(b1.take(b0.len() as int) =~= b0);
                assert(bindings@.take(b1.len() as int) == b1);
            }
            assert(bindings@[b0.len() as int] == b1.last()) by {
                assert(bindings@.take(b1.len() as int) == b1);
            }
        }
    }

    /// The server's answer to a sent message: with an id, the pseudo
    /// cursor becomes that message and the editor is cleared; without
    /// one, the cursor falls back to where composing started.
    pub fn sent(&mut self, id: Option<u64>)
        requires
            old(self).wf(),
        ensures
            final(self).wf(),
            final(self).store == old(self).store,
            final(self).scroll == old(self).scroll,
            final(self).correction == old(self).correction,
            match old(self).cursor {
                Cursor::Pseudo { coming_from, .. } => match id {
                    Some(x) => final(self).cursor == Cursor::Msg(x) && final(self).last_cursor
                        == Cursor::Msg(x) && final(self).editor@ == Seq::<char>::empty(),
                    None => final(self).cursor == (match coming_from {
                        Some(c) => Cursor::Msg(c),
                        None => Cursor::Bottom,
                    }) && final(self).last_cursor == old(self).last_cursor && final(self).editor
                        == old(self).editor,
                },
                _ => *final(self) == *old(self),
            },
    {
        match self.cursor {
            Cursor::Pseudo { coming_from, .. } => {
                match id {
                    Some(x) => {
                        self.last_cursor = Cursor::Msg(x);
                        self.cursor = Cursor::Msg(x);
                        self.editor.clear();
                    },
                    None => {
                        self.cursor = match coming_from {
                            Some(c) => Cursor::Msg(c),
                            None => Cursor::Bottom,
                        };
                    },
                }
            },
            _ => {},
        }
    }
}

} // verus!
