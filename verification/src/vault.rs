//! The per-room archive: a forest of messages keyed by id, a set of spans
//! recording which id ranges are fully known, and a seen bit per message.

use vstd::prelude::*;

use crate::store::{ids_distinct, in_tree, msg_wf, seq_contains_id, Msg, MsgStore, Path, Tree};

verus! {

/// One archived message of a room.
pub struct ArchivedMsg {
    pub id: u64,
    pub parent: Option<u64>,
    pub time: u64,
    pub sender: String,
    pub content: String,
    pub seen: bool,
}

impl ArchivedMsg {
    pub fn clone_msg(&self) -> (r: Self)
        ensures
            r == *self,
    {
        ArchivedMsg {
            id: self.id,
            parent: self.parent,
            time: self.time,
            sender: self.sender.clone(),
            content: self.content.clone(),
            seen: self.seen,
        }
    }
}

impl Msg for ArchivedMsg {
    open spec fn spec_id(&self) -> u64 {
        self.id
    }

    open spec fn spec_parent(&self) -> Option<u64> {
        self.parent
    }

    open spec fn spec_seen(&self) -> bool {
        self.seen
    }

    open spec fn spec_last_possible_id() -> u64 {
        u64::MAX
    }

    open spec fn with_seen(&self, seen: bool) -> Self {
        ArchivedMsg { seen, ..*self }
    }

    proof fn with_seen_facts(&self, seen: bool) {
    }

    fn id(&self) -> u64 {
        self.id
    }

    fn parent(&self) -> Option<u64> {
        self.parent
    }

    fn seen(&self) -> bool {
        self.seen
    }

    fn last_possible_id() -> u64 {
        u64::MAX
    }
}

/// A closed id interval `[lo, hi]` for which the archive knows every message
/// that ever existed.
#[derive(Clone, Copy, Debug, PartialEq, Eq, Structural)]
pub struct Span {
    pub lo: u64,
    pub hi: u64,
}

/// Messages in strictly ascending id order.
pub open spec fn sorted_by_id(s: Seq<ArchivedMsg>) -> bool {
    forall|i: int, j: int| 0 <= i < j < s.len() ==> #[trigger] s[i].id < #[trigger] s[j].id
}

/// Spans in ascending order, each non-empty, with a gap of at least one id
/// between consecutive spans, so touching or overlapping spans are merged.
pub open spec fn spans_wf(s: Seq<Span>) -> bool {
    &&& forall|i: int| 0 <= i < s.len() ==> (#[trigger] s[i]).lo <= s[i].hi
    &&& forall|i: int| 0 <= i < s.len() - 1 ==> (#[trigger] s[i]).hi + 1 < s[i + 1].lo
}

/// Whether the id `x` lies inside one of the spans.
pub open spec fn spans_cover(s: Seq<Span>, x: u64) -> bool {
    exists|i: int| 0 <= i < s.len() && (#[trigger] s[i]).lo <= x <= s[i].hi
}

/// Whether `x` lies in the closed interval `[lo, hi]`.
pub open spec fn covers_range(lo: u64, hi: u64, x: u64) -> bool {
    lo <= x <= hi
}

/// In a well-formed span sequence, every earlier span ends at least two ids
/// before a later one starts.
proof fn lemma_spans_order_pair(s: Seq<Span>, a: int, b: int)
    requires
        spans_wf(s),
        0 <= a < b < s.len(),
    ensures
        s[a].hi + 1 < s[b].lo,
    decreases b - a,
{
    if a + 1 == b {
    } else {
        lemma_spans_order_pair(s, a, b - 1);
        assert(s[b - 1].lo <= s[b - 1].hi);
        assert(s[b - 1].hi + 1 < s[b].lo);
    }
}

/// The ids the messages of `s` carry, in order.
pub open spec fn seq_ids(s: Seq<ArchivedMsg>) -> Seq<u64> {
    s.map_values(|m: ArchivedMsg| m.id)
}

/// The position of the message carrying `id` in `s`.
pub open spec fn seq_index_of(s: Seq<ArchivedMsg>, id: u64) -> int {
    choose|i: int| 0 <= i < s.len() && #[trigger] s[i].id == id
}

/// The archive of one room.
pub struct Archive {
    msgs: Vec<ArchivedMsg>,
    spans: Vec<Span>,
}

impl Archive {
    pub closed spec fn msg_seq(&self) -> Seq<ArchivedMsg> {
        self.msgs@
    }

    pub closed spec fn span_seq(&self) -> Seq<Span> {
        self.spans@
    }

    /// Whether the archive's span set covers the id `x`.
    pub open spec fn covers(&self, x: u64) -> bool {
        spans_cover(self.span_seq(), x)
    }

    pub open spec fn wf(&self) -> bool {
        &&& sorted_by_id(self.msg_seq())
        &&& forall|i: int| 0 <= i < self.msg_seq().len() ==> msg_wf(#[trigger] self.msg_seq()[i])
        &&& spans_wf(self.span_seq())
    }

    /// The ids the archive holds, in storage order.
    pub open spec fn id_seq(&self) -> Seq<u64> {
        seq_ids(self.msg_seq())
    }

    /// The set of ids the archive holds.
    pub open spec fn spec_ids(&self) -> Set<u64> {
        seq_ids(self.msg_seq()).to_set()
    }

    pub open spec fn index_of(&self, id: u64) -> int {
        seq_index_of(self.msg_seq(), id)
    }

    /// The message stored under `id`, meaningful when the archive holds it.
    pub open spec fn spec_msg_of(&self, id: u64) -> ArchivedMsg {
        self.msg_seq()[seq_index_of(self.msg_seq(), id)]
    }

    /// Membership in `spec_ids` is the same as some message carrying the id.
    pub proof fn lemma_ids_iff(&self)
        ensures
            forall|x: u64| self.spec_ids().contains(x) <==> seq_contains_id(self.msg_seq(), x),
    {
        broadcast use vstd::set::group_set_axioms;

        let mapped = self.id_seq();
        assert forall|x: u64| self.spec_ids().contains(x) implies seq_contains_id(
            self.msg_seq(),
            x,
        ) by {
            assert(mapped.contains(x));
            let i = choose|i: int| 0 <= i < mapped.len() && mapped[i] == x;
            assert(seq_contains_id(self.msg_seq(), x)) by {
                assert(self.msg_seq()[i].spec_id() == x);
            }
        }
        assert forall|x: u64| seq_contains_id(self.msg_seq(), x) implies self.spec_ids().contains(
            x,
        ) by {
            let i = choose|i: int|
                0 <= i < self.msg_seq().len() && #[trigger] self.msg_seq()[i].spec_id() == x;
            assert(mapped[i] == x);
            assert(mapped.contains(x));
        }
    }

    /// The index holding `id` is unique, so `index_of` picks it.
    pub proof fn lemma_index_unique(&self, i: int, id: u64)
        requires
            self.wf(),
            0 <= i < self.msg_seq().len(),
            self.msg_seq()[i].id == id,
        ensures
            self.spec_ids().contains(id),
            self.index_of(id) == i,
            self.spec_msg_of(id) == self.msg_seq()[i],
    {
        self.lemma_ids_iff();
        assert(seq_contains_id(self.msg_seq(), id)) by {
            assert(self.msg_seq()[i].spec_id() == id);
        }
        let k = self.index_of(id);
        assert(0 <= k < self.msg_seq().len() && self.msg_seq()[k].id == id);
        if k != i {
            assert(false);
        }
    }

    /// A fresh, empty archive.
    pub fn new() -> (r: Self)
        ensures
            r.wf(),
            r.msg_seq() == Seq::<ArchivedMsg>::empty(),
            r.span_seq() == Seq::<Span>::empty(),
            r.spec_ids() =~= Set::<u64>::empty(),
    {
        let r = Archive { msgs: Vec::new(), spans: Vec::new() };
        proof {
            r.lemma_ids_iff();
        }
        r
    }

    /// Every stored index corresponds to a member id, and vice versa.
    pub proof fn lemma_member_facts(&self)
        requires
            self.wf(),
        ensures
            forall|x: u64| self.spec_ids().contains(x) <==> seq_contains_id(self.msg_seq(), x),
            forall|i: int|
                0 <= i < self.msg_seq().len() ==> self.spec_ids().contains(
                    #[trigger] self.msg_seq()[i].id,
                ) && self.spec_msg_of(self.msg_seq()[i].id) == self.msg_seq()[i],
    {
        self.lemma_ids_iff();
        assert forall|i: int| 0 <= i < self.msg_seq().len() implies self.spec_ids().contains(
            #[trigger] self.msg_seq()[i].id,
        ) && self.spec_msg_of(self.msg_seq()[i].id) == self.msg_seq()[i] by {
            self.lemma_index_unique(i, self.msg_seq()[i].id);
        }
    }

    /// The spans currently stored, in ascending order.
    pub fn span_list(&self) -> (r: Vec<Span>)
        ensures
            r@ == self.span_seq(),
    {
        let n = self.spans.len();
        let mut r: Vec<Span> = Vec::new();
        let mut i: usize = 0;
        while i < n
            invariant
                n == self.span_seq().len(),
                i <= n,
                r@ == self.span_seq().take(i as int),
            decreases n - i,
        {
            r.push(self.spans[i]);
            assert(r@ == self.span_seq().take(i + 1 as int));
            i += 1;
        }
        proof {
            assert(self.span_seq().take(n as int) =~= self.span_seq());
        }
        r
    }

    /// Whether the span set covers the id `x`.
    pub fn is_covered(&self, x: u64) -> (r: bool)
        ensures
            r == self.covers(x),
    {
        let n = self.spans.len();
        let mut i: usize = 0;
        while i < n
            invariant
                n == self.span_seq().len(),
                i <= n,
                forall|k: int|
                    0 <= k < i ==> !((#[trigger] self.span_seq()[k]).lo <= x
                        <= self.span_seq()[k].hi),
            decreases n - i,
        {
            let s = self.spans[i];
            if s.lo <= x && x <= s.hi {
                proof {
                    assert(self.span_seq()[i as int].lo <= x <= self.span_seq()[i as int].hi);
                }
                return true;
            }
            i += 1;
        }
        proof {
            if self.covers(x) {
                let k = choose|k: int|
                    0 <= k < self.span_seq().len() && (#[trigger] self.span_seq()[k]).lo <= x
                        <= self.span_seq()[k].hi;
                assert(false);
            }
        }
        false
    }

    /// The position of `id` in the message vector.
    fn find(&self, id: u64) -> (r: Option<usize>)
        requires
            self.wf(),
        ensures
            match r {
                Some(i) => i < self.msg_seq().len() && self.msg_seq()[i as int].id == id
                    && self.spec_ids().contains(id) && self.index_of(id) == i
                    && self.spec_msg_of(id) == self.msg_seq()[i as int],
                None => !self.spec_ids().contains(id),
            },
    {
        let n = self.msgs.len();
        let mut i: usize = 0;
        while i < n
            invariant
                n == self.msg_seq().len(),
                i <= n,
                self.wf(),
                forall|k: int| 0 <= k < i ==> #[trigger] self.msg_seq()[k].id != id,
            decreases n - i,
        {
            if self.msgs[i].id == id {
                proof {
                    self.lemma_index_unique(i as int, id);
                }
                return Some(i);
            }
            i += 1;
        }
        proof {
            self.lemma_ids_iff();
            if seq_contains_id(self.msg_seq(), id) {
                let k = choose|k: int|
                    0 <= k < self.msg_seq().len() && #[trigger] self.msg_seq()[k].spec_id() == id;
                assert(false);
            }
        }
        None
    }

    /// The stored message with this id.
    pub fn msg(&self, id: u64) -> (r: Option<ArchivedMsg>)
        requires
            self.wf(),
        ensures
            match r {
                Some(m) => self.spec_ids().contains(id) && m == self.spec_msg_of(id),
                None => !self.spec_ids().contains(id),
            },
    {
        match self.find(id) {
            Some(i) => Some(self.msgs[i].clone_msg()),
            None => None,
        }
    }

    /// The smallest stored id.
    pub fn oldest_msg_id(&self) -> (r: Option<u64>)
        requires
            self.wf(),
        ensures
            match r {
                Some(x) => self.spec_ids().contains(x) && (forall|y: u64|
                    self.spec_ids().contains(y) ==> x <= y),
                None => self.spec_ids() =~= Set::<u64>::empty(),
            },
    {
        proof {
            self.lemma_member_facts();
        }
        if self.msgs.len() == 0 {
            None
        } else {
            let x = self.msgs[0].id;
            proof {
                assert forall|y: u64| self.spec_ids().contains(y) implies x <= y by {
                    let i = choose|i: int|
                        0 <= i < self.msg_seq().len() && #[trigger] self.msg_seq()[i].spec_id()
                            == y;
                    if i > 0 {
                        assert(self.msg_seq()[0].id < self.msg_seq()[i].id);
                    }
                }
            }
            Some(x)
        }
    }

    /// The largest stored id.
    pub fn newest_msg_id(&self) -> (r: Option<u64>)
        requires
            self.wf(),
        ensures
            match r {
                Some(x) => self.spec_ids().contains(x) && (forall|y: u64|
                    self.spec_ids().contains(y) ==> y <= x),
                None => self.spec_ids() =~= Set::<u64>::empty(),
            },
    {
        proof {
            self.lemma_member_facts();
        }
        let n = self.msgs.len();
        if n == 0 {
            None
        } else {
            let x = self.msgs[n - 1].id;
            proof {
                assert forall|y: u64| self.spec_ids().contains(y) implies y <= x by {
                    let i = choose|i: int|
                        0 <= i < self.msg_seq().len() && #[trigger] self.msg_seq()[i].spec_id()
                            == y;
                    if i < n - 1 {
                        assert(self.msg_seq()[i].id < self.msg_seq()[n - 1].id);
                    }
                }
            }
            Some(x)
        }
    }

    /// The largest stored id strictly below `id`.
    pub fn older_msg_id(&self, id: u64) -> (r: Option<u64>)
        requires
            self.wf(),
        ensures
            match r {
                Some(x) => self.spec_ids().contains(x) && x < id && (forall|y: u64|
                    self.spec_ids().contains(y) && y < id ==> y <= x),
                None => forall|y: u64| self.spec_ids().contains(y) ==> y >= id,
            },
    {
        proof {
            self.lemma_member_facts();
        }
        let n = self.msgs.len();
        let mut best: Option<u64> = None;
        let mut i: usize = 0;
        while i < n
            invariant
                n == self.msg_seq().len(),
                i <= n,
                self.wf(),
                match best {
                    Some(b) => b < id && seq_contains_id(self.msg_seq(), b) && (forall|k: int|
                        0 <= k < i && #[trigger] self.msg_seq()[k].id < id ==> self.msg_seq()[k].id
                            <= b),
                    None => forall|k: int| 0 <= k < i ==> #[trigger] self.msg_seq()[k].id >= id,
                },
            decreases n - i,
        {
            let m_id = self.msgs[i].id;
            if m_id < id {
                proof {
                    assert(self.msg_seq()[i as int].spec_id() == m_id);
                }
                best = Some(m_id);
            }
            i += 1;
        }
        proof {
            match best {
                Some(b) => {
                    assert forall|y: u64| self.spec_ids().contains(y) && y < id implies y <= b by {
                        let k = choose|k: int|
                            0 <= k < self.msg_seq().len()
                                && #[trigger] self.msg_seq()[k].spec_id() == y;
                        assert(self.msg_seq()[k].id < id);
                    }
                },
                None => {
                    assert forall|y: u64| self.spec_ids().contains(y) implies y >= id by {
                        let k = choose|k: int|
                            0 <= k < self.msg_seq().len()
                                && #[trigger] self.msg_seq()[k].spec_id() == y;
                        assert(self.msg_seq()[k].id >= id);
                    }
                },
            }
        }
        best
    }

    /// The smallest stored id strictly above `id`.
    pub fn newer_msg_id(&self, id: u64) -> (r: Option<u64>)
        requires
            self.wf(),
        ensures
            match r {
                Some(x) => self.spec_ids().contains(x) && x > id && (forall|y: u64|
                    self.spec_ids().contains(y) && y > id ==> y >= x),
                None => forall|y: u64| self.spec_ids().contains(y) ==> y <= id,
            },
    {
        proof {
            self.lemma_member_facts();
        }
        let n = self.msgs.len();
        let mut best: Option<u64> = None;
        let mut i: usize = 0;
        while i < n
            invariant
                n == self.msg_seq().len(),
                i <= n,
                self.wf(),
                match best {
                    Some(b) => b > id && seq_contains_id(self.msg_seq(), b) && (exists|kb: int|
                        0 <= kb < i && #[trigger] self.msg_seq()[kb].id == b) && (forall|k: int|
                        0 <= k < i && #[trigger] self.msg_seq()[k].id > id ==> self.msg_seq()[k].id
                            >= b),
                    None => forall|k: int| 0 <= k < i ==> #[trigger] self.msg_seq()[k].id <= id,
                },
            decreases n - i,
        {
            let m_id = self.msgs[i].id;
            if m_id > id && best.is_none() {
                proof {
                    assert(self.msg_seq()[i as int].spec_id() == m_id);
                    assert forall|k: int|
                        0 <= k < i + 1 && #[trigger] self.msg_seq()[k].id > id implies self.msg_seq()[k].id
                        >= m_id by {
                        if k < i {
                            assert(self.msg_seq()[k].id <= id);
                        }
                    }
                }
                best = Some(m_id);
            } else {
                proof {
                    match best {
                        Some(b) => {
                            let kb = choose|kb: int|
                                0 <= kb < i && #[trigger] self.msg_seq()[kb].id == b;
                            if kb < i {
                                assert(self.msg_seq()[kb].id <= self.msg_seq()[i as int].id);
                            }
                        },
                        None => {},
                    }
                }
            }
            i += 1;
        }
        proof {
            match best {
                Some(b) => {
                    assert forall|y: u64| self.spec_ids().contains(y) && y > id implies y >= b by {
                        let k = choose|k: int|
                            0 <= k < self.msg_seq().len()
                                && #[trigger] self.msg_seq()[k].spec_id() == y;
                        assert(self.msg_seq()[k].id > id);
                    }
                },
                None => {
                    assert forall|y: u64| self.spec_ids().contains(y) implies y <= id by {
                        let k = choose|k: int|
                            0 <= k < self.msg_seq().len()
                                && #[trigger] self.msg_seq()[k].spec_id() == y;
                        assert(self.msg_seq()[k].id <= id);
                    }
                },
            }
        }
        best
    }

    /// The extremal stored id satisfying a message predicate, scanning the
    /// whole archive: the smallest such id when `smallest` is set, the
    /// largest otherwise, each restricted to ids strictly beyond `bound`.
    ///
    /// `sel` classifies messages: roots (no parent) or unseen messages.
    fn scan_extremal(&self, want_root: bool, smallest: bool, bound: Option<u64>) -> (r: Option<
        u64,
    >)
        requires
            self.wf(),
        ensures
            match r {
                Some(x) => {
                    &&& self.spec_ids().contains(x)
                    &&& sel_match(self.spec_msg_of(x), want_root)
                    &&& (match bound {
                        Some(b) => if smallest {
                            x > b
                        } else {
                            x < b
                        },
                        None => true,
                    })
                    &&& forall|y: u64|
                        #![auto]
                        self.spec_ids().contains(y) && sel_match(self.spec_msg_of(y), want_root)
                            && (match bound {
                            Some(b) => if smallest {
                                y > b
                            } else {
                                y < b
                            },
                            None => true,
                        }) ==> (if smallest {
                            y >= x
                        } else {
                            y <= x
                        })
                },
                None => forall|y: u64|
                    #![auto]
                    self.spec_ids().contains(y) && sel_match(self.spec_msg_of(y), want_root) ==> (
                    match bound {
                        Some(b) => if smallest {
                            y <= b
                        } else {
                            y >= b
                        },
                        None => false,
                    }),
            },
    {
        proof {
            self.lemma_member_facts();
        }
        let n = self.msgs.len();
        let mut best: Option<u64> = None;
        let mut i: usize = 0;
        while i < n
            invariant
                n == self.msg_seq().len(),
                i <= n,
                self.wf(),
                match best {
                    Some(b) => {
                        &&& seq_contains_id(self.msg_seq(), b)
                        &&& exists|kb: int|
                            0 <= kb < i && #[trigger] self.msg_seq()[kb].id == b && sel_match(
                                self.msg_seq()[kb],
                                want_root,
                            )
                        &&& (match bound {
                            Some(bd) => if smallest {
                                b > bd
                            } else {
                                b < bd
                            },
                            None => true,
                        })
                        &&& forall|k: int|
                            #![auto]
                            0 <= k < i && sel_match(self.msg_seq()[k], want_root) && (match bound {
                                Some(bd) => if smallest {
                                    self.msg_seq()[k].id > bd
                                } else {
                                    self.msg_seq()[k].id < bd
                                },
                                None => true,
                            }) ==> (if smallest {
                                self.msg_seq()[k].id >= b
                            } else {
                                self.msg_seq()[k].id <= b
                            })
                    },
                    None => forall|k: int|
                        #![auto]
                        0 <= k < i && sel_match(self.msg_seq()[k], want_root) ==> (match bound {
                            Some(bd) => if smallest {
                                self.msg_seq()[k].id <= bd
                            } else {
                                self.msg_seq()[k].id >= bd
                            },
                            None => false,
                        }),
                },
            decreases n - i,
        {
            let m = &self.msgs[i];
            let selected = if want_root {
                m.parent.is_none()
            } else {
                !m.seen
            };
            let in_bound = match bound {
                Some(bd) => if smallest {
                    m.id > bd
                } else {
                    m.id < bd
                },
                None => true,
            };
            let take = selected && in_bound && (!smallest || best.is_none());
            if take {
                proof {
                    assert(self.msg_seq()[i as int].spec_id() == m.id);
                    if smallest {
                        assert forall|k: int|
                            #![auto]
                            0 <= k < i + 1 && sel_match(self.msg_seq()[k], want_root) && (
                            match bound {
                                Some(bd) => self.msg_seq()[k].id > bd,
                                None => true,
                            }) implies self.msg_seq()[k].id >= m.id by {
                            if k < i {
                                assert(false);
                            }
                        }
                    }
                }
                best = Some(m.id);
            } else {
                proof {
                    match best {
                        Some(b) => {
                            let kb = choose|kb: int|
                                0 <= kb < i && #[trigger] self.msg_seq()[kb].id == b && sel_match(
                                    self.msg_seq()[kb],
                                    want_root,
                                );
                            if smallest && selected && in_bound {
                                assert(self.msg_seq()[kb].id < self.msg_seq()[i as int].id);
                            }
                        },
                        None => {},
                    }
                }
            }
            i += 1;
        }
        proof {
            match best {
                Some(b) => {
                    assert forall|y: u64|
                        #![auto]
                        self.spec_ids().contains(y) && sel_match(self.spec_msg_of(y), want_root)
                            && (match bound {
                            Some(bd) => if smallest {
                                y > bd
                            } else {
                                y < bd
                            },
                            None => true,
                        }) implies (if smallest {
                        y >= b
                    } else {
                        y <= b
                    }) by {
                        let k = choose|k: int|
                            0 <= k < self.msg_seq().len()
                                && #[trigger] self.msg_seq()[k].spec_id() == y;
                        assert(self.spec_msg_of(y) == self.msg_seq()[k]);
                    }
                },
                None => {
                    assert forall|y: u64|
                        #![auto]
                        self.spec_ids().contains(y) && sel_match(
                            self.spec_msg_of(y),
                            want_root,
                        ) implies (match bound {
                        Some(bd) => if smallest {
                            y <= bd
                        } else {
                            y >= bd
                        },
                        None => false,
                    }) by {
                        let k = choose|k: int|
                            0 <= k < self.msg_seq().len()
                                && #[trigger] self.msg_seq()[k].spec_id() == y;
                        assert(self.spec_msg_of(y) == self.msg_seq()[k]);
                    }
                },
            }
        }
        best
    }

    /// The smallest root id: a root is a stored message without a parent.
    pub fn first_tree_id(&self) -> (r: Option<u64>)
        requires
            self.wf(),
        ensures
            match r {
                Some(x) => self.spec_ids().contains(x) && self.spec_msg_of(x).parent is None && (
                forall|y: u64|
                    self.spec_ids().contains(y) && (#[trigger] self.spec_msg_of(y)).parent is None
                        ==> x <= y),
                None => forall|y: u64|
                    self.spec_ids().contains(y) ==> (#[trigger] self.spec_msg_of(y)).parent
                        is Some,
            },
    {
        self.scan_extremal(true, true, None)
    }

    /// The largest root id.
    pub fn last_tree_id(&self) -> (r: Option<u64>)
        requires
            self.wf(),
        ensures
            match r {
                Some(x) => self.spec_ids().contains(x) && self.spec_msg_of(x).parent is None && (
                forall|y: u64|
                    self.spec_ids().contains(y) && (#[trigger] self.spec_msg_of(y)).parent is None
                        ==> y <= x),
                None => forall|y: u64|
                    self.spec_ids().contains(y) ==> (#[trigger] self.spec_msg_of(y)).parent
                        is Some,
            },
    {
        self.scan_extremal(true, false, None)
    }

    /// The largest root id strictly below `tree_id`.
    pub fn prev_tree_id(&self, tree_id: u64) -> (r: Option<u64>)
        requires
            self.wf(),
        ensures
            match r {
                Some(x) => self.spec_ids().contains(x) && self.spec_msg_of(x).parent is None && x
                    < tree_id && (forall|y: u64|
                    self.spec_ids().contains(y) && (#[trigger] self.spec_msg_of(y)).parent is None
                        && y < tree_id ==> y <= x),
                None => forall|y: u64|
                    self.spec_ids().contains(y) && (#[trigger] self.spec_msg_of(y)).parent is None
                        ==> y >= tree_id,
            },
    {
        self.scan_extremal(true, false, Some(tree_id))
    }

    /// The smallest root id strictly above `tree_id`.
    pub fn next_tree_id(&self, tree_id: u64) -> (r: Option<u64>)
        requires
            self.wf(),
        ensures
            match r {
                Some(x) => self.spec_ids().contains(x) && self.spec_msg_of(x).parent is None && x
                    > tree_id && (forall|y: u64|
                    self.spec_ids().contains(y) && (#[trigger] self.spec_msg_of(y)).parent is None
                        && y > tree_id ==> y >= x),
                None => forall|y: u64|
                    self.spec_ids().contains(y) && (#[trigger] self.spec_msg_of(y)).parent is None
                        ==> y <= tree_id,
            },
    {
        self.scan_extremal(true, true, Some(tree_id))
    }

    /// The smallest unseen stored id.
    pub fn oldest_unseen_msg_id(&self) -> (r: Option<u64>)
        requires
            self.wf(),
        ensures
            match r {
                Some(x) => self.spec_ids().contains(x) && !self.spec_msg_of(x).seen && (forall|
                    y: u64,
                |
                    self.spec_ids().contains(y) && !(#[trigger] self.spec_msg_of(y)).seen ==> x
                        <= y),
                None => forall|y: u64|
                    self.spec_ids().contains(y) ==> (#[trigger] self.spec_msg_of(y)).seen,
            },
    {
        self.scan_extremal(false, true, None)
    }

    /// The largest unseen stored id.
    pub fn newest_unseen_msg_id(&self) -> (r: Option<u64>)
        requires
            self.wf(),
        ensures
            match r {
                Some(x) => self.spec_ids().contains(x) && !self.spec_msg_of(x).seen && (forall|
                    y: u64,
                |
                    self.spec_ids().contains(y) && !(#[trigger] self.spec_msg_of(y)).seen ==> y
                        <= x),
                None => forall|y: u64|
                    self.spec_ids().contains(y) ==> (#[trigger] self.spec_msg_of(y)).seen,
            },
    {
        self.scan_extremal(false, false, None)
    }

    /// The largest unseen stored id strictly below `id`.
    pub fn older_unseen_msg_id(&self, id: u64) -> (r: Option<u64>)
        requires
            self.wf(),
        ensures
            match r {
                Some(x) => self.spec_ids().contains(x) && !self.spec_msg_of(x).seen && x < id && (
                forall|y: u64|
                    self.spec_ids().contains(y) && !(#[trigger] self.spec_msg_of(y)).seen && y < id
                        ==> y <= x),
                None => forall|y: u64|
                    self.spec_ids().contains(y) && !(#[trigger] self.spec_msg_of(y)).seen ==> y
                        >= id,
            },
    {
        self.scan_extremal(false, false, Some(id))
    }

    /// The smallest unseen stored id strictly above `id`.
    pub fn newer_unseen_msg_id(&self, id: u64) -> (r: Option<u64>)
        requires
            self.wf(),
        ensures
            match r {
                Some(x) => self.spec_ids().contains(x) && !self.spec_msg_of(x).seen && x > id && (
                forall|y: u64|
                    self.spec_ids().contains(y) && !(#[trigger] self.spec_msg_of(y)).seen && y > id
                        ==> y >= x),
                None => forall|y: u64|
                    self.spec_ids().contains(y) && !(#[trigger] self.spec_msg_of(y)).seen ==> y
                        <= id,
            },
    {
        self.scan_extremal(false, true, Some(id))
    }
}

impl Archive {
    /// Two archives with messages of equal ids at equal positions store the
    /// same ids, and `spec_msg_of` picks the message at the same position.
    proof fn lemma_same_layout(&self, other: &Archive)
        requires
            self.wf(),
            other.wf(),
            self.msg_seq().len() == other.msg_seq().len(),
            forall|k: int|
                0 <= k < self.msg_seq().len() ==> #[trigger] self.msg_seq()[k].id
                    == other.msg_seq()[k].id,
        ensures
            self.spec_ids() == other.spec_ids(),
            forall|k: int|
                0 <= k < self.msg_seq().len() ==> self.spec_msg_of(#[trigger] self.msg_seq()[k].id)
                    == self.msg_seq()[k] && other.spec_msg_of(self.msg_seq()[k].id)
                    == other.msg_seq()[k],
    {
        self.lemma_member_facts();
        other.lemma_member_facts();
        assert(self.spec_ids() =~= other.spec_ids()) by {
            assert forall|x: u64| self.spec_ids().contains(x) implies other.spec_ids().contains(
                x,
            ) by {
                let k = choose|k: int|
                    0 <= k < self.msg_seq().len() && #[trigger] self.msg_seq()[k].spec_id() == x;
                assert(other.msg_seq()[k].spec_id() == x);
            }
            assert forall|x: u64| other.spec_ids().contains(x) implies self.spec_ids().contains(
                x,
            ) by {
                let k = choose|k: int|
                    0 <= k < other.msg_seq().len() && #[trigger] other.msg_seq()[k].spec_id() == x;
                assert(self.msg_seq()[k].spec_id() == x);
            }
        }
        assert forall|k: int| 0 <= k < self.msg_seq().len() implies self.spec_msg_of(
            #[trigger] self.msg_seq()[k].id,
        ) == self.msg_seq()[k] && other.spec_msg_of(self.msg_seq()[k].id)
            == other.msg_seq()[k] by {
            self.lemma_index_unique(k, self.msg_seq()[k].id);
            other.lemma_index_unique(k, self.msg_seq()[k].id);
        }
    }

    /// Sets the seen bit of one message; everything else is unchanged.
    #[verifier::rlimit(50)]
    pub fn set_seen(&mut self, id: u64, seen: bool)
        requires
            old(self).wf(),
        ensures
            final(self).wf(),
            final(self).spec_ids() == old(self).spec_ids(),
            final(self).span_seq() == old(self).span_seq(),
            forall|x: u64|
                old(self).spec_ids().contains(x) && x != id ==> #[trigger] final(self).spec_msg_of(
                    x,
                ) == old(self).spec_msg_of(x),
            old(self).spec_ids().contains(id) ==> final(self).spec_msg_of(id) == old(
                self,
            ).spec_msg_of(id).with_seen(seen),
    {
        let ghost pre = *self;
        match self.find(id) {
            None => {
                proof {
                    pre.lemma_same_layout(&pre);
                }
            },
            Some(i) => {
                let m = self.msgs.remove(i);
                let m2 = ArchivedMsg { seen, ..m };
                self.msgs.insert(i, m2);
                proof {
                    assert(self.msg_seq() =~= pre.msg_seq().update(
                        i as int,
                        pre.msg_seq()[i as int].with_seen(seen),
                    ));
                    assert(self.wf());
                    pre.lemma_same_layout(self);
                    assert forall|x: u64|
                        pre.spec_ids().contains(x) && x != id implies #[trigger] self.spec_msg_of(
                        x,
                    ) == pre.spec_msg_of(x) by {
                        pre.lemma_member_facts();
                        let k = choose|k: int|
                            0 <= k < pre.msg_seq().len() && #[trigger] pre.msg_seq()[k].spec_id()
                                == x;
                        assert(pre.msg_seq()[k].id == x);
                        if k == i {
                            assert(false);
                        }
                        assert(self.spec_msg_of(self.msg_seq()[k].id) == self.msg_seq()[k]);
                    }
                    if pre.spec_ids().contains(id) {
                        assert(self.spec_msg_of(self.msg_seq()[i as int].id)
                            == self.msg_seq()[i as int]);
                        assert(pre.spec_msg_of(id) == pre.msg_seq()[i as int]);
                    }
                }
            },
        }
    }

    /// Sets the seen bit of every message whose id is at or below `id`;
    /// everything else is unchanged. One pass, applied atomically.
    #[verifier::rlimit(50)]
    pub fn set_older_seen(&mut self, id: u64, seen: bool)
        requires
            old(self).wf(),
        ensures
            final(self).wf(),
            final(self).spec_ids() == old(self).spec_ids(),
            final(self).span_seq() == old(self).span_seq(),
            forall|x: u64|
                old(self).spec_ids().contains(x) && x > id ==> #[trigger] final(self).spec_msg_of(
                    x,
                ) == old(self).spec_msg_of(x),
            forall|x: u64|
                old(self).spec_ids().contains(x) && x <= id ==> #[trigger] final(self).spec_msg_of(
                    x,
                ) == old(self).spec_msg_of(x).with_seen(seen),
    {
        let ghost pre = *self;
        let n = self.msgs.len();
        let mut i: usize = 0;
        while i < n
            invariant
                n == self.msg_seq().len(),
                i <= n,
                pre.wf(),
                pre.msg_seq().len() == n,
                forall|k: int|
                    0 <= k < n ==> #[trigger] self.msg_seq()[k] == (if k < i && pre.msg_seq()[k].id
                        <= id {
                        pre.msg_seq()[k].with_seen(seen)
                    } else {
                        pre.msg_seq()[k]
                    }),
                self.span_seq() == pre.span_seq(),
            decreases n - i,
        {
            let ghost mid = self.msg_seq();
            if self.msgs[i].id <= id {
                let m = self.msgs.remove(i);
                let m2 = ArchivedMsg { seen, ..m };
                self.msgs.insert(i, m2);
                proof {
                    assert(self.msg_seq() =~= mid.update(
                        i as int,
                        mid[i as int].with_seen(seen),
                    ));
                }
            }
            i += 1;
        }
        proof {
            assert(self.wf());
            pre.lemma_same_layout(self);
            pre.lemma_member_facts();
            assert forall|x: u64|
                pre.spec_ids().contains(x) && x > id implies #[trigger] self.spec_msg_of(x)
                == pre.spec_msg_of(x) by {
                let k = choose|k: int|
                    0 <= k < pre.msg_seq().len() && #[trigger] pre.msg_seq()[k].spec_id() == x;
                assert(self.spec_msg_of(self.msg_seq()[k].id) == self.msg_seq()[k]);
                assert(pre.spec_msg_of(pre.msg_seq()[k].id) == pre.msg_seq()[k]);
            }
            assert forall|x: u64|
                pre.spec_ids().contains(x) && x <= id implies #[trigger] self.spec_msg_of(x)
                == pre.spec_msg_of(x).with_seen(seen) by {
                let k = choose|k: int|
                    0 <= k < pre.msg_seq().len() && #[trigger] pre.msg_seq()[k].spec_id() == x;
                assert(self.spec_msg_of(self.msg_seq()[k].id) == self.msg_seq()[k]);
                assert(pre.spec_msg_of(pre.msg_seq()[k].id) == pre.msg_seq()[k]);
            }
        }
    }

    /// Forgets everything the archive holds: messages, spans and seen bits.
    pub fn delete(&mut self)
        ensures
            final(self).wf(),
            final(self).spec_ids() =~= Set::<u64>::empty(),
            final(self).msg_seq() == Seq::<ArchivedMsg>::empty(),
            final(self).span_seq() == Seq::<Span>::empty(),
    {
        self.msgs = Vec::new();
        self.spans = Vec::new();
        proof {
            self.lemma_ids_iff();
        }
    }
}

/// Filtering keeps ids distinct and keeps exactly the matching messages.
proof fn lemma_filter_ids(s: Seq<ArchivedMsg>, pred: spec_fn(ArchivedMsg) -> bool)
    requires
        ids_distinct(s),
    ensures
        ids_distinct(s.filter(pred)),
        forall|x: u64|
            seq_contains_id(s.filter(pred), x) <==> (exists|i: int|
                0 <= i < s.len() && #[trigger] s[i].spec_id() == x && pred(s[i])),
        forall|k: int|
            0 <= k < s.filter(pred).len() ==> seq_contains_id(
                s,
                (#[trigger] s.filter(pred)[k]).spec_id(),
            ),
    decreases s.len(),
{
    reveal(Seq::filter);
    if s.len() == 0 {
    } else {
        let s0 = s.drop_last();
        let last = s.last();
        assert(ids_distinct(s0));
        lemma_filter_ids(s0, pred);
        let f0 = s0.filter(pred);
        let f = s.filter(pred);
        if pred(last) {
            assert(f == f0.push(last));
            assert forall|a: int, b: int|
                0 <= a < b < f.len() implies #[trigger] f[a].spec_id()
                != #[trigger] f[b].spec_id() by {
                if b == f.len() - 1 {
                    assert(f[a] == f0[a]);
                    assert(seq_contains_id(s0, f0[a].spec_id()));
                    let i = choose|i: int|
                        0 <= i < s0.len() && #[trigger] s0[i].spec_id() == f0[a].spec_id();
                    assert(s[i].spec_id() != s[s.len() - 1].spec_id());
                } else {
                    assert(f[a] == f0[a] && f[b] == f0[b]);
                }
            }
            assert forall|x: u64| seq_contains_id(f, x) implies (exists|i: int|
                0 <= i < s.len() && #[trigger] s[i].spec_id() == x && pred(s[i])) by {
                let k = choose|k: int| 0 <= k < f.len() && #[trigger] f[k].spec_id() == x;
                if k < f0.len() {
                    assert(seq_contains_id(f0, x)) by {
                        assert(f0[k].spec_id() == x);
                    }
                    let i = choose|i: int|
                        0 <= i < s0.len() && #[trigger] s0[i].spec_id() == x && pred(s0[i]);
                    assert(s[i].spec_id() == x && pred(s[i]));
                } else {
                    assert(s[s.len() - 1].spec_id() == x && pred(s[s.len() - 1]));
                }
            }
            assert forall|x: u64|
                (exists|i: int|
                    0 <= i < s.len() && #[trigger] s[i].spec_id() == x && pred(
                        s[i],
                    )) implies seq_contains_id(f, x) by {
                let i = choose|i: int|
                    0 <= i < s.len() && #[trigger] s[i].spec_id() == x && pred(s[i]);
                if i < s.len() - 1 {
                    assert(s0[i].spec_id() == x && pred(s0[i]));
                    assert(seq_contains_id(f0, x));
                    let k = choose|k: int| 0 <= k < f0.len() && #[trigger] f0[k].spec_id() == x;
                    assert(f[k].spec_id() == x);
                } else {
                    assert(f[f.len() - 1].spec_id() == x);
                }
            }
            assert forall|k: int| 0 <= k < f.len() implies seq_contains_id(
                s,
                (#[trigger] f[k]).spec_id(),
            ) by {
                if k < f0.len() {
                    assert(seq_contains_id(s0, f0[k].spec_id()));
                    let i = choose|i: int|
                        0 <= i < s0.len() && #[trigger] s0[i].spec_id() == f0[k].spec_id();
                    assert(s[i].spec_id() == f[k].spec_id());
                } else {
                    assert(s[s.len() - 1].spec_id() == f[k].spec_id());
                }
            }
        } else {
            assert(f == f0);
            assert forall|x: u64| seq_contains_id(f, x) implies (exists|i: int|
                0 <= i < s.len() && #[trigger] s[i].spec_id() == x && pred(s[i])) by {
                let i = choose|i: int|
                    0 <= i < s0.len() && #[trigger] s0[i].spec_id() == x && pred(s0[i]);
                assert(s[i].spec_id() == x && pred(s[i]));
            }
            assert forall|x: u64|
                (exists|i: int|
                    0 <= i < s.len() && #[trigger] s[i].spec_id() == x && pred(
                        s[i],
                    )) implies seq_contains_id(f, x) by {
                let i = choose|i: int|
                    0 <= i < s.len() && #[trigger] s[i].spec_id() == x && pred(s[i]);
                assert(i < s.len() - 1);
                assert(s0[i].spec_id() == x && pred(s0[i]));
            }
            assert forall|k: int| 0 <= k < f.len() implies seq_contains_id(
                s,
                (#[trigger] f[k]).spec_id(),
            ) by {
                assert(seq_contains_id(s0, f0[k].spec_id()));
                let i = choose|i: int|
                    0 <= i < s0.len() && #[trigger] s0[i].spec_id() == f0[k].spec_id();
                assert(s[i].spec_id() == f[k].spec_id());
            }
        }
    }
}

impl Archive {
    /// The set of unseen ids.
    pub open spec fn spec_unseen_set(&self) -> Set<u64> {
        self.spec_ids().filter(|x: u64| !self.spec_msg_of(x).seen)
    }

    /// How many stored messages are unseen.
    pub fn unseen_msgs_count(&self) -> (r: usize)
        requires
            self.wf(),
        ensures
            r == self.spec_unseen_set().len(),
    {
        let ghost pred = |m: ArchivedMsg| !m.seen;
        let n = self.msgs.len();
        let mut count: usize = 0;
        let mut i: usize = 0;
        while i < n
            invariant
                n == self.msg_seq().len(),
                i <= n,
                self.wf(),
                pred == (|m: ArchivedMsg| !m.seen),
                count == self.msg_seq().take(i as int).filter(pred).len(),
                count <= i,
            decreases n - i,
        {
            let ghost pre = self.msg_seq().take(i as int);
            let ghost cur = self.msg_seq().take(i + 1 as int);
            proof {
                reveal(Seq::filter);
                assert(cur.drop_last() =~= pre);
                assert(cur.last() == self.msg_seq()[i as int]);
                assert(cur.filter(pred) == if pred(cur.last()) {
                    pre.filter(pred).push(cur.last())
                } else {
                    pre.filter(pred)
                });
            }
            if !self.msgs[i].seen {
                count += 1;
            }
            i += 1;
        }
        proof {
            broadcast use vstd::set::group_set_axioms;

            assert(self.msg_seq().take(n as int) =~= self.msg_seq());
            let f = self.msg_seq().filter(pred);
            lemma_filter_ids(self.msg_seq(), pred);
            let mapped = f.map_values(|m: ArchivedMsg| m.id);
            assert(mapped.no_duplicates()) by {
                assert forall|a: int, b: int|
                    0 <= a < b < mapped.len() implies mapped[a] != mapped[b] by {
                    assert(f[a].spec_id() != f[b].spec_id());
                }
            }
            mapped.unique_seq_to_set();
            assert(self.spec_unseen_set() =~= mapped.to_set()) by {
                self.lemma_member_facts();
                assert forall|x: u64| self.spec_unseen_set().contains(x) implies mapped.to_set().contains(
                    x,
                ) by {
                    let i0 = choose|i0: int|
                        0 <= i0 < self.msg_seq().len() && #[trigger] self.msg_seq()[i0].spec_id()
                            == x;
                    assert(self.spec_msg_of(x) == self.msg_seq()[i0]);
                    assert(pred(self.msg_seq()[i0]));
                    assert(seq_contains_id(f, x));
                    let k = choose|k: int| 0 <= k < f.len() && #[trigger] f[k].spec_id() == x;
                    assert(mapped[k] == x);
                    assert(mapped.contains(x));
                }
                assert forall|x: u64| mapped.to_set().contains(x) implies self.spec_unseen_set().contains(
                    x,
                ) by {
                    assert(mapped.contains(x));
                    let k = choose|k: int| 0 <= k < mapped.len() && mapped[k] == x;
                    assert(f[k].spec_id() == x);
                    assert(seq_contains_id(f, x));
                    let i0 = choose|i0: int|
                        0 <= i0 < self.msg_seq().len() && #[trigger] self.msg_seq()[i0].spec_id()
                            == x && pred(self.msg_seq()[i0]);
                    assert(self.spec_ids().contains(x));
                    assert(self.spec_msg_of(x) == self.msg_seq()[i0]);
                }
            }
            assert(self.spec_unseen_set().len() == f.len());
        }
        count
    }
}

/// One merge step: widening the interval `[lo, hi]` by the touching span
/// `pre[i]` keeps it the exact union of the new span and the merged spans.
proof fn lemma_merge_step(
    pre: Seq<Span>,
    i0: int,
    i: int,
    lo: u64,
    hi: u64,
    sp: Span,
    new_lo: u64,
    new_hi: u64,
)
    requires
        spans_wf(pre),
        sp.lo <= sp.hi,
        0 <= i0 <= i < pre.len(),
        lo <= sp.lo,
        sp.hi <= hi,
        pre[i0].hi + 1 >= sp.lo,
        pre[i].lo <= hi + 1,
        new_lo == (if pre[i].lo < lo {
            pre[i].lo
        } else {
            lo
        }),
        new_hi == (if pre[i].hi > hi {
            pre[i].hi
        } else {
            hi
        }),
        forall|x: u64|
            #[trigger] covers_range(lo, hi, x) <==> (covers_range(sp.lo, sp.hi, x) || exists|k: int|
                i0 <= k < i && (#[trigger] pre[k]).lo <= x <= pre[k].hi),
    ensures
        forall|x: u64|
            #[trigger] covers_range(new_lo, new_hi, x) <==> (covers_range(sp.lo, sp.hi, x)
                || exists|k: int| i0 <= k < i + 1 && (#[trigger] pre[k]).lo <= x <= pre[k].hi),
{
    let s = pre[i];
    // The span being merged reaches at least `lo - 1`.
    if i == i0 {
        assert(covers_range(lo, hi, lo));
        assert(lo == sp.lo);
        assert(s.hi + 1 >= lo);
    } else {
        let j = i - 1;
        assert(pre[j].lo <= pre[j].hi);
        assert(covers_range(lo, hi, pre[j].lo)) by {
            assert(i0 <= j < i && pre[j].lo <= pre[j].lo <= pre[j].hi);
        }
        assert(pre[j].hi + 1 < pre[j + 1].lo);
        assert(s.hi + 1 >= lo);
    }
    assert forall|x: u64|
        #[trigger] covers_range(new_lo, new_hi, x) <==> (covers_range(sp.lo, sp.hi, x) || exists|
            k: int,
        | i0 <= k < i + 1 && (#[trigger] pre[k]).lo <= x <= pre[k].hi) by {
        if new_lo <= x <= new_hi {
            if covers_range(lo, hi, x) {
            } else if s.lo <= x <= s.hi {
                assert(pre[i].lo <= x <= pre[i].hi);
            } else {
                // x would lie in a gap between two touching intervals,
                // which cannot happen.
                assert(covers_range(lo, hi, lo));
                assert(s.lo <= x && x <= s.hi);
            }
        }
        if covers_range(sp.lo, sp.hi, x) {
            assert(covers_range(lo, hi, x));
            assert(new_lo <= x <= new_hi);
        }
        if exists|k: int| i0 <= k < i + 1 && (#[trigger] pre[k]).lo <= x <= pre[k].hi {
            let k = choose|k: int| i0 <= k < i + 1 && (#[trigger] pre[k]).lo <= x <= pre[k].hi;
            if k < i {
                assert(covers_range(lo, hi, x));
            }
            assert(new_lo <= x <= new_hi);
        }
    }
}

/// The shape of a span set after one union step: an untouched prefix, one
/// merged span, and an untouched suffix. This part: the result is well
/// formed.
#[verifier::rlimit(100)]
proof fn lemma_span_union_wf(pre: Seq<Span>, fin: Seq<Span>, sp: Span, merged: Span, i0: int, i1: int)
    requires
        spans_wf(pre),
        sp.lo <= sp.hi,
        0 <= i0 <= i1 <= pre.len(),
        merged.lo <= sp.lo,
        sp.hi <= merged.hi,
        fin == pre.take(i0).push(merged) + pre.subrange(i1, pre.len() as int),
        forall|k: int| 0 <= k < i0 ==> (#[trigger] pre[k]).hi + 1 < sp.lo,
        i1 < pre.len() ==> merged.hi + 1 < pre[i1].lo,
        forall|x: u64|
            #[trigger] covers_range(merged.lo, merged.hi, x) <==> (covers_range(sp.lo, sp.hi, x)
                || exists|k: int| i0 <= k < i1 && (#[trigger] pre[k]).lo <= x <= pre[k].hi),
    ensures
        spans_wf(fin),
{
    let n = pre.len() as int;
    let plen = i0 + 1;
    assert(fin.len() == plen + (n - i1));
    assert forall|k: int| 0 <= k < fin.len() implies fin[k] == (if k < i0 {
        pre[k]
    } else if k == i0 {
        merged
    } else {
        pre[k - plen + i1]
    }) by {}
    assert(merged.lo <= merged.hi);
    assert forall|k: int| 0 <= k < fin.len() - 1 implies (#[trigger] fin[k]).hi + 1 < fin[k
        + 1].lo by {
        if k == i0 - 1 {
            // The last untouched prefix span ends well before the merged
            // span starts.
            assert(pre[k].hi + 1 < sp.lo);
            if merged.lo < sp.lo {
                assert(covers_range(merged.lo, merged.hi, merged.lo));
                assert(!covers_range(sp.lo, sp.hi, merged.lo));
                let t = choose|t: int|
                    i0 <= t < i1 && (#[trigger] pre[t]).lo <= merged.lo <= pre[t].hi;
                lemma_spans_order_pair(pre, k, t);
            }
        } else if k == i0 {
            assert(i1 < pre.len());
        } else if k > i0 {
            assert(fin[k] == pre[k - plen + i1] && fin[k + 1] == pre[k + 1 - plen + i1]);
        }
    }
    assert(spans_wf(fin));
}

/// The same shape, other part: an id is covered afterwards exactly when it
/// was covered before or lies in the new span.
#[verifier::rlimit(100)]
proof fn lemma_span_union_cover(
    pre: Seq<Span>,
    fin: Seq<Span>,
    sp: Span,
    merged: Span,
    i0: int,
    i1: int,
)
    requires
        spans_wf(pre),
        sp.lo <= sp.hi,
        0 <= i0 <= i1 <= pre.len(),
        merged.lo <= sp.lo,
        sp.hi <= merged.hi,
        fin == pre.take(i0).push(merged) + pre.subrange(i1, pre.len() as int),
        forall|k: int| 0 <= k < i0 ==> (#[trigger] pre[k]).hi + 1 < sp.lo,
        i1 < pre.len() ==> merged.hi + 1 < pre[i1].lo,
        forall|x: u64|
            #[trigger] covers_range(merged.lo, merged.hi, x) <==> (covers_range(sp.lo, sp.hi, x)
                || exists|k: int| i0 <= k < i1 && (#[trigger] pre[k]).lo <= x <= pre[k].hi),
    ensures
        forall|x: u64|
            spans_cover(fin, x) <==> (spans_cover(pre, x) || covers_range(sp.lo, sp.hi, x)),
{
    let n = pre.len() as int;
    let plen = i0 + 1;
    assert(fin.len() == plen + (n - i1));
    assert forall|k: int| 0 <= k < fin.len() implies fin[k] == (if k < i0 {
        pre[k]
    } else if k == i0 {
        merged
    } else {
        pre[k - plen + i1]
    }) by {}
    assert forall|x: u64|
        spans_cover(fin, x) <==> (spans_cover(pre, x) || covers_range(sp.lo, sp.hi, x)) by {
        if spans_cover(fin, x) {
            let k = choose|k: int| 0 <= k < fin.len() && (#[trigger] fin[k]).lo <= x <= fin[k].hi;
            if k < i0 {
                assert(pre[k].lo <= x <= pre[k].hi);
                assert(spans_cover(pre, x));
            } else if k == i0 {
                assert(covers_range(merged.lo, merged.hi, x));
                if !covers_range(sp.lo, sp.hi, x) {
                    let t = choose|t: int| i0 <= t < i1 && (#[trigger] pre[t]).lo <= x <= pre[t].hi;
                    assert(spans_cover(pre, x));
                }
            } else {
                assert(pre[k - plen + i1].lo <= x <= pre[k - plen + i1].hi);
                assert(spans_cover(pre, x));
            }
        }
        if covers_range(sp.lo, sp.hi, x) {
            assert(covers_range(merged.lo, merged.hi, x));
            assert(fin[i0].lo <= x <= fin[i0].hi);
            assert(spans_cover(fin, x));
        }
        if spans_cover(pre, x) {
            let k = choose|k: int| 0 <= k < pre.len() && (#[trigger] pre[k]).lo <= x <= pre[k].hi;
            if k < i0 {
                assert(fin[k].lo <= x <= fin[k].hi);
                assert(spans_cover(fin, x));
            } else if k < i1 {
                assert(covers_range(merged.lo, merged.hi, x));
                assert(fin[i0].lo <= x <= fin[i0].hi);
                assert(spans_cover(fin, x));
            } else {
                assert(fin[k + plen - i1] == pre[k]);
                assert(spans_cover(fin, x));
            }
        }
    }
}

impl Archive {
    /// Unions one span into the span set, merging every stored span that
    /// overlaps or touches it, endpoints inclusive. The messages are
    /// untouched, and afterwards an id is covered exactly when it was
    /// covered before or lies in the new span.
    #[verifier::rlimit(100)]
    pub fn add_span(&mut self, sp: Span)
        requires
            old(self).wf(),
            sp.lo <= sp.hi,
        ensures
            final(self).wf(),
            final(self).msg_seq() == old(self).msg_seq(),
            forall|x: u64|
                final(self).covers(x) <==> (old(self).covers(x) || sp.lo <= x <= sp.hi),
    {
        let ghost pre = self.spans@;
        let n = self.spans.len();
        let mut out: Vec<Span> = Vec::new();
        let mut i: usize = 0;
        // Spans that end at least two ids before the new one stay as they are.
        while i < n && self.spans[i].hi < sp.lo && sp.lo - self.spans[i].hi >= 2
            invariant
                n == pre.len(),
                i <= n,
                self.spans@ == pre,
                self.wf(),
                sp.lo <= sp.hi,
                out@ == pre.take(i as int),
                forall|k: int| 0 <= k < i ==> (#[trigger] pre[k]).hi + 1 < sp.lo,
            decreases n - i,
        {
            out.push(self.spans[i]);
            assert(out@ == pre.take(i + 1 as int));
            i += 1;
        }
        let ghost i0 = i as int;
        // Merge every span that overlaps or touches the growing interval.
        let mut lo = sp.lo;
        let mut hi = sp.hi;
        while i < n && (self.spans[i].lo <= hi || self.spans[i].lo - hi == 1)
            invariant
                n == pre.len(),
                0 <= i0 <= i <= n,
                self.spans@ == pre,
                self.wf(),
                sp.lo <= sp.hi,
                lo <= sp.lo,
                sp.hi <= hi,
                i0 < n ==> pre[i0].hi + 1 >= sp.lo,
                forall|k: int| 0 <= k < i0 ==> (#[trigger] pre[k]).hi + 1 < sp.lo,
                forall|x: u64|
                    #[trigger] covers_range(lo, hi, x) <==> (covers_range(sp.lo, sp.hi, x)
                        || exists|k: int|
                        i0 <= k < i && (#[trigger] pre[k]).lo <= x <= pre[k].hi),
            decreases n - i,
        {
            let s = self.spans[i];
            let new_lo = if s.lo < lo {
                s.lo
            } else {
                lo
            };
            let new_hi = if s.hi > hi {
                s.hi
            } else {
                hi
            };
            proof {
                lemma_merge_step(pre, i0, i as int, lo, hi, sp, new_lo, new_hi);
            }
            lo = new_lo;
            hi = new_hi;
            i += 1;
        }
        let ghost i1 = i as int;
        let merged = Span { lo, hi };
        out.push(merged);
        let ghost outm = out@;
        // The spans past the merged range stay as they are.
        while i < n
            invariant
                n == pre.len(),
                0 <= i1 <= i <= n,
                self.spans@ == pre,
                out@ == outm + pre.subrange(i1, i as int),
            decreases n - i,
        {
            out.push(self.spans[i]);
            assert(out@ =~= outm + pre.subrange(i1, i + 1 as int));
            i += 1;
        }
        proof {
            assert(outm =~= pre.take(i0).push(merged));
            assert(out@ == pre.take(i0).push(merged) + pre.subrange(i1, n as int));
        }
        self.spans = out;
        proof {
            lemma_span_union_wf(pre, self.spans@, sp, merged, i0, i1);
            lemma_span_union_cover(pre, self.spans@, sp, merged, i0, i1);
            assert forall|x: u64|
                self.covers(x) <==> (old(self).covers(x) || sp.lo <= x <= sp.hi) by {
                assert(spans_cover(self.spans@, x) <==> (spans_cover(pre, x) || covers_range(
                    sp.lo,
                    sp.hi,
                    x,
                )));
            }
        }
    }
}

/// The last message in `s` that carries the id `x`: on repeated ids a later
/// entry wins, as an insert-or-replace per message would have it.
pub open spec fn batch_last(s: Seq<ArchivedMsg>, x: u64) -> ArchivedMsg
    decreases s.len(),
{
    if s.len() == 0 {
        arbitrary()
    } else if s.last().id == x {
        s.last()
    } else {
        batch_last(s.drop_last(), x)
    }
}

/// Replacing the stored message of an id in place, keeping its seen bit:
/// the archive holds the same ids, every other message unchanged.
#[verifier::rlimit(100)]
proof fn lemma_replace_msg(a: Archive, b: Archive, m: ArchivedMsg, m2: ArchivedMsg, pos: int)
    requires
        a.wf(),
        msg_wf(m),
        0 <= pos < a.msg_seq().len(),
        a.msg_seq()[pos].id == m.id,
        m2 == (ArchivedMsg { seen: a.msg_seq()[pos].seen, ..m }),
        b.msg_seq() == a.msg_seq().update(pos, m2),
        b.span_seq() == a.span_seq(),
    ensures
        b.wf(),
        a.spec_ids().contains(m.id),
        forall|x: u64| b.spec_ids().contains(x) <==> (a.spec_ids().contains(x) || x == m.id),
        forall|x: u64|
            a.spec_ids().contains(x) && x != m.id ==> #[trigger] b.spec_msg_of(x)
                == a.spec_msg_of(x),
        b.spec_msg_of(m.id) == (ArchivedMsg { seen: a.spec_msg_of(m.id).seen, ..m }),
{
    assert(b.wf());
    a.lemma_same_layout(&b);
    a.lemma_member_facts();
    b.lemma_member_facts();
    assert forall|x: u64|
        a.spec_ids().contains(x) && x != m.id implies #[trigger] b.spec_msg_of(x)
        == a.spec_msg_of(x) by {
        let k = choose|k: int|
            0 <= k < a.msg_seq().len() && #[trigger] a.msg_seq()[k].spec_id() == x;
        assert(b.spec_msg_of(b.msg_seq()[k].id) == b.msg_seq()[k]);
        assert(a.spec_msg_of(a.msg_seq()[k].id) == a.msg_seq()[k]);
    }
    assert(a.spec_ids().contains(m.id)) by {
        assert(a.msg_seq()[pos].spec_id() == m.id);
        a.lemma_ids_iff();
    }
    assert(a.spec_msg_of(a.msg_seq()[pos].id) == a.msg_seq()[pos]);
    assert(b.spec_msg_of(b.msg_seq()[pos].id) == b.msg_seq()[pos]);
}

/// Inserting a fresh message at its sorted position: the archive after is
/// the archive before plus the one id, with every other message unchanged.
#[verifier::rlimit(100)]
proof fn lemma_insert_fresh(a: Archive, b: Archive, m: ArchivedMsg, m2: ArchivedMsg, pos: int)
    requires
        a.wf(),
        msg_wf(m),
        m2 == (ArchivedMsg { seen: false, ..m }),
        0 <= pos <= a.msg_seq().len(),
        b.msg_seq() == a.msg_seq().insert(pos, m2),
        b.span_seq() == a.span_seq(),
        forall|k: int| 0 <= k < pos ==> #[trigger] a.msg_seq()[k].id < m.id,
        forall|k: int| pos <= k < a.msg_seq().len() ==> #[trigger] a.msg_seq()[k].id > m.id,
    ensures
        b.wf(),
        !a.spec_ids().contains(m.id),
        forall|x: u64| b.spec_ids().contains(x) <==> (a.spec_ids().contains(x) || x == m.id),
        forall|x: u64|
            a.spec_ids().contains(x) && x != m.id ==> #[trigger] b.spec_msg_of(x)
                == a.spec_msg_of(x),
        b.spec_msg_of(m.id) == m2,
{
    let fin = b.msg_seq();
    let s0 = a.msg_seq();
    let n = s0.len() as int;
    assert(fin.len() == n + 1);
    assert forall|k: int| 0 <= k < fin.len() implies fin[k] == (if k < pos {
        s0[k]
    } else if k == pos {
        m2
    } else {
        s0[k - 1]
    }) by {}
    assert(sorted_by_id(fin)) by {
        assert forall|u: int, v: int| 0 <= u < v < fin.len() implies #[trigger] fin[u].id
            < #[trigger] fin[v].id by {}
    }
    assert(forall|k: int| 0 <= k < fin.len() ==> msg_wf(#[trigger] fin[k]));
    assert(b.wf());
    a.lemma_member_facts();
    b.lemma_member_facts();
    assert(!a.spec_ids().contains(m.id)) by {
        if seq_contains_id(s0, m.id) {
            let k = choose|k: int| 0 <= k < s0.len() && #[trigger] s0[k].spec_id() == m.id;
            assert(false);
        }
        a.lemma_ids_iff();
    }
    assert forall|x: u64|
        b.spec_ids().contains(x) <==> (a.spec_ids().contains(x) || x == m.id) by {
        if b.spec_ids().contains(x) {
            let k = choose|k: int| 0 <= k < fin.len() && #[trigger] fin[k].spec_id() == x;
            if k < pos {
                assert(s0[k].spec_id() == x);
            } else if k > pos {
                assert(s0[k - 1].spec_id() == x);
            }
        }
        if a.spec_ids().contains(x) {
            let k = choose|k: int| 0 <= k < s0.len() && #[trigger] s0[k].spec_id() == x;
            if k < pos {
                assert(fin[k].spec_id() == x);
            } else {
                assert(fin[k + 1].spec_id() == x);
            }
            assert(b.spec_ids().contains(x));
        }
        if x == m.id {
            assert(fin[pos].spec_id() == x);
            assert(b.spec_ids().contains(x));
        }
    }
    assert forall|x: u64|
        a.spec_ids().contains(x) && x != m.id implies #[trigger] b.spec_msg_of(x)
        == a.spec_msg_of(x) by {
        let k = choose|k: int| 0 <= k < s0.len() && #[trigger] s0[k].spec_id() == x;
        assert(a.spec_msg_of(s0[k].id) == s0[k]);
        if k < pos {
            assert(b.spec_msg_of(fin[k].id) == fin[k]);
        } else {
            assert(b.spec_msg_of(fin[k + 1].id) == fin[k + 1]);
        }
    }
    assert(b.spec_msg_of(fin[pos].id) == fin[pos]);
}

impl Archive {
    /// Inserts one message, or replaces the stored one with the same id.
    /// The seen bit of a message already stored is kept; a new message
    /// starts unseen. The spans are untouched.
    #[verifier::rlimit(50)]
    pub fn insert_msg(&mut self, m: ArchivedMsg)
        requires
            old(self).wf(),
            msg_wf(m),
        ensures
            final(self).wf(),
            final(self).span_seq() == old(self).span_seq(),
            forall|x: u64|
                final(self).spec_ids().contains(x) <==> (old(self).spec_ids().contains(x) || x
                    == m.id),
            forall|x: u64|
                old(self).spec_ids().contains(x) && x != m.id
                    ==> #[trigger] final(self).spec_msg_of(x) == old(self).spec_msg_of(x),
            final(self).spec_msg_of(m.id) == (ArchivedMsg {
                seen: old(self).spec_ids().contains(m.id) && old(self).spec_msg_of(m.id).seen,
                ..m
            }),
    {
        let ghost pre = *self;
        let n = self.msgs.len();
        let mut pos: usize = 0;
        while pos < n && self.msgs[pos].id < m.id
            invariant
                n == self.msg_seq().len(),
                pos <= n,
                self.wf(),
                *self == pre,
                forall|k: int| 0 <= k < pos ==> #[trigger] self.msg_seq()[k].id < m.id,
            decreases n - pos,
        {
            pos += 1;
        }
        proof {
            pre.lemma_member_facts();
            assert forall|k: int| pos <= k < n implies #[trigger] pre.msg_seq()[k].id
                >= m.id by {
                if k > pos {
                    assert(pre.msg_seq()[pos as int].id < pre.msg_seq()[k].id);
                }
            }
        }
        if pos < n && self.msgs[pos].id == m.id {
            // Replace, keeping the stored seen bit.
            let old_m = self.msgs.remove(pos);
            let m2 = ArchivedMsg { seen: old_m.seen, ..m };
            self.msgs.insert(pos, m2);
            proof {
                assert(self.msg_seq() =~= pre.msg_seq().update(pos as int, m2));
                lemma_replace_msg(pre, *self, m, m2, pos as int);
            }
        } else {
            let m2 = ArchivedMsg { seen: false, ..m };
            self.msgs.insert(pos, m2);
            proof {
                assert forall|k: int| pos <= k < n implies #[trigger] pre.msg_seq()[k].id
                    > m.id by {
                    assert(pre.msg_seq()[k].id >= m.id);
                    if pre.msg_seq()[k].id == m.id {
                        if k == pos {
                            assert(false);
                        } else {
                            assert(pre.msg_seq()[pos as int].id < pre.msg_seq()[k].id);
                            assert(false);
                        }
                    }
                }
                lemma_insert_fresh(pre, *self, m, m2, pos as int);
            }
        }
    }

    /// Inserts a batch of messages and unions their covering span into the
    /// span set. On an id that repeats, the later entry wins; stored seen
    /// bits survive, new messages start unseen. Idempotent.
    pub fn add_msgs(&mut self, msgs: Vec<ArchivedMsg>, span: Option<Span>)
        requires
            old(self).wf(),
            forall|i: int| 0 <= i < msgs@.len() ==> msg_wf(#[trigger] msgs@[i]),
            match span {
                Some(sp) => sp.lo <= sp.hi,
                None => true,
            },
        ensures
            final(self).wf(),
            forall|x: u64|
                final(self).spec_ids().contains(x) <==> (old(self).spec_ids().contains(x)
                    || seq_contains_id(msgs@, x)),
            forall|x: u64|
                old(self).spec_ids().contains(x) && !seq_contains_id(msgs@, x)
                    ==> #[trigger] final(self).spec_msg_of(x) == old(self).spec_msg_of(x),
            forall|x: u64|
                seq_contains_id(msgs@, x) ==> #[trigger] final(self).spec_msg_of(x)
                    == (ArchivedMsg {
                    seen: old(self).spec_ids().contains(x) && old(self).spec_msg_of(x).seen,
                    ..batch_last(msgs@, x)
                }),
            forall|x: u64|
                final(self).covers(x) <==> (old(self).covers(x) || (match span {
                    Some(sp) => sp.lo <= x <= sp.hi,
                    None => false,
                })),
    {
        let ghost pre = *self;
        let n = msgs.len();
        let mut i: usize = 0;
        while i < n
            invariant
                n == msgs@.len(),
                i <= n,
                pre.wf(),
                self.wf(),
                forall|k: int| 0 <= k < n ==> msg_wf(#[trigger] msgs@[k]),
                self.span_seq() == pre.span_seq(),
                forall|x: u64|
                    self.spec_ids().contains(x) <==> (pre.spec_ids().contains(x)
                        || seq_contains_id(msgs@.take(i as int), x)),
                forall|x: u64|
                    pre.spec_ids().contains(x) && !seq_contains_id(msgs@.take(i as int), x)
                        ==> #[trigger] self.spec_msg_of(x) == pre.spec_msg_of(x),
                forall|x: u64|
                    seq_contains_id(msgs@.take(i as int), x) ==> #[trigger] self.spec_msg_of(x)
                        == (ArchivedMsg {
                        seen: pre.spec_ids().contains(x) && pre.spec_msg_of(x).seen,
                        ..batch_last(msgs@.take(i as int), x)
                    }),
            decreases n - i,
        {
            let ghost cur = *self;
            let ghost p0 = msgs@.take(i as int);
            let ghost p1 = msgs@.take(i + 1 as int);
            let m = msgs[i].clone_msg();
            let ghost mid = m.id;
            self.insert_msg(m);
            proof {
                assert(p1.drop_last() =~= p0);
                assert(p1.last() == msgs@[i as int]);
                assert forall|x: u64|
                    seq_contains_id(p1, x) <==> (seq_contains_id(p0, x) || x == mid) by {
                    if seq_contains_id(p1, x) {
                        let k = choose|k: int| 0 <= k < p1.len() && #[trigger] p1[k].spec_id() == x;
                        if k < p0.len() {
                            assert(p0[k].spec_id() == x);
                        }
                    }
                    if seq_contains_id(p0, x) {
                        let k = choose|k: int| 0 <= k < p0.len() && #[trigger] p0[k].spec_id() == x;
                        assert(p1[k].spec_id() == x);
                    }
                    if x == mid {
                        assert(p1[i as int].spec_id() == x);
                    }
                }
                assert forall|x: u64| x != mid implies batch_last(p1, x) == batch_last(p0, x) by {}
                assert(batch_last(p1, mid) == msgs@[i as int]);
                assert forall|x: u64|
                    self.spec_ids().contains(x) <==> (pre.spec_ids().contains(x)
                        || seq_contains_id(p1, x)) by {
                    assert(self.spec_ids().contains(x) <==> (cur.spec_ids().contains(x) || x
                        == mid));
                    assert(cur.spec_ids().contains(x) <==> (pre.spec_ids().contains(x)
                        || seq_contains_id(p0, x)));
                    assert(seq_contains_id(p1, x) <==> (seq_contains_id(p0, x) || x == mid));
                }
                assert forall|x: u64|
                    pre.spec_ids().contains(x) && !seq_contains_id(
                        p1,
                        x,
                    ) implies #[trigger] self.spec_msg_of(x) == pre.spec_msg_of(x) by {
                    assert(x != mid);
                    assert(!seq_contains_id(p0, x));
                    assert(cur.spec_msg_of(x) == pre.spec_msg_of(x));
                    assert(cur.spec_ids().contains(x));
                    assert(self.spec_msg_of(x) == cur.spec_msg_of(x));
                }
                assert forall|x: u64|
                    seq_contains_id(p1, x) implies #[trigger] self.spec_msg_of(x) == (ArchivedMsg {
                    seen: pre.spec_ids().contains(x) && pre.spec_msg_of(x).seen,
                    ..batch_last(p1, x)
                }) by {
                    if x == mid {
                        // The seen bit the insert kept is the one the batch
                        // tracks for this id.
                        if seq_contains_id(p0, x) {
                            assert(cur.spec_msg_of(x) == (ArchivedMsg {
                                seen: pre.spec_ids().contains(x) && pre.spec_msg_of(x).seen,
                                ..batch_last(p0, x)
                            }));
                            assert(cur.spec_ids().contains(x));
                        } else {
                            if pre.spec_ids().contains(x) {
                                assert(cur.spec_msg_of(x) == pre.spec_msg_of(x));
                                assert(cur.spec_ids().contains(x));
                            } else {
                                assert(!cur.spec_ids().contains(x));
                            }
                        }
                    } else {
                        assert(seq_contains_id(p0, x));
                        assert(cur.spec_msg_of(x) == (ArchivedMsg {
                            seen: pre.spec_ids().contains(x) && pre.spec_msg_of(x).seen,
                            ..batch_last(p0, x)
                        }));
                        assert(cur.spec_ids().contains(x));
                        assert(self.spec_msg_of(x) == cur.spec_msg_of(x));
                        assert(batch_last(p1, x) == batch_last(p0, x));
                    }
                }
            }
            i += 1;
        }
        proof {
            assert(msgs@.take(n as int) =~= msgs@);
        }
        let ghost done = *self;
        match span {
            Some(sp) => {
                self.add_span(sp);
            },
            None => {
                proof {
                    assert(self.span_seq() == pre.span_seq());
                }
            },
        }
        proof {
            assert(self.msg_seq() == done.msg_seq());
            assert forall|x: u64|
                pre.spec_ids().contains(x) && !seq_contains_id(
                    msgs@,
                    x,
                ) implies #[trigger] self.spec_msg_of(x) == pre.spec_msg_of(x) by {
                assert(done.spec_msg_of(x) == pre.spec_msg_of(x));
            }
            assert forall|x: u64|
                seq_contains_id(msgs@, x) implies #[trigger] self.spec_msg_of(x) == (ArchivedMsg {
                seen: pre.spec_ids().contains(x) && pre.spec_msg_of(x).seen,
                ..batch_last(msgs@, x)
            }) by {
                assert(done.spec_msg_of(x) == (ArchivedMsg {
                    seen: pre.spec_ids().contains(x) && pre.spec_msg_of(x).seen,
                    ..batch_last(msgs@, x)
                }));
            }
        }
    }
}

/// Whether a plain message vector holds the id `x`.
fn vec_has_id(v: &Vec<ArchivedMsg>, x: u64) -> (r: bool)
    ensures
        r == seq_contains_id(v@, x),
{
    let mut i: usize = 0;
    while i < v.len()
        invariant
            i <= v@.len(),
            forall|k: int| 0 <= k < i ==> #[trigger] v@[k].spec_id() != x,
        decreases v@.len() - i,
    {
        if v[i].id == x {
            proof {
                assert(v@[i as int].spec_id() == x);
            }
            return true;
        }
        i += 1;
    }
    proof {
        if seq_contains_id(v@, x) {
            let k = choose|k: int| 0 <= k < v@.len() && #[trigger] v@[k].spec_id() == x;
            assert(false);
        }
    }
    false
}

impl Archive {
    /// The parent of each stored message, as a map over ids.
    pub open spec fn parent_map(&self) -> spec_fn(u64) -> Option<u64> {
        |y: u64| self.spec_msg_of(y).spec_parent()
    }

    /// The ids from the top of `id`'s ancestor chain down to `id` itself:
    /// each segment's parent is the one before it, and the first segment
    /// either has no parent or a parent the archive does not hold.
    pub fn path(&self, id: u64) -> (r: Option<Path>)
        requires
            self.wf(),
        ensures
            match r {
                Some(path) => {
                    &&& self.spec_ids().contains(id)
                    &&& path.wf()
                    &&& path@.last() == id
                    &&& forall|k: int|
                        0 <= k < path@.len() ==> self.spec_ids().contains(#[trigger] path@[k])
                    &&& forall|k: int|
                        0 <= k < path@.len() - 1 ==> self.spec_msg_of(
                            #[trigger] path@[k + 1],
                        ).spec_parent() == Some(path@[k])
                    &&& match self.spec_msg_of(path@.first()).spec_parent() {
                        None => true,
                        Some(p) => !self.spec_ids().contains(p),
                    }
                },
                None => !self.spec_ids().contains(id),
            },
    {
        let i = match self.find(id) {
            Some(i) => i,
            None => {
                return None;
            },
        };
        let mut segs: Vec<u64> = Vec::new();
        segs.push(id);
        let mut cur = id;
        let mut done = false;
        while !done
            invariant
                self.wf(),
                segs@.len() > 0,
                segs@.last() == id,
                segs@.first() == cur,
                self.spec_ids().contains(cur),
                forall|k: int| 0 <= k < segs@.len() ==> self.spec_ids().contains(#[trigger] segs@[k]),
                forall|k: int|
                    0 <= k < segs@.len() - 1 ==> self.spec_msg_of(
                        #[trigger] segs@[k + 1],
                    ).spec_parent() == Some(segs@[k]),
                done ==> match self.spec_msg_of(cur).spec_parent() {
                    None => true,
                    Some(p) => !self.spec_ids().contains(p),
                },
            decreases cur + if done {
                0int
            } else {
                1int
            },
        {
            let ci = match self.find(cur) {
                Some(ci) => ci,
                None => {
                    // The current segment is always stored.
                    proof {
                        assert(false);
                    }
                    return None;
                },
            };
            match self.msgs[ci].parent {
                Some(p) => {
                    match self.find(p) {
                        Some(_) => {
                            proof {
                                let k = seq_index_of(self.msg_seq(), cur);
                                assert(self.spec_msg_of(cur) == self.msg_seq()[ci as int]);
                                assert(self.spec_msg_of(cur).spec_parent() == Some(p));
                                assert(msg_wf(self.msg_seq()[k]));
                                assert(p < cur);
                            }
                            let ghost old_segs = segs@;
                            segs.insert(0, p);
                            proof {
                                assert(segs@ =~= seq![p] + old_segs);
                                assert forall|k: int|
                                    0 <= k < segs@.len() - 1 implies self.spec_msg_of(
                                    #[trigger] segs@[k + 1],
                                ).spec_parent() == Some(segs@[k]) by {
                                    if k == 0 {
                                        assert(segs@[1] == old_segs[0]);
                                        assert(old_segs[0] == cur);
                                        assert(segs@[0] == p);
                                        assert(self.spec_msg_of(cur).spec_parent() == Some(p));
                                    } else {
                                        assert(old_segs[(k - 1) + 1] == old_segs[k]);
                                        assert(segs@[k + 1] == old_segs[k]);
                                        assert(segs@[k] == old_segs[k - 1]);
                                    }
                                }
                            }
                            cur = p;
                        },
                        None => {
                            done = true;
                        },
                    }
                },
                None => {
                    done = true;
                },
            }
        }
        Some(Path::new(segs))
    }

    /// The tree rooted at `tree_id`: exactly the stored messages whose
    /// ancestor chain inside the archive leads to `tree_id`.
    #[verifier::rlimit(100)]
    pub fn tree(&self, tree_id: u64) -> (r: Tree<ArchivedMsg>)
        requires
            self.wf(),
        ensures
            r.wf(),
            r.spec_root() == tree_id,
            forall|x: u64|
                r.contains(x) <==> in_tree(self.spec_ids(), self.parent_map(), x, tree_id),
            forall|x: u64| r.contains(x) ==> r.spec_msg_of(x) == self.spec_msg_of(x),
    {
        let ghost pm = self.parent_map();
        let n = self.msgs.len();
        let mut collected: Vec<ArchivedMsg> = Vec::new();
        let mut i: usize = 0;
        while i < n
            invariant
                n == self.msg_seq().len(),
                i <= n,
                self.wf(),
                pm == self.parent_map(),
                forall|x: u64|
                    seq_contains_id(collected@, x) <==> (in_tree(self.spec_ids(), pm, x, tree_id)
                        && (exists|k: int|
                        0 <= k < i && #[trigger] self.msg_seq()[k].id == x)),
                forall|k: int|
                    0 <= k < collected@.len() ==> #[trigger] collected@[k] == self.spec_msg_of(
                        collected@[k].id,
                    ) && self.spec_ids().contains(collected@[k].id),
                ids_distinct(collected@),
            decreases n - i,
        {
            let ghost c0 = collected@;
            let m = &self.msgs[i];
            let ghost x = self.msg_seq()[i as int].id;
            proof {
                self.lemma_member_facts();
                assert(self.spec_msg_of(x) == self.msg_seq()[i as int]);
            }
            let in_t = if m.id == tree_id {
                true
            } else {
                match m.parent {
                    Some(p) => self.contains_collected(&collected, p),
                    None => false,
                }
            };
            proof {
                // The test just made agrees with the membership spec.
                assert(self.spec_ids().contains(x));
                if x != tree_id {
                    match pm(x) {
                        Some(p) => {
                            assert(p == self.spec_msg_of(x).spec_parent()->Some_0);
                            assert(msg_wf(self.spec_msg_of(x)));
                            assert(p < x);
                            if in_tree(self.spec_ids(), pm, p, tree_id) {
                                // An ancestor in the tree was seen earlier in
                                // the ascending pass.
                                assert(self.spec_ids().contains(p));
                                self.lemma_ids_iff();
                                let kp = choose|k: int|
                                    0 <= k < self.msg_seq().len()
                                        && #[trigger] self.msg_seq()[k].spec_id() == p;
                                assert(self.msg_seq()[kp].id == p);
                                if kp >= i {
                                    assert(self.msg_seq()[i as int].id <= self.msg_seq()[kp].id);
                                    assert(false);
                                }
                                assert(seq_contains_id(c0, p));
                            } else {
                                if seq_contains_id(c0, p) {
                                    assert(false);
                                }
                            }
                        },
                        None => {},
                    }
                }
                assert(in_t == in_tree(self.spec_ids(), pm, x, tree_id));
                // The id of this pass has not been collected before.
                if seq_contains_id(c0, x) {
                    let k = choose|k: int|
                        0 <= k < i && #[trigger] self.msg_seq()[k].id == x;
                    assert(self.msg_seq()[k].id < self.msg_seq()[i as int].id);
                    assert(false);
                }
            }
            if in_t {
                collected.push(m.clone_msg());
                proof {
                    assert forall|y: u64|
                        seq_contains_id(collected@, y) <==> (seq_contains_id(c0, y) || y
                            == x) by {
                        if seq_contains_id(collected@, y) {
                            let k = choose|k: int|
                                0 <= k < collected@.len() && #[trigger] collected@[k].spec_id()
                                    == y;
                            if k < c0.len() {
                                assert(c0[k].spec_id() == y);
                            }
                        }
                        if seq_contains_id(c0, y) {
                            let k = choose|k: int|
                                0 <= k < c0.len() && #[trigger] c0[k].spec_id() == y;
                            assert(collected@[k].spec_id() == y);
                        }
                        if y == x {
                            assert(collected@[c0.len() as int].spec_id() == y);
                        }
                    }
                    assert forall|a: int, b: int|
                        0 <= a < b < collected@.len() implies #[trigger] collected@[a].spec_id()
                        != #[trigger] collected@[b].spec_id() by {
                        if b == collected@.len() - 1 {
                            if collected@[a].spec_id() == x {
                                assert(seq_contains_id(c0, x)) by {
                                    assert(c0[a].spec_id() == x);
                                }
                                assert(false);
                            }
                        }
                    }
                }
            } else {
                proof {
                    assert(collected@ == c0);
                }
            }
            proof {
                assert forall|y: u64|
                    seq_contains_id(collected@, y) <==> (in_tree(self.spec_ids(), pm, y, tree_id)
                        && (exists|k: int|
                        0 <= k < i + 1 && #[trigger] self.msg_seq()[k].id == y)) by {
                    if in_tree(self.spec_ids(), pm, y, tree_id) && (exists|k: int|
                        0 <= k < i + 1 && #[trigger] self.msg_seq()[k].id == y) {
                        let k = choose|k: int|
                            0 <= k < i + 1 && #[trigger] self.msg_seq()[k].id == y;
                        if k < i {
                            assert(seq_contains_id(c0, y));
                            assert(seq_contains_id(collected@, y));
                        } else {
                            assert(y == x);
                            assert(in_t);
                            assert(seq_contains_id(collected@, y));
                        }
                    }
                    if seq_contains_id(collected@, y) {
                        if in_t {
                            if y == x {
                                assert(in_tree(self.spec_ids(), pm, y, tree_id));
                                assert(self.msg_seq()[i as int].id == y);
                            } else {
                                assert(seq_contains_id(c0, y));
                            }
                        } else {
                            assert(seq_contains_id(c0, y));
                        }
                    }
                }
            }
            i += 1;
        }
        proof {
            self.lemma_member_facts();
            assert forall|x: u64|
                seq_contains_id(collected@, x) <==> in_tree(
                    self.spec_ids(),
                    pm,
                    x,
                    tree_id,
                ) by {
                if in_tree(self.spec_ids(), pm, x, tree_id) {
                    assert(self.spec_ids().contains(x));
                    self.lemma_ids_iff();
                    let k = choose|k: int|
                        0 <= k < self.msg_seq().len() && #[trigger] self.msg_seq()[k].spec_id()
                            == x;
                    assert(self.msg_seq()[k].id == x);
                }
            }
            assert(forall|k: int| 0 <= k < collected@.len() ==> msg_wf(#[trigger] collected@[k]));
        }
        let t = Tree::new(tree_id, collected);
        proof {
            assert forall|x: u64| t.contains(x) implies t.spec_msg_of(x) == self.spec_msg_of(
                x,
            ) by {
                let k = choose|k: int|
                    0 <= k < t.msg_seq().len() && #[trigger] t.msg_seq()[k].spec_id() == x;
                t.lemma_msg_at(k, x);
            }
        }
        t
    }

    /// Whether the already collected part of a tree holds the id `p`.
    fn contains_collected(&self, collected: &Vec<ArchivedMsg>, p: u64) -> (r: bool)
        ensures
            r == seq_contains_id(collected@, p),
    {
        vec_has_id(collected, p)
    }
}

/// Whether a message matches the scan's selector: a root when `want_root`
/// is set, an unseen message otherwise.
pub open spec fn sel_match(m: ArchivedMsg, want_root: bool) -> bool {
    if want_root {
        m.parent is None
    } else {
        !m.seen
    }
}

/// What one `set_older_seen` call promises, as a relation between the
/// archive before and after.
pub open spec fn set_older_seen_rel(a: Archive, b: Archive, id: u64, seen: bool) -> bool {
    &&& b.spec_ids() == a.spec_ids()
    &&& forall|x: u64|
        a.spec_ids().contains(x) && x > id ==> #[trigger] b.spec_msg_of(x) == a.spec_msg_of(x)
    &&& forall|x: u64|
        a.spec_ids().contains(x) && x <= id ==> #[trigger] b.spec_msg_of(x) == a.spec_msg_of(
            x,
        ).with_seen(seen)
}

/// Marking everything at or below an id as seen is idempotent: a second
/// call with the same arguments changes no stored message, and the pair of
/// calls together still satisfies the relation of a single call.
pub proof fn lemma_set_older_seen_idempotent(
    a: Archive,
    b: Archive,
    c: Archive,
    id: u64,
    seen: bool,
)
    requires
        set_older_seen_rel(a, b, id, seen),
        set_older_seen_rel(b, c, id, seen),
    ensures
        forall|x: u64|
            a.spec_ids().contains(x) ==> #[trigger] c.spec_msg_of(x) == b.spec_msg_of(x),
        set_older_seen_rel(a, c, id, seen),
{
    assert forall|x: u64|
        a.spec_ids().contains(x) implies #[trigger] c.spec_msg_of(x) == b.spec_msg_of(x) by {
        assert(b.spec_ids().contains(x));
        if x <= id {
            assert(b.spec_msg_of(x) == a.spec_msg_of(x).with_seen(seen));
            assert(c.spec_msg_of(x) == b.spec_msg_of(x).with_seen(seen));
        }
    }
    assert forall|x: u64|
        a.spec_ids().contains(x) && x <= id implies #[trigger] c.spec_msg_of(x) == a.spec_msg_of(
        x,
    ).with_seen(seen) by {
        assert(b.spec_ids().contains(x));
    }
}

/// What one span union promises, as a relation between the archive before
/// and after.
pub open spec fn add_span_rel(a: Archive, b: Archive, sp: Span) -> bool {
    forall|x: u64| b.covers(x) <==> (a.covers(x) || sp.lo <= x <= sp.hi)
}

/// Spans are monotone: a span union never uncovers an id, and two unions
/// in a row cover exactly the old coverage plus both spans, whichever
/// order they arrive in.
pub proof fn lemma_spans_monotone(a: Archive, b: Archive, c: Archive, sp1: Span, sp2: Span)
    requires
        add_span_rel(a, b, sp1),
        add_span_rel(b, c, sp2),
    ensures
        forall|x: u64| a.covers(x) ==> b.covers(x),
        forall|x: u64| b.covers(x) ==> c.covers(x),
        forall|x: u64|
            c.covers(x) <==> (a.covers(x) || sp1.lo <= x <= sp1.hi || sp2.lo <= x <= sp2.hi),
{
}

impl Archive {
    /// Forest integrity: every stored message lies in the tree rooted at
    /// the top of its own ancestor chain, so `tree` of that root holds it;
    /// and every tree holds stored messages only.
    pub proof fn lemma_forest_integrity(&self, id: u64)
        requires
            self.wf(),
            self.spec_ids().contains(id),
        ensures
            in_tree(
                self.spec_ids(),
                self.parent_map(),
                id,
                crate::store::root_of(self.spec_ids(), self.parent_map(), id),
            ),
    {
        self.inv_facts();
        let pm = self.parent_map();
        assert forall|y: u64|
            self.spec_ids().contains(y) && (#[trigger] pm(y)) is Some implies pm(y)->Some_0
            < y by {
            assert(msg_wf(self.spec_msg_of(y)));
        }
        crate::store::lemma_forest_integrity(self.spec_ids(), pm, id);
    }

    /// Chronological navigation visits every stored message exactly once:
    /// the stored ids form a strictly ascending sequence whose first element
    /// is the oldest id, whose last is the newest, and in which each element
    /// is the least stored id above the one before it — the id that
    /// `newer_msg_id` returns for it.
    pub proof fn lemma_chronological_traversal(&self)
        requires
            self.wf(),
        ensures
            self.id_seq().len() == self.msg_seq().len(),
            forall|k: int|
                0 <= k < self.id_seq().len() ==> self.spec_ids().contains(
                    #[trigger] self.id_seq()[k],
                ),
            forall|y: u64|
                self.id_seq().len() > 0 && self.spec_ids().contains(y) ==> self.id_seq().first()
                    <= y <= self.id_seq().last(),
            forall|k: int, y: u64|
                #![trigger self.id_seq()[k], self.spec_ids().contains(y)]
                0 <= k < self.id_seq().len() - 1 && self.spec_ids().contains(y) && y
                    > self.id_seq()[k] ==> y >= self.id_seq()[k + 1],
            forall|k: int|
                0 <= k < self.id_seq().len() - 1 ==> #[trigger] self.id_seq()[k] < self.id_seq()[k
                    + 1],
    {
        self.lemma_member_facts();
        assert forall|k: int| 0 <= k < self.id_seq().len() implies self.spec_ids().contains(
            #[trigger] self.id_seq()[k],
        ) by {
            assert(self.id_seq()[k] == self.msg_seq()[k].id);
        }
        assert forall|y: u64|
            self.id_seq().len() > 0 && self.spec_ids().contains(y) implies self.id_seq().first()
            <= y <= self.id_seq().last() by {
            let j = choose|j: int|
                0 <= j < self.msg_seq().len() && #[trigger] self.msg_seq()[j].spec_id() == y;
            if j > 0 {
                assert(self.msg_seq()[0].id < self.msg_seq()[j].id);
            }
            if j < self.msg_seq().len() - 1 {
                assert(self.msg_seq()[j].id < self.msg_seq()[self.msg_seq().len() - 1].id);
            }
        }
        assert forall|k: int, y: u64|
            #![trigger self.id_seq()[k], self.spec_ids().contains(y)]
            0 <= k < self.id_seq().len() - 1 && self.spec_ids().contains(y) && y
                > self.id_seq()[k] implies y >= self.id_seq()[k + 1] by {
            let j = choose|j: int|
                0 <= j < self.msg_seq().len() && #[trigger] self.msg_seq()[j].spec_id() == y;
            if j <= k {
                if j < k {
                    assert(self.msg_seq()[j].id < self.msg_seq()[k].id);
                }
                assert(false);
            }
            if j > k + 1 {
                assert(self.msg_seq()[k + 1].id < self.msg_seq()[j].id);
            }
        }
    }
}

impl MsgStore<ArchivedMsg> for Archive {
    open spec fn ids(&self) -> Set<u64> {
        self.spec_ids()
    }

    open spec fn msg_of(&self, id: u64) -> ArchivedMsg {
        self.spec_msg_of(id)
    }

    open spec fn inv(&self) -> bool {
        self.wf()
    }

    proof fn inv_facts(&self) {
        broadcast use vstd::seq_lib::seq_to_set_is_finite;

        self.lemma_member_facts();
        assert(self.spec_ids().finite());
        assert forall|x: u64| self.spec_ids().contains(x) implies (
        #[trigger] self.spec_msg_of(x)).spec_id() == x && msg_wf(self.spec_msg_of(x)) by {
            self.lemma_ids_iff();
            let k = choose|k: int|
                0 <= k < self.msg_seq().len() && #[trigger] self.msg_seq()[k].spec_id() == x;
            self.lemma_index_unique(k, x);
        }
    }

    fn msg(&self, id: u64) -> Option<ArchivedMsg> {
        self.msg(id)
    }

    fn path(&self, id: u64) -> Option<Path> {
        self.path(id)
    }

    fn tree(&self, tree_id: u64) -> (r: Tree<ArchivedMsg>) {
        let r = self.tree(tree_id);
        proof {
            let pm1 = |y: u64| MsgStore::msg_of(self, y).spec_parent();
            assert(pm1 =~= self.parent_map());
            let pm = self.parent_map();
            assert forall|x: u64| #[trigger] r.contains(x) implies self.spec_ids().contains(
                x,
            ) by {
                assert(in_tree(self.spec_ids(), pm, x, tree_id));
            }
            assert forall|x: u64, p: u64|
                #![trigger r.contains(p), MsgStore::msg_of(self, x)]
                r.contains(p) && self.spec_ids().contains(x) && self.spec_msg_of(x).spec_parent()
                    == Some(p) implies r.contains(x) by {
                assert(in_tree(self.spec_ids(), pm, p, tree_id));
                self.inv_facts();
                assert(msg_wf(self.spec_msg_of(x)));
                assert(pm(x) == Some(p));
                assert(p < x);
                assert(in_tree(self.spec_ids(), pm, x, tree_id));
            }
            if self.spec_ids().contains(tree_id) {
                assert(in_tree(self.spec_ids(), pm, tree_id, tree_id));
            }
        }
        r
    }

    fn first_tree_id(&self) -> Option<u64> {
        self.first_tree_id()
    }

    fn last_tree_id(&self) -> Option<u64> {
        self.last_tree_id()
    }

    fn prev_tree_id(&self, tree_id: u64) -> Option<u64> {
        self.prev_tree_id(tree_id)
    }

    fn next_tree_id(&self, tree_id: u64) -> Option<u64> {
        self.next_tree_id(tree_id)
    }

    fn oldest_msg_id(&self) -> Option<u64> {
        self.oldest_msg_id()
    }

    fn newest_msg_id(&self) -> Option<u64> {
        self.newest_msg_id()
    }

    fn older_msg_id(&self, id: u64) -> Option<u64> {
        self.older_msg_id(id)
    }

    fn newer_msg_id(&self, id: u64) -> Option<u64> {
        self.newer_msg_id(id)
    }

    fn oldest_unseen_msg_id(&self) -> Option<u64> {
        self.oldest_unseen_msg_id()
    }

    fn newest_unseen_msg_id(&self) -> Option<u64> {
        self.newest_unseen_msg_id()
    }

    fn older_unseen_msg_id(&self, id: u64) -> Option<u64> {
        self.older_unseen_msg_id(id)
    }

    fn newer_unseen_msg_id(&self, id: u64) -> Option<u64> {
        self.newer_unseen_msg_id(id)
    }

    fn unseen_msgs_count(&self) -> (r: usize) {
        let r = self.unseen_msgs_count();
        proof {
            let f1 = |x: u64| !MsgStore::msg_of(self, x).spec_seen();
            let f2 = |x: u64| !self.spec_msg_of(x).seen;
            assert(f1 =~= f2);
        }
        r
    }

    fn set_seen(&mut self, id: u64, seen: bool) {
        self.set_seen(id, seen)
    }

    fn set_older_seen(&mut self, id: u64, seen: bool) {
        self.set_older_seen(id, seen)
    }
}

} // verus!
