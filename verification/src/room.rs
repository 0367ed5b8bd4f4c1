//! The per-room session state machine: connect, identify, stay joined,
//! reconnect after transient failures, and stop on terminal ones. The
//! driver loop that owns the socket performs the actions; the decisions
//! live here.

use vstd::prelude::*;

use crate::packets::{Cmd, IdentifyRpl, Message, NickRpl, Ntf, Packet, RoomRpl, Rpl, SendRpl, Session, WhoRpl};
use crate::replies::{complete_rel, Replies};

verus! {

/// Why a room stopped for good: retrying without user intervention would
/// not help.
pub enum StopReason {
    CouldNotConnect(String),
    InvalidRoom(String),
    InvalidIdentity(String),
    /// Something went wrong but we don't know what.
    SomethingWentWrong,
}

/// General state of the room connection.
pub enum Status {
    /// Connecting to the room for the first time.
    Connecting,
    /// Reconnecting to the room after being connected at least once.
    Reconnecting,
    /// Identifying with the server after a connection has been established.
    Identifying,
    /// User must enter a nick. May contain an error message about the
    /// previous attempt.
    NickRequired(Option<String>),
    /// Fully connected.
    Nominal,
    /// Not connected and not attempting any reconnects.
    Stopped(StopReason),
}

/// How a room call can fail.
#[derive(Debug)]
pub enum Error {
    NotConnected,
    NotPresent,
    IncorrectReplyType,
    /// The waiter resolved without a payload.
    Timeout,
    ConnectionLost,
}

/// Whether the room was confirmed to exist on the server. Once it was,
/// transport failures become transient; before that, they are terminal.
pub enum RoomVerified {
    Yes,
    No(StopReason),
}

/// State that exists while a websocket connection does: the next fresh
/// command id and the reply correlator.
pub struct Connected {
    pub next_id: u64,
    pub replies: Replies,
}

/// State that exists while the client is fully joined.
pub struct Present {
    pub session: Session,
    pub others: Vec<Session>,
}

/// Session lists are keyed by session id, each id at most once.
pub open spec fn sessions_distinct(s: Seq<Session>) -> bool {
    forall|i: int, j: int| 0 <= i < j < s.len() ==> #[trigger] s[i].id@ != #[trigger] s[j].id@
}

/// Whether the list holds a session with this id.
pub open spec fn sessions_contain(s: Seq<Session>, id: Seq<char>) -> bool {
    exists|i: int| 0 <= i < s.len() && #[trigger] s[i].id@ == id
}

pub open spec fn session_index(s: Seq<Session>, id: Seq<char>) -> int {
    choose|i: int| 0 <= i < s.len() && #[trigger] s[i].id@ == id
}

/// The session stored under this id, provided the list holds one.
pub open spec fn spec_session_of(s: Seq<Session>, id: Seq<char>) -> Session {
    s[session_index(s, id)]
}

/// Replaces the session with `who`'s id, or appends `who` if none is there.
fn upsert_session(v: &mut Vec<Session>, who: Session)
    requires
        sessions_distinct(old(v)@),
    ensures
        sessions_distinct(final(v)@),
        forall|x: Seq<char>|
            sessions_contain(final(v)@, x) <==> (sessions_contain(old(v)@, x) || x == who.id@),
        spec_session_of(final(v)@, who.id@) == who,
        forall|x: Seq<char>|
            sessions_contain(old(v)@, x) && x != who.id@ ==> #[trigger] spec_session_of(
                final(v)@,
                x,
            ) == spec_session_of(old(v)@, x),
{
    let ghost pre = v@;
    let n = v.len();
    let mut i: usize = 0;
    while i < n
        invariant
            n == pre.len(),
            i <= n,
            pre == old(v)@,
            v@ == pre,
            sessions_distinct(pre),
            forall|k: int| 0 <= k < i ==> #[trigger] pre[k].id@ != who.id@,
        decreases n - i,
    {
        if v[i].id == who.id {
            v.remove(i);
            v.insert(i, who);
            proof {
                let cur = v@;
                assert(cur =~= pre.update(i as int, cur[i as int]));
                let w = cur[i as int];
                assert(w.id@ == pre[i as int].id@);
                lemma_roster_edit(pre, cur, i as int);
            }
            return ;
        }
        i += 1;
    }
    let ghost pre2 = v@;
    v.push(who);
    proof {
        let cur = v@;
        assert forall|a: int, b: int|
            0 <= a < b < cur.len() implies #[trigger] cur[a].id@ != #[trigger] cur[b].id@ by {
            if b == pre2.len() {
                assert(cur[a] == pre2[a]);
            }
        }
        assert forall|x: Seq<char>|
            sessions_contain(cur, x) <==> (sessions_contain(pre2, x) || x == who.id@) by {
            if sessions_contain(cur, x) {
                let k = choose|k: int| 0 <= k < cur.len() && #[trigger] cur[k].id@ == x;
                if k < pre2.len() {
                    assert(pre2[k].id@ == x);
                }
            }
            if sessions_contain(pre2, x) {
                let k = choose|k: int| 0 <= k < pre2.len() && #[trigger] pre2[k].id@ == x;
                assert(cur[k].id@ == x);
            }
            if x == who.id@ {
                assert(cur[pre2.len() as int].id@ == x);
            }
        }
        lemma_roster_values(pre2, cur);
        assert(spec_session_of(cur, who.id@) == who) by {
            assert(cur[pre2.len() as int].id@ == who.id@);
            let k = session_index(cur, who.id@);
            assert(0 <= k < cur.len() && cur[k].id@ == who.id@);
            if k != pre2.len() {
                assert(cur[k] == pre2[k]);
                assert(pre2[k].id@ == who.id@);
                assert(sessions_contain(pre2, who.id@));
                assert(false);
            }
        }
    }
}

/// In two rosters that agree position by position on every entry but one,
/// which keeps its id, lookups of all other ids agree and the edited id
/// maps to the edited entry.
proof fn lemma_roster_edit(pre: Seq<Session>, cur: Seq<Session>, e: int)
    requires
        sessions_distinct(pre),
        cur.len() == pre.len(),
        0 <= e < pre.len(),
        cur[e].id@ == pre[e].id@,
        forall|k: int| 0 <= k < pre.len() && k != e ==> #[trigger] cur[k] == pre[k],
    ensures
        sessions_distinct(cur),
        forall|x: Seq<char>| sessions_contain(cur, x) == sessions_contain(pre, x),
        forall|x: Seq<char>|
            sessions_contain(pre, x) && x != cur[e].id@ ==> #[trigger] spec_session_of(cur, x)
                == spec_session_of(pre, x),
        sessions_contain(cur, cur[e].id@),
        spec_session_of(cur, cur[e].id@) == cur[e],
{
    assert(forall|k: int| 0 <= k < pre.len() ==> #[trigger] cur[k].id@ == pre[k].id@);
    assert forall|i: int, j: int|
        0 <= i < j < cur.len() implies #[trigger] cur[i].id@ != #[trigger] cur[j].id@ by {
        assert(pre[i].id@ != pre[j].id@);
    }
    assert forall|x: Seq<char>| sessions_contain(cur, x) == sessions_contain(pre, x) by {
        if sessions_contain(cur, x) {
            let k = choose|k: int| 0 <= k < cur.len() && #[trigger] cur[k].id@ == x;
            assert(pre[k].id@ == x);
        }
        if sessions_contain(pre, x) {
            let k = choose|k: int| 0 <= k < pre.len() && #[trigger] pre[k].id@ == x;
            assert(cur[k].id@ == x);
        }
    }
    assert forall|x: Seq<char>|
        sessions_contain(pre, x) && x != cur[e].id@ implies #[trigger] spec_session_of(cur, x)
        == spec_session_of(pre, x) by {
        let k = choose|k: int| 0 <= k < pre.len() && #[trigger] pre[k].id@ == x;
        let kc = session_index(cur, x);
        assert(cur[k].id@ == x);
        assert(0 <= kc < cur.len() && cur[kc].id@ == x);
        if kc != k {
            assert(cur[kc].id@ != cur[k].id@);
            assert(false);
        }
        let kp = session_index(pre, x);
        if kp != k {
            assert(pre[kp].id@ != pre[k].id@);
            assert(false);
        }
        assert(k != e);
    }
    assert(cur[e].id@ == cur[e].id@);
    assert(sessions_contain(cur, cur[e].id@));
    let kc = session_index(cur, cur[e].id@);
    if kc != e {
        assert(cur[kc].id@ != cur[e].id@);
        assert(false);
    }
}

/// With distinct ids, the session found for an id at a known index is the
/// session at that index.
proof fn lemma_roster_values(pre2: Seq<Session>, cur: Seq<Session>)
    requires
        sessions_distinct(cur),
        cur.len() == pre2.len() + 1,
        forall|k: int| 0 <= k < pre2.len() ==> #[trigger] cur[k] == pre2[k],
    ensures
        forall|x: Seq<char>|
            sessions_contain(pre2, x) ==> #[trigger] spec_session_of(cur, x) == spec_session_of(
                pre2,
                x,
            ),
{
    assert forall|x: Seq<char>|
        sessions_contain(pre2, x) implies #[trigger] spec_session_of(cur, x) == spec_session_of(
        pre2,
        x,
    ) by {
        let k = choose|k: int| 0 <= k < pre2.len() && #[trigger] pre2[k].id@ == x;
        assert(cur[k].id@ == x);
        assert(sessions_contain(cur, x));
        let kc = session_index(cur, x);
        if kc != k {
            assert(cur[kc].id@ != cur[k].id@);
            assert(false);
        }
        let kp = session_index(pre2, x);
        assert(0 <= kp < pre2.len() && pre2[kp].id@ == x);
        if kp != k {
            assert(pre2[kp].id@ != pre2[k].id@);
            assert(false);
        }
    }
}

/// Removes the session with this id, if the list holds one.
fn remove_session(v: &mut Vec<Session>, id: &String)
    requires
        sessions_distinct(old(v)@),
    ensures
        sessions_distinct(final(v)@),
        !sessions_contain(final(v)@, id@),
        forall|x: Seq<char>|
            x != id@ ==> (sessions_contain(final(v)@, x) == sessions_contain(old(v)@, x)),
        forall|x: Seq<char>|
            x != id@ && sessions_contain(old(v)@, x) ==> #[trigger] spec_session_of(final(v)@, x)
                == spec_session_of(old(v)@, x),
{
    let ghost pre = v@;
    let n = v.len();
    let mut i: usize = 0;
    while i < n
        invariant
            n == pre.len(),
            i <= n,
            pre == old(v)@,
            v@ == pre,
            sessions_distinct(pre),
            forall|k: int| 0 <= k < i ==> #[trigger] pre[k].id@ != id@,
        decreases n - i,
    {
        if v[i].id == *id {
            v.remove(i);
            proof {
                let cur = v@;
                assert(cur =~= pre.subrange(0, i as int) + pre.subrange(i as int + 1, n as int));
                assert forall|k: int| 0 <= k < cur.len() implies cur[k] == (if k < i {
                    pre[k]
                } else {
                    pre[k + 1]
                }) by {}
                assert forall|a: int, b: int|
                    0 <= a < b < cur.len() implies #[trigger] cur[a].id@
                    != #[trigger] cur[b].id@ by {
                    let a0: int = if a < i {
                        a
                    } else {
                        a + 1
                    };
                    let b0: int = if b < i {
                        b
                    } else {
                        b + 1
                    };
                    assert(cur[a] == pre[a0] && cur[b] == pre[b0]);
                    assert(pre[a0].id@ != pre[b0].id@);
                }
                assert(!sessions_contain(cur, id@)) by {
                    if sessions_contain(cur, id@) {
                        let k = choose|k: int| 0 <= k < cur.len() && #[trigger] cur[k].id@ == id@;
                        if k < i {
                            assert(pre[k].id@ == id@);
                        } else {
                            assert(pre[k + 1].id@ == id@);
                            assert(pre[i as int].id@ != pre[k + 1].id@);
                        }
                        assert(false);
                    }
                }
                assert forall|x: Seq<char>|
                    x != id@ implies (sessions_contain(cur, x) == sessions_contain(pre, x)) by {
                    if sessions_contain(cur, x) {
                        let k = choose|k: int| 0 <= k < cur.len() && #[trigger] cur[k].id@ == x;
                        if k < i {
                            assert(pre[k].id@ == x);
                        } else {
                            assert(pre[k + 1].id@ == x);
                        }
                    }
                    if sessions_contain(pre, x) {
                        let k = choose|k: int| 0 <= k < pre.len() && #[trigger] pre[k].id@ == x;
                        if k < i {
                            assert(cur[k].id@ == x);
                        } else if k > i {
                            assert(cur[k - 1].id@ == x);
                        } else {
                            assert(false);
                        }
                    }
                }
                assert forall|x: Seq<char>|
                    x != id@ && sessions_contain(pre, x) implies #[trigger] spec_session_of(cur, x)
                    == spec_session_of(pre, x) by {
                    let k = choose|k: int| 0 <= k < pre.len() && #[trigger] pre[k].id@ == x;
                    let k2: int = if k < i {
                        k
                    } else {
                        k - 1
                    };
                    assert(cur[k2].id@ == x);
                    let kc = session_index(cur, x);
                    if kc != k2 {
                        assert(cur[kc].id@ != cur[k2].id@);
                        assert(false);
                    }
                    let kp = session_index(pre, x);
                    if kp != k {
                        assert(pre[kp].id@ != pre[k].id@);
                        assert(false);
                    }
                }
            }
            return ;
        }
        i += 1;
    }
    proof {
        if sessions_contain(pre, id@) {
            let k = choose|k: int| 0 <= k < pre.len() && #[trigger] pre[k].id@ == id@;
            assert(false);
        }
    }
}

/// The last session in `s` that carries the id `x`: on repeated ids a later
/// entry wins.
pub open spec fn slast(s: Seq<Session>, x: Seq<char>) -> Session
    decreases s.len(),
{
    if s.len() == 0 {
        arbitrary()
    } else if s.last().id@ == x {
        s.last()
    } else {
        slast(s.drop_last(), x)
    }
}

/// A roster with one entry per session id, built from a server-sent list
/// in which an id may repeat: the last entry for each id wins.
fn build_roster(v: &Vec<Session>) -> (r: Vec<Session>)
    ensures
        sessions_distinct(r@),
        forall|x: Seq<char>| sessions_contain(r@, x) == sessions_contain(v@, x),
        forall|x: Seq<char>|
            sessions_contain(v@, x) ==> #[trigger] spec_session_of(r@, x) == slast(v@, x),
{
    let n = v.len();
    let mut r: Vec<Session> = Vec::new();
    let mut i: usize = 0;
    while i < n
        invariant
            n == v@.len(),
            i <= n,
            sessions_distinct(r@),
            forall|x: Seq<char>|
                sessions_contain(r@, x) == sessions_contain(v@.take(i as int), x),
            forall|x: Seq<char>|
                sessions_contain(v@.take(i as int), x) ==> #[trigger] spec_session_of(r@, x)
                    == slast(v@.take(i as int), x),
        decreases n - i,
    {
        let ghost r0 = r@;
        let ghost p0 = v@.take(i as int);
        let ghost p1 = v@.take(i + 1 as int);
        let who = v[i].clone_session();
        let ghost wid = who.id@;
        upsert_session(&mut r, who);
        proof {
            assert(p1.drop_last() =~= p0);
            assert(p1.last() == v@[i as int]);
            assert forall|x: Seq<char>|
                sessions_contain(p1, x) <==> (sessions_contain(p0, x) || x == wid) by {
                if sessions_contain(p1, x) {
                    let k = choose|k: int| 0 <= k < p1.len() && #[trigger] p1[k].id@ == x;
                    if k < p0.len() {
                        assert(p0[k].id@ == x);
                    }
                }
                if sessions_contain(p0, x) {
                    let k = choose|k: int| 0 <= k < p0.len() && #[trigger] p0[k].id@ == x;
                    assert(p1[k].id@ == x);
                }
                if x == wid {
                    assert(p1[i as int].id@ == x);
                }
            }
            assert forall|x: Seq<char>| x != wid implies slast(p1, x) == slast(p0, x) by {}
            assert(slast(p1, wid) == v@[i as int]);
            assert forall|x: Seq<char>|
                sessions_contain(p1, x) implies #[trigger] spec_session_of(r@, x) == slast(
                p1,
                x,
            ) by {
                if x == wid {
                    assert(spec_session_of(r@, x) == slast(p1, x));
                } else {
                    assert(sessions_contain(p0, x));
                    assert(sessions_contain(r0, x));
                    assert(spec_session_of(r0, x) == slast(p0, x));
                    assert(spec_session_of(r@, x) == spec_session_of(r0, x));
                }
            }
        }
        i += 1;
    }
    proof {
        assert(v@.take(n as int) =~= v@);
    }
    r
}

/// Copies a session list as the wire handed it over.
fn clone_sessions(v: &Vec<Session>) -> (r: Vec<Session>)
    ensures
        r@ == v@,
{
    let n = v.len();
    let mut r: Vec<Session> = Vec::new();
    let mut i: usize = 0;
    while i < n
        invariant
            n == v@.len(),
            i <= n,
            r@ == v@.take(i as int),
        decreases n - i,
    {
        r.push(v[i].clone_session());
        assert(r@ == v@.take(i + 1 as int));
        i += 1;
    }
    proof {
        assert(v@.take(n as int) =~= v@);
    }
    r
}

/// What applying one reply hands back to the driver: the payload for the
/// waiter it belongs to, a message to persist, and whether the reply
/// proved that the room exists.
pub struct RplEffect {
    pub deliver: Option<Rpl>,
    pub store_msg: Option<Message>,
    pub verified: bool,
}

/// The per-room session state the driver task owns.
pub struct RoomState {
    pub identity: String,
    pub initial_nick: Option<String>,
    pub status: Status,
    pub connected: Option<Connected>,
    pub present: Option<Present>,
}

impl RoomState {
    /// While connected, the correlator is open, well formed, and pending
    /// ids are below the next fresh id; while present, the roster is keyed
    /// by distinct session ids.
    pub open spec fn wf(&self) -> bool {
        &&& match self.connected {
            Some(c) => c.replies.wf() && !c.replies.spec_closed() && (forall|x: u64|
                c.replies.spec_pending().contains(x) ==> x < c.next_id),
            None => true,
        }
        &&& match self.present {
            Some(p) => sessions_distinct(p.others@),
            None => true,
        }
    }

    /// A room that was just told to connect for the first time.
    pub fn new(identity: String, initial_nick: Option<String>) -> (r: Self)
        ensures
            r.wf(),
            r.identity == identity,
            r.initial_nick == initial_nick,
            r.status matches Status::Connecting,
            r.connected is None,
            r.present is None,
    {
        RoomState { identity, initial_nick, status: Status::Connecting, connected: None, present: None }
    }

    /// A transport is up: fresh command ids and a fresh correlator. With
    /// an initial nick the room identifies at once; without one the user
    /// must pick a nick first.
    pub fn on_connected(&mut self, timeout_ms: u64)
        requires
            old(self).wf(),
        ensures
            final(self).wf(),
            final(self).identity == old(self).identity,
            final(self).initial_nick == old(self).initial_nick,
            final(self).present == old(self).present,
            final(self).connected matches Some(c) && c.next_id == 0
                && c.replies.spec_pending() == Seq::<u64>::empty() && !c.replies.spec_closed()
                && c.replies.spec_timeout_ms() == timeout_ms,
            final(self).status == (if old(self).initial_nick is Some {
                Status::Identifying
            } else {
                Status::NickRequired(None)
            }),
    {
        self.connected = Some(Connected { next_id: 0, replies: Replies::new(timeout_ms) });
        self.status = if self.initial_nick.is_some() {
            Status::Identifying
        } else {
            Status::NickRequired(None)
        };
    }

    /// Allocates a fresh id for a command, registers its waiter, and hands
    /// back the frame to write. Fails exactly when no connection exists.
    pub fn prepare_cmd(&mut self, cmd: Cmd) -> (r: Result<(u64, Packet), Error>)
        requires
            old(self).wf(),
            match old(self).connected {
                Some(c) => c.next_id < u64::MAX,
                None => true,
            },
        ensures
            final(self).wf(),
            final(self).identity == old(self).identity,
            final(self).initial_nick == old(self).initial_nick,
            final(self).status == old(self).status,
            final(self).present == old(self).present,
            match old(self).connected {
                None => r matches Err(Error::NotConnected) && final(self).connected is None,
                Some(c) => {
                    &&& r matches Ok(pair)
                    &&& pair.0 == c.next_id
                    &&& pair.1 == (Packet::Cmd { id: c.next_id, cmd })
                    &&& final(self).connected matches Some(c2)
                    &&& c2.next_id == c.next_id + 1
                    &&& c2.replies.spec_pending() == c.replies.spec_pending().push(c.next_id)
                    &&& !c2.replies.spec_closed()
                    &&& c2.replies.spec_timeout_ms() == c.replies.spec_timeout_ms()
                },
            },
    {
        match &mut self.connected {
            Some(c) => {
                let id = c.next_id;
                let ghost pend0 = c.replies.spec_pending();
                proof {
                    if c.replies.spec_pending().contains(id) {
                        assert(false);
                    }
                }
                c.replies.wait_for(id);
                c.next_id = id + 1;
                proof {
                    let pp = c.replies.spec_pending();
                    assert forall|x: u64| pp.contains(x) implies x < c.next_id by {
                        let k = choose|k: int| 0 <= k < pp.len() && pp[k] == x;
                        if k < pp.len() - 1 {
                            assert(pend0[k] == x);
                            assert(pend0.contains(x));
                        } else {
                            assert(x == id);
                        }
                    }
                }
                Ok((id, Packet::cmd(id, cmd)))
            },
            None => Err(Error::NotConnected),
        }
    }

    /// Whether a command that requires the joined state may be issued:
    /// fails with `NotPresent` exactly when the client is not present.
    pub fn require_present(&self) -> (r: Result<(), Error>)
        ensures
            match self.present {
                Some(_) => r matches Ok(()),
                None => r matches Err(Error::NotPresent),
            },
    {
        match &self.present {
            Some(_) => Ok(()),
            None => Err(Error::NotPresent),
        }
    }

    /// The identify command for this room's identity and the given nick.
    pub fn identify_cmd(&self, nick: String) -> (c: Cmd)
        ensures
            c == (Cmd::Identify { nick, identity: self.identity }),
    {
        Cmd::Identify { nick, identity: self.identity.clone() }
    }

    /// Applies one reply: updates status, presence and the room-verified
    /// flag as the reply dictates, hands the payload to its waiter, and
    /// surfaces any message that must be persisted.
    pub fn on_rpl(&mut self, id: u64, rpl: Rpl) -> (r: RplEffect)
        requires
            old(self).wf(),
        ensures
            final(self).wf(),
            final(self).identity == old(self).identity,
            final(self).initial_nick == old(self).initial_nick,
            r.verified == (rpl matches Rpl::Room(RoomRpl::Success)),
            // The reply reaches exactly the waiter registered for its id.
            match old(self).connected {
                Some(c) => {
                    &&& final(self).connected matches Some(c2)
                    &&& c2.next_id == c.next_id
                    &&& complete_rel(c.replies, c2.replies, id, r.deliver is Some)
                    &&& (r.deliver is Some ==> r.deliver->Some_0 == rpl)
                    &&& c2.replies.spec_closed() == c.replies.spec_closed()
                    &&& c2.replies.spec_timeout_ms() == c.replies.spec_timeout_ms()
                },
                None => final(self).connected is None && r.deliver is None,
            },
            // Status transitions. A stopped room is terminal: a late reply
            // never changes its status.
            final(self).status == (match old(self).status {
                Status::Stopped(_) => old(self).status,
                _ => (match rpl {
                    Rpl::Room(RoomRpl::InvalidRoom { reason }) => Status::Stopped(
                        StopReason::InvalidRoom(reason),
                    ),
                    Rpl::Identify(IdentifyRpl::Success { .. }) => Status::Nominal,
                    Rpl::Identify(IdentifyRpl::InvalidNick { reason }) => Status::NickRequired(
                        Some(reason),
                    ),
                    Rpl::Identify(IdentifyRpl::InvalidIdentity { reason }) => Status::Stopped(
                        StopReason::InvalidIdentity(reason),
                    ),
                    _ => old(self).status,
                }),
            }),
            // Messages the store must see.
            r.store_msg == (match rpl {
                Rpl::Identify(IdentifyRpl::Success { last_message, .. }) => last_message,
                Rpl::Send(SendRpl::Success { message }) => Some(message),
                _ => None::<Message>,
            }),
            // Presence. A stopped room no longer tracks it.
            match old(self).status {
                Status::Stopped(_) => final(self).present == old(self).present,
                _ => (match rpl {
                    Rpl::Identify(IdentifyRpl::Success { you, others, .. }) => {
                        &&& final(self).present matches Some(p)
                        &&& p.session == you
                        &&& sessions_distinct(p.others@)
                        &&& (forall|x: Seq<char>|
                            sessions_contain(p.others@, x) == sessions_contain(others@, x))
                        &&& (forall|x: Seq<char>|
                            sessions_contain(others@, x) ==> #[trigger] spec_session_of(
                                p.others@,
                                x,
                            ) == slast(others@, x))
                    },
                    Rpl::Nick(NickRpl::Success { you }) => (match old(self).present {
                        Some(p0) => {
                            &&& final(self).present matches Some(p)
                            &&& p.session == you
                            &&& p.others == p0.others
                        },
                        None => final(self).present is None,
                    }),
                    Rpl::Who(w) => (match old(self).present {
                        Some(p0) => {
                            &&& final(self).present matches Some(p)
                            &&& p.session == w.you
                            &&& sessions_distinct(p.others@)
                            &&& (forall|x: Seq<char>|
                                sessions_contain(p.others@, x) == sessions_contain(w.others@, x))
                            &&& (forall|x: Seq<char>|
                                sessions_contain(w.others@, x) ==> #[trigger] spec_session_of(
                                    p.others@,
                                    x,
                                ) == slast(w.others@, x))
                        },
                        None => final(self).present is None,
                    }),
                    _ => final(self).present == old(self).present,
                }),
            },
    {
        let stopped = match &self.status {
            Status::Stopped(_) => true,
            _ => false,
        };
        let mut verified = false;
        let mut store_msg: Option<Message> = None;
        match &rpl {
            Rpl::Room(RoomRpl::Success) => {
                verified = true;
            },
            Rpl::Room(RoomRpl::InvalidRoom { reason }) => {
                if !stopped {
                    self.status = Status::Stopped(StopReason::InvalidRoom(reason.clone()));
                }
            },
            Rpl::Identify(IdentifyRpl::Success { you, others, last_message }) => {
                if !stopped {
                    let roster = build_roster(others);
                    self.present = Some(Present { session: you.clone_session(), others: roster });
                    self.status = Status::Nominal;
                }
                store_msg = match last_message {
                    Some(m) => Some(m.clone_message()),
                    None => None,
                };
            },
            Rpl::Identify(IdentifyRpl::InvalidNick { reason }) => {
                if !stopped {
                    self.status = Status::NickRequired(Some(reason.clone()));
                }
            },
            Rpl::Identify(IdentifyRpl::InvalidIdentity { reason }) => {
                if !stopped {
                    self.status = Status::Stopped(StopReason::InvalidIdentity(reason.clone()));
                }
            },
            Rpl::Nick(NickRpl::Success { you }) => {
                if !stopped {
                    match &mut self.present {
                        Some(p) => {
                            p.session = you.clone_session();
                        },
                        None => {},
                    }
                }
            },
            Rpl::Nick(NickRpl::InvalidNick { .. }) => {},
            Rpl::Send(SendRpl::Success { message }) => {
                store_msg = Some(message.clone_message());
            },
            Rpl::Send(SendRpl::InvalidContent { .. }) => {},
            Rpl::Who(w) => {
                if !stopped {
                    match &mut self.present {
                        Some(p) => {
                            p.session = w.you.clone_session();
                            p.others = build_roster(&w.others);
                        },
                        None => {},
                    }
                }
            },
        }
        let deliver = match &mut self.connected {
            Some(c) => c.replies.complete(id, rpl),
            None => None,
        };
        RplEffect { deliver, store_msg, verified }
    }

    /// Applies one notification to the session roster, and surfaces a sent
    /// message so the driver can persist it.
    pub fn on_ntf(&mut self, ntf: Ntf) -> (r: Option<Message>)
        requires
            old(self).wf(),
        ensures
            final(self).wf(),
            final(self).identity == old(self).identity,
            final(self).initial_nick == old(self).initial_nick,
            final(self).status == old(self).status,
            final(self).connected == old(self).connected,
            match ntf {
                Ntf::Join { who } | Ntf::Nick { who } => r is None && (match old(self).present {
                    Some(p0) => {
                        &&& final(self).present matches Some(p)
                        &&& p.session == p0.session
                        &&& sessions_distinct(p.others@)
                        &&& (forall|x: Seq<char>|
                            sessions_contain(p.others@, x) <==> (sessions_contain(p0.others@, x)
                                || x == who.id@))
                        &&& spec_session_of(p.others@, who.id@) == who
                        &&& (forall|x: Seq<char>|
                            sessions_contain(p0.others@, x) && x != who.id@
                                ==> #[trigger] spec_session_of(p.others@, x) == spec_session_of(
                                p0.others@,
                                x,
                            ))
                    },
                    None => final(self).present is None,
                }),
                Ntf::Part { who } => r is None && (match old(self).present {
                    Some(p0) => {
                        &&& final(self).present matches Some(p)
                        &&& p.session == p0.session
                        &&& sessions_distinct(p.others@)
                        &&& !sessions_contain(p.others@, who.id@)
                        &&& (forall|x: Seq<char>|
                            x != who.id@ ==> (sessions_contain(p.others@, x) == sessions_contain(
                                p0.others@,
                                x,
                            )))
                        &&& (forall|x: Seq<char>|
                            x != who.id@ && sessions_contain(p0.others@, x)
                                ==> #[trigger] spec_session_of(p.others@, x) == spec_session_of(
                                p0.others@,
                                x,
                            ))
                    },
                    None => final(self).present is None,
                }),
                Ntf::Send { message } => r == Some(message) && final(self).present == old(
                    self,
                ).present,
            },
    {
        match ntf {
            Ntf::Join { who } => {
                match &mut self.present {
                    Some(p) => {
                        upsert_session(&mut p.others, who);
                    },
                    None => {},
                }
                None
            },
            Ntf::Nick { who } => {
                match &mut self.present {
                    Some(p) => {
                        upsert_session(&mut p.others, who);
                    },
                    None => {},
                }
                None
            },
            Ntf::Part { who } => {
                match &mut self.present {
                    Some(p) => {
                        remove_session(&mut p.others, &who.id);
                    },
                    None => {},
                }
                None
            },
            Ntf::Send { message } => Some(message),
        }
    }

    /// The decision after a room command: proceed on success; on an
    /// invalid room, stop for good and drop the connection state, so the
    /// driver observes the stop and exits.
    pub fn on_room_reply(&mut self, r: RoomRpl) -> (proceed: bool)
        requires
            old(self).wf(),
        ensures
            final(self).wf(),
            final(self).identity == old(self).identity,
            final(self).initial_nick == old(self).initial_nick,
            final(self).present == old(self).present,
            match r {
                RoomRpl::Success => proceed && final(self).status == old(self).status
                    && final(self).connected == old(self).connected,
                RoomRpl::InvalidRoom { reason } => !proceed && final(self).status
                    == Status::Stopped(StopReason::InvalidRoom(reason)) && final(self).connected
                    is None,
            },
    {
        match r {
            RoomRpl::Success => true,
            RoomRpl::InvalidRoom { reason } => {
                self.status = Status::Stopped(StopReason::InvalidRoom(reason));
                self.connected = None;
                false
            },
        }
    }

    /// The decision when a connection ends: a room that already stopped
    /// stays stopped with its reason untouched; a verified room
    /// reconnects; one that never was stops for good. Connection state
    /// and presence are discarded either way: stopped is terminal.
    pub fn after_connection_ends(&mut self, verified: Option<RoomVerified>) -> (cont: bool)
        requires
            old(self).wf(),
        ensures
            final(self).wf(),
            final(self).identity == old(self).identity,
            final(self).initial_nick == old(self).initial_nick,
            final(self).connected is None,
            final(self).present is None,
            match old(self).status {
                Status::Stopped(_) => !cont && final(self).status == old(self).status,
                _ => match verified {
                    Some(RoomVerified::Yes) => cont && final(self).status == Status::Reconnecting,
                    Some(RoomVerified::No(reason)) => !cont && final(self).status
                        == Status::Stopped(reason),
                    None => !cont && final(self).status == Status::Stopped(
                        StopReason::SomethingWentWrong,
                    ),
                },
            },
    {
        self.connected = None;
        self.present = None;
        match &self.status {
            Status::Stopped(_) => {
                return false;
            },
            _ => {},
        }
        match verified {
            Some(RoomVerified::Yes) => {
                self.status = Status::Reconnecting;
                true
            },
            Some(RoomVerified::No(reason)) => {
                self.status = Status::Stopped(reason);
                false
            },
            None => {
                self.status = Status::Stopped(StopReason::SomethingWentWrong);
                false
            },
        }
    }
}

/// The driver's note after a failed connection attempt: the first failure
/// of a never-verified room is terminal; later failures change nothing.
pub fn note_connect_failure(verified: Option<RoomVerified>, err: String) -> (r: Option<
    RoomVerified,
>)
    ensures
        match verified {
            None => r == Some(RoomVerified::No(StopReason::CouldNotConnect(err))),
            Some(v) => r == Some(v),
        },
{
    match verified {
        None => Some(RoomVerified::No(StopReason::CouldNotConnect(err))),
        Some(v) => Some(v),
    }
}

/// One step of exponential backoff, capped at `max_ms`.
pub fn backoff_step(cur_ms: u64, max_ms: u64) -> (r: u64)
    ensures
        r as int == (if cur_ms >= max_ms / 2 {
            max_ms as int
        } else if cur_ms == 0 {
            1int
        } else {
            cur_ms as int * 2
        }),
        max_ms > 0 ==> r <= max_ms,
{
    if cur_ms >= max_ms / 2 {
        max_ms
    } else if cur_ms == 0 {
        1
    } else {
        cur_ms * 2
    }
}

/// A reconnect delay with jitter folded in, never beyond `max_ms`. The
/// jitter may come from anywhere; every value yields a bounded delay.
pub fn jittered_delay(base_ms: u64, jitter: u64, max_ms: u64) -> (r: u64)
    requires
        base_ms <= max_ms,
        max_ms <= u64::MAX / 2,
    ensures
        r as int == (if base_ms as int + (jitter as int % (base_ms as int + 1)) <= max_ms as int {
            base_ms as int + (jitter as int % (base_ms as int + 1))
        } else {
            max_ms as int
        }),
        r <= max_ms,
        r >= base_ms,
{
    let j = jitter % (base_ms + 1);
    if base_ms <= max_ms - j {
        base_ms + j
    } else {
        max_ms
    }
}

/// The reply a room command expects, or `IncorrectReplyType` when the
/// server answered with an incompatible variant.
pub fn expect_room_rpl(rpl: Rpl) -> (r: Result<RoomRpl, Error>)
    ensures
        match rpl {
            Rpl::Room(inner) => r == Ok::<RoomRpl, Error>(inner),
            _ => r matches Err(Error::IncorrectReplyType),
        },
{
    match rpl {
        Rpl::Room(inner) => Ok(inner),
        _ => Err(Error::IncorrectReplyType),
    }
}

/// The reply an identify command expects.
pub fn expect_identify_rpl(rpl: Rpl) -> (r: Result<IdentifyRpl, Error>)
    ensures
        match rpl {
            Rpl::Identify(inner) => r == Ok::<IdentifyRpl, Error>(inner),
            _ => r matches Err(Error::IncorrectReplyType),
        },
{
    match rpl {
        Rpl::Identify(inner) => Ok(inner),
        _ => Err(Error::IncorrectReplyType),
    }
}

/// The reply a nick command expects.
pub fn expect_nick_rpl(rpl: Rpl) -> (r: Result<NickRpl, Error>)
    ensures
        match rpl {
            Rpl::Nick(inner) => r == Ok::<NickRpl, Error>(inner),
            _ => r matches Err(Error::IncorrectReplyType),
        },
{
    match rpl {
        Rpl::Nick(inner) => Ok(inner),
        _ => Err(Error::IncorrectReplyType),
    }
}

/// The reply a send command expects.
pub fn expect_send_rpl(rpl: Rpl) -> (r: Result<SendRpl, Error>)
    ensures
        match rpl {
            Rpl::Send(inner) => r == Ok::<SendRpl, Error>(inner),
            _ => r matches Err(Error::IncorrectReplyType),
        },
{
    match rpl {
        Rpl::Send(inner) => Ok(inner),
        _ => Err(Error::IncorrectReplyType),
    }
}

/// The reply a who command expects.
pub fn expect_who_rpl(rpl: Rpl) -> (r: Result<WhoRpl, Error>)
    ensures
        match rpl {
            Rpl::Who(inner) => r == Ok::<WhoRpl, Error>(inner),
            _ => r matches Err(Error::IncorrectReplyType),
        },
{
    match rpl {
        Rpl::Who(inner) => Ok(inner),
        _ => Err(Error::IncorrectReplyType),
    }
}

} // verus!
