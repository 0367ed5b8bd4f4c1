//! The wire protocol: commands the client sends, replies and notifications
//! the server sends, and the frames that carry them. On the wire each frame
//! is a JSON text message; here they are plain values.

use vstd::prelude::*;

verus! {

/// A connected client's ephemeral identity on the server.
pub struct Session {
    pub id: String,
    pub name: String,
}

impl Session {
    pub fn clone_session(&self) -> (r: Self)
        ensures
            r == *self,
    {
        Session { id: self.id.clone(), name: self.name.clone() }
    }
}

/// A chat message as the protocol carries it.
pub struct Message {
    pub id: u64,
    pub parent: Option<u64>,
    pub time: u64,
    pub sender: Session,
    pub content: String,
}

impl Message {
    pub fn clone_message(&self) -> (r: Self)
        ensures
            r == *self,
    {
        Message {
            id: self.id,
            parent: self.parent,
            time: self.time,
            sender: self.sender.clone_session(),
            content: self.content.clone(),
        }
    }
}

/// A command the client sends; the server answers each with one reply.
pub enum Cmd {
    Room { name: String },
    Identify { nick: String, identity: String },
    Nick { nick: String },
    Send { content: String, parent: Option<u64> },
    Who,
    Auth { password: String },
}

pub enum RoomRpl {
    Success,
    InvalidRoom { reason: String },
}

pub enum IdentifyRpl {
    Success { you: Session, others: Vec<Session>, last_message: Option<Message> },
    InvalidNick { reason: String },
    InvalidIdentity { reason: String },
}

pub enum NickRpl {
    Success { you: Session },
    InvalidNick { reason: String },
}

pub enum SendRpl {
    Success { message: Message },
    InvalidContent { reason: String },
}

pub struct WhoRpl {
    pub you: Session,
    pub others: Vec<Session>,
}

/// A reply to one command, correlated by the command's id.
pub enum Rpl {
    Room(RoomRpl),
    Identify(IdentifyRpl),
    Nick(NickRpl),
    Send(SendRpl),
    Who(WhoRpl),
}

/// A server-initiated notification.
pub enum Ntf {
    Join { who: Session },
    Nick { who: Session },
    Part { who: Session },
    Send { message: Message },
}

/// One frame on the wire. The server never sends `Cmd`.
pub enum Packet {
    Cmd { id: u64, cmd: Cmd },
    Rpl { id: u64, rpl: Rpl },
    Ntf { ntf: Ntf },
}

impl Packet {
    /// The frame that carries the command `cmd` under the id `id`.
    pub fn cmd(id: u64, cmd: Cmd) -> (r: Self)
        ensures
            r == (Packet::Cmd { id, cmd }),
    {
        Packet::Cmd { id, cmd }
    }
}

} // verus!
