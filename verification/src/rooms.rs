//! Small decisions of the rooms list that do not touch the terminal: the
//! sort order and which characters a room name may contain.

use vstd::prelude::*;

use crate::config::RoomsSortOrder;

verus! {

/// How the rooms list is sorted right now.
#[derive(Clone, Copy, Debug, PartialEq, Eq, Structural)]
pub enum Order {
    Alphabet,
    Importance,
}

impl Order {
    /// The list order the configured initial sort order stands for.
    pub fn from_rooms_sort_order(order: RoomsSortOrder) -> (r: Self)
        ensures
            r == (match order {
                RoomsSortOrder::Alphabet => Order::Alphabet,
                RoomsSortOrder::Importance => Order::Importance,
            }),
    {
        match order {
            RoomsSortOrder::Alphabet => Order::Alphabet,
            RoomsSortOrder::Importance => Order::Importance,
        }
    }
}

/// Whether a character may appear in a room name: ASCII letters, digits
/// and the underscore.
pub fn room_char(c: char) -> (r: bool)
    ensures
        r == (('a' <= c && c <= 'z') || ('A' <= c && c <= 'Z') || ('0' <= c && c <= '9') || c
            == '_'),
{
    ('a' <= c && c <= 'z') || ('A' <= c && c <= 'Z') || ('0' <= c && c <= '9') || c == '_'
}

} // verus!
