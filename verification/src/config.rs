//! The configuration surface the core reads: per-room settings and the
//! initial sort order of the rooms list. Parsing the configuration file
//! is the surrounding program's business.

use vstd::prelude::*;

verus! {

/// Initial sort order of the rooms list.
#[derive(Clone, Copy, Debug, PartialEq, Eq, Structural)]
pub enum RoomsSortOrder {
    Alphabet,
    Importance,
}

impl Default for RoomsSortOrder {
    fn default() -> (r: Self)
        ensures
            r == RoomsSortOrder::Alphabet,
    {
        RoomsSortOrder::Alphabet
    }
}

/// Per-room settings.
pub struct EuphRoom {
    /// Whether to join the room on startup.
    pub autojoin: bool,
    pub username: Option<String>,
    pub force_username: bool,
    pub password: Option<String>,
}

impl EuphRoom {
    pub fn clone_room(&self) -> (r: Self)
        ensures
            r == *self,
    {
        EuphRoom {
            autojoin: self.autojoin,
            username: match &self.username {
                Some(u) => Some(u.clone()),
                None => None,
            },
            force_username: self.force_username,
            password: match &self.password {
                Some(p) => Some(p.clone()),
                None => None,
            },
        }
    }
}

impl Default for EuphRoom {
    fn default() -> (r: Self)
        ensures
            !r.autojoin,
            r.username is None,
            !r.force_username,
            r.password is None,
    {
        EuphRoom { autojoin: false, username: None, force_username: false, password: None }
    }
}

/// The room settings table, keyed by room name.
pub struct Euph {
    pub rooms: Vec<(String, EuphRoom)>,
}

/// Room names in the table are pairwise distinct.
pub open spec fn rooms_distinct(s: Seq<(String, EuphRoom)>) -> bool {
    forall|i: int, j: int| 0 <= i < j < s.len() ==> #[trigger] s[i].0@ != #[trigger] s[j].0@
}

/// Whether the table holds settings for this room name.
pub open spec fn rooms_contain(s: Seq<(String, EuphRoom)>, n: Seq<char>) -> bool {
    exists|i: int| 0 <= i < s.len() && #[trigger] s[i].0@ == n
}

pub open spec fn rooms_index(s: Seq<(String, EuphRoom)>, n: Seq<char>) -> int {
    choose|i: int| 0 <= i < s.len() && #[trigger] s[i].0@ == n
}

/// The settings stored under this room name, provided the table holds one.
pub open spec fn spec_room_of(s: Seq<(String, EuphRoom)>, n: Seq<char>) -> EuphRoom {
    s[rooms_index(s, n)].1
}

/// The configuration the core reads.
pub struct Config {
    /// The directory the client stores its data in when not running in
    /// ephemeral mode.
    pub data_dir: Option<String>,
    /// Whether to start in ephemeral mode, storing nothing.
    pub ephemeral: bool,
    /// Whether to measure character widths instead of guessing them.
    pub measure_widths: bool,
    /// Whether to start in offline mode, without joining autojoin rooms.
    pub offline: bool,
    pub rooms_sort_order: RoomsSortOrder,
    pub euph: Euph,
}

impl Config {
    pub open spec fn wf(&self) -> bool {
        rooms_distinct(self.euph.rooms@)
    }

    /// The settings of the named room, or the default settings when the
    /// configuration names no such room.
    pub fn euph_room(&self, name: &String) -> (r: EuphRoom)
        requires
            self.wf(),
        ensures
            if rooms_contain(self.euph.rooms@, name@) {
                r == spec_room_of(self.euph.rooms@, name@)
            } else {
                &&& !r.autojoin
                &&& r.username is None
                &&& !r.force_username
                &&& r.password is None
            },
    {
        let n = self.euph.rooms.len();
        let mut i: usize = 0;
        while i < n
            invariant
                n == self.euph.rooms@.len(),
                i <= n,
                self.wf(),
                forall|k: int| 0 <= k < i ==> #[trigger] self.euph.rooms@[k].0@ != name@,
            decreases n - i,
        {
            if self.euph.rooms[i].0 == *name {
                proof {
                    assert(self.euph.rooms@[i as int].0@ == name@);
                    let k = rooms_index(self.euph.rooms@, name@);
                    assert(0 <= k < n && self.euph.rooms@[k].0@ == name@);
                    if k != i {
                        assert(false);
                    }
                }
                return self.euph.rooms[i].1.clone_room();
            }
            i += 1;
        }
        proof {
            if rooms_contain(self.euph.rooms@, name@) {
                let k = choose|k: int|
                    0 <= k < self.euph.rooms@.len() && #[trigger] self.euph.rooms@[k].0@ == name@;
                assert(false);
            }
        }
        EuphRoom::default()
    }
}

impl Default for Config {
    fn default() -> (r: Self)
        ensures
            r.data_dir is None,
            !r.ephemeral,
            !r.measure_widths,
            !r.offline,
            r.rooms_sort_order == RoomsSortOrder::Alphabet,
            r.euph.rooms@ == Seq::<(String, EuphRoom)>::empty(),
            r.wf(),
    {
        Config {
            data_dir: None,
            ephemeral: false,
            measure_widths: false,
            offline: false,
            rooms_sort_order: RoomsSortOrder::Alphabet,
            euph: Euph { rooms: Vec::new() },
        }
    }
}

} // verus!
