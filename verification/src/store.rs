//! The message forest: message capabilities, paths from a root to a message,
//! materialized reply trees, and the store query interface.

use vstd::prelude::*;

verus! {

/// Capabilities a message type offers to the store and the tree model.
///
/// Ids are totally ordered and chronological order equals id order, so a
/// reply always carries an id greater than its parent's.
pub trait Msg: Sized {
    spec fn spec_id(&self) -> u64;

    spec fn spec_parent(&self) -> Option<u64>;

    spec fn spec_seen(&self) -> bool;

    spec fn spec_last_possible_id() -> u64;

    /// The same message with its seen bit replaced.
    spec fn with_seen(&self, seen: bool) -> Self;

    proof fn with_seen_facts(&self, seen: bool)
        ensures
            (#[trigger] self.with_seen(seen)).spec_id() == self.spec_id(),
            self.with_seen(seen).spec_parent() == self.spec_parent(),
            self.with_seen(seen).spec_seen() == seen,
    ;

    fn id(&self) -> (r: u64)
        ensures
            r == self.spec_id(),
    ;

    fn parent(&self) -> (r: Option<u64>)
        ensures
            r == self.spec_parent(),
    ;

    fn seen(&self) -> (r: bool)
        ensures
            r == self.spec_seen(),
    ;

    fn last_possible_id() -> (r: u64)
        ensures
            r == Self::spec_last_possible_id(),
    ;
}

/// A message is well formed when its parent, if any, has a smaller id.
/// Chronological order equals id order, so every reply satisfies this.
pub open spec fn msg_wf<M: Msg>(m: M) -> bool {
    match m.spec_parent() {
        Some(p) => p < m.spec_id(),
        None => true,
    }
}

/// A non-empty sequence of ids leading from a tree root down to a target
/// message.
pub struct Path(Vec<u64>);

impl View for Path {
    type V = Seq<u64>;

    closed spec fn view(&self) -> Seq<u64> {
        self.0@
    }
}

impl Path {
    /// A path is never empty: it contains at least its target.
    pub open spec fn wf(&self) -> bool {
        self@.len() > 0
    }

    pub fn new(segments: Vec<u64>) -> (r: Self)
        requires
            segments@.len() > 0,
        ensures
            r@ == segments@,
            r.wf(),
    {
        Path(segments)
    }

    /// All segments except the target itself, in root-to-leaf order.
    pub fn parent_segments(&self) -> (r: Vec<u64>)
        requires
            self.wf(),
        ensures
            r@ == self@.drop_last(),
    {
        let n = self.0.len();
        let mut r: Vec<u64> = Vec::new();
        let mut i: usize = 0;
        while i < n - 1
            invariant
                n == self@.len(),
                1 <= n,
                i <= n - 1,
                r@ == self@.take(i as int),
            decreases n - 1 - i,
        {
            r.push(self.0[i]);
            assert(r@ == self@.take(i + 1 as int));
            i += 1;
        }
        assert(self@.take(n - 1 as int) =~= self@.drop_last());
        r
    }

    pub fn push(&mut self, segment: u64)
        ensures
            final(self)@ == old(self)@.push(segment),
    {
        self.0.push(segment)
    }

    pub fn first(&self) -> (r: u64)
        requires
            self.wf(),
        ensures
            r == self@.first(),
    {
        self.0[0]
    }

    /// The target the path leads to.
    pub fn last(&self) -> (r: u64)
        requires
            self.wf(),
        ensures
            r == self@.last(),
    {
        self.0[self.0.len() - 1]
    }

    pub fn len(&self) -> (r: usize)
        ensures
            r == self@.len(),
    {
        self.0.len()
    }

    /// The segment at position `i`, counting from the root.
    pub fn get(&self, i: usize) -> (r: u64)
        requires
            i < self@.len(),
        ensures
            r == self@[i as int],
    {
        self.0[i]
    }
}

/// All ids in `s` are pairwise distinct.
pub open spec fn ids_distinct<M: Msg>(s: Seq<M>) -> bool {
    forall|i: int, j: int|
        0 <= i < j < s.len() ==> #[trigger] s[i].spec_id() != #[trigger] s[j].spec_id()
}

/// Some message in `s` carries the id `id`.
pub open spec fn seq_contains_id<M: Msg>(s: Seq<M>, id: u64) -> bool {
    exists|i: int| 0 <= i < s.len() && #[trigger] s[i].spec_id() == id
}

/// A sequence of ids in strictly ascending order.
pub open spec fn sorted_strict(s: Seq<u64>) -> bool {
    forall|i: int, j: int| 0 <= i < j < s.len() ==> #[trigger] s[i] < #[trigger] s[j]
}

/// Whether a plain id vector holds `x`.
fn vec_has(v: &Vec<u64>, x: u64) -> (r: bool)
    ensures
        r == v@.contains(x),
{
    let mut i: usize = 0;
    while i < v.len()
        invariant
            i <= v@.len(),
            forall|k: int| 0 <= k < i ==> v@[k] != x,
        decreases v@.len() - i,
    {
        if v[i] == x {
            return true;
        }
        i += 1;
    }
    false
}

/// Pairwise distinct plain ids.
pub open spec fn keys_distinct(s: Seq<u64>) -> bool {
    forall|a: int, b: int| 0 <= a < b < s.len() ==> #[trigger] s[a] != #[trigger] s[b]
}

/// Appends `x` unless it is already there, keeping the ids distinct.
fn push_unique(keys: &mut Vec<u64>, x: u64)
    requires
        keys_distinct(old(keys)@),
    ensures
        keys_distinct(final(keys)@),
        forall|y: u64| final(keys)@.contains(y) <==> (old(keys)@.contains(y) || y == x),
{
    let ghost pre = keys@;
    if !vec_has(keys, x) {
        keys.push(x);
        proof {
            assert forall|y: u64| keys@.contains(y) <==> (pre.contains(y) || y == x) by {
                if keys@.contains(y) {
                    let k = choose|k: int| 0 <= k < keys@.len() && keys@[k] == y;
                    if k < pre.len() {
                        assert(pre[k] == y);
                    }
                }
                if pre.contains(y) {
                    let k = choose|k: int| 0 <= k < pre.len() && pre[k] == y;
                    assert(keys@[k] == y);
                }
                if y == x {
                    assert(keys@[pre.len() as int] == x);
                }
            }
            assert forall|a: int, b: int| 0 <= a < b < keys@.len() implies keys@[a] != keys@[b] by {
                if b == pre.len() {
                    assert(pre[a] != x) by {
                        if pre[a] == x {
                            assert(pre.contains(x));
                        }
                    }
                }
            }
        }
    }
}

/// Inserts `x` into a strictly ascending id list, keeping the order.
fn insert_sorted(list: &Vec<u64>, x: u64) -> (r: Vec<u64>)
    requires
        sorted_strict(list@),
        !list@.contains(x),
    ensures
        sorted_strict(r@),
        r@.len() == list@.len() + 1,
        forall|y: u64| r@.contains(y) <==> (list@.contains(y) || y == x),
{
    let n = list.len();
    let mut r: Vec<u64> = Vec::new();
    let mut i: usize = 0;
    while i < n && list[i] < x
        invariant
            n == list@.len(),
            i <= n,
            r@ == list@.take(i as int),
            forall|k: int| 0 <= k < i ==> list@[k] < x,
        decreases n - i,
    {
        r.push(list[i]);
        assert(r@ == list@.take(i + 1 as int));
        i += 1;
    }
    proof {
        // Everything at or past `i` is larger than `x`.
        assert forall|k: int| i <= k < n implies list@[k] > x by {
            if k > i {
                assert(list@[i as int] < list@[k]);
            }
            assert(list@[k] != x) by {
                if list@[k] == x {
                    assert(list@.contains(x));
                }
            }
        }
    }
    r.push(x);
    let ghost mid = r@;
    let mut j: usize = i;
    while j < n
        invariant
            n == list@.len(),
            i <= j <= n,
            mid == list@.take(i as int).push(x),
            r@ == mid + list@.subrange(i as int, j as int),
        decreases n - j,
    {
        r.push(list[j]);
        assert(r@ == mid + list@.subrange(i as int, j + 1 as int));
        j += 1;
    }
    proof {
        let fin = r@;
        assert(fin == list@.take(i as int).push(x) + list@.subrange(i as int, n as int));
        assert(fin.len() == list@.len() + 1);
        assert forall|k: int| 0 <= k < fin.len() implies fin[k] == (if k < i {
            list@[k]
        } else if k == i {
            x
        } else {
            list@[k - 1]
        }) by {}
        assert forall|a: int, b: int| 0 <= a < b < fin.len() implies fin[a] < fin[b] by {}
        assert forall|y: u64| fin.contains(y) implies (list@.contains(y) || y == x) by {
            let k = choose|k: int| 0 <= k < fin.len() && fin[k] == y;
            if k < i {
                assert(list@[k] == y);
            } else if k > i {
                assert(list@[k - 1] == y);
            }
        }
        assert forall|y: u64| list@.contains(y) implies fin.contains(y) by {
            let k = choose|k: int| 0 <= k < list@.len() && list@[k] == y;
            if k < i {
                assert(fin[k] == y);
            } else {
                assert(fin[k + 1] == y);
            }
        }
        assert(fin.contains(x)) by {
            assert(fin[i as int] == x);
        }
    }
    r
}

/// The ids that must get a children-table entry: every message id and every
/// id that occurs as a parent.
fn collect_keys<M: Msg>(msgs: &Vec<M>) -> (keys: Vec<u64>)
    ensures
        forall|a: int, b: int| 0 <= a < b < keys@.len() ==> #[trigger] keys@[a] != #[trigger] keys@[b],
        forall|k: u64|
            keys@.contains(k) <==> (seq_contains_id(msgs@, k) || exists|j: int|
                0 <= j < msgs@.len() && #[trigger] msgs@[j].spec_parent() == Some(k)),
{
    let n = msgs.len();
    let mut keys: Vec<u64> = Vec::new();
    let mut i: usize = 0;
    while i < n
        invariant
            n == msgs@.len(),
            i <= n,
            keys_distinct(keys@),
            forall|k: u64|
                keys@.contains(k) <==> (seq_contains_id(msgs@.take(i as int), k) || exists|j: int|
                    0 <= j < i && #[trigger] msgs@[j].spec_parent() == Some(k)),
        decreases n - i,
    {
        let ghost pre = keys@;
        let m = &msgs[i];
        let id = m.id();
        push_unique(&mut keys, id);
        let parent = m.parent();
        match parent {
            Some(p) => {
                push_unique(&mut keys, p);
            },
            None => {},
        }
        proof {
            let prefix0 = msgs@.take(i as int);
            let prefix1 = msgs@.take(i + 1 as int);
            assert(prefix1[i as int] == msgs@[i as int]);
            assert forall|k: u64|
                keys@.contains(k) <==> (seq_contains_id(prefix1, k) || exists|j: int|
                    0 <= j < i + 1 && #[trigger] msgs@[j].spec_parent() == Some(k)) by {
                if keys@.contains(k) {
                    // It was there before, or is this message's id or parent.
                    if pre.contains(k) {
                        if seq_contains_id(prefix0, k) {
                            let j = choose|j: int|
                                0 <= j < prefix0.len() && #[trigger] prefix0[j].spec_id() == k;
                            assert(prefix1[j].spec_id() == k);
                        }
                    } else if k == id {
                        assert(prefix1[i as int].spec_id() == k);
                    }
                }
                if seq_contains_id(prefix1, k) {
                    let j = choose|j: int|
                        0 <= j < prefix1.len() && #[trigger] prefix1[j].spec_id() == k;
                    if j < i {
                        assert(prefix0[j].spec_id() == k);
                        assert(pre.contains(k));
                    } else {
                        assert(k == id);
                    }
                    assert(keys@.contains(k));
                }
                if exists|j: int| 0 <= j < i + 1 && #[trigger] msgs@[j].spec_parent() == Some(k) {
                    let j = choose|j: int|
                        0 <= j < i + 1 && #[trigger] msgs@[j].spec_parent() == Some(k);
                    if j < i {
                        assert(pre.contains(k));
                    }
                    assert(keys@.contains(k));
                }
            }
        }
        i += 1;
    }
    proof {
        assert(msgs@.take(n as int) == msgs@);
    }
    keys
}

/// The children of `key` among `msgs`, in strictly ascending order.
fn child_list<M: Msg>(msgs: &Vec<M>, key: u64) -> (r: Vec<u64>)
    requires
        ids_distinct(msgs@),
    ensures
        sorted_strict(r@),
        forall|c: u64|
            r@.contains(c) <==> (exists|j: int|
                0 <= j < msgs@.len() && #[trigger] msgs@[j].spec_id() == c
                    && msgs@[j].spec_parent() == Some(key)),
{
    let n = msgs.len();
    let mut r: Vec<u64> = Vec::new();
    let mut i: usize = 0;
    while i < n
        invariant
            n == msgs@.len(),
            i <= n,
            ids_distinct(msgs@),
            sorted_strict(r@),
            forall|c: u64|
                r@.contains(c) <==> (exists|j: int|
                    0 <= j < i && #[trigger] msgs@[j].spec_id() == c && msgs@[j].spec_parent()
                        == Some(key)),
        decreases n - i,
    {
        let m = &msgs[i];
        if match m.parent() {
            Some(p) => p == key,
            None => false,
        } {
            let id = m.id();
            proof {
                if r@.contains(id) {
                    let j = choose|j: int|
                        0 <= j < i && #[trigger] msgs@[j].spec_id() == id && msgs@[j].spec_parent()
                            == Some(key);
                    assert(msgs@[j].spec_id() == msgs@[i as int].spec_id());
                    assert(false);
                }
            }
            let r2 = insert_sorted(&r, id);
            r = r2;
        }
        i += 1;
    }
    r
}

/// A single reply tree, materialized in memory: a root id, the messages of
/// the tree, and for each node the list of its children in ascending order.
pub struct Tree<M: Msg> {
    root: u64,
    msgs: Vec<M>,
    children: Vec<(u64, Vec<u64>)>,
}

impl<M: Msg> Tree<M> {
    /// The root the tree was built around.
    pub closed spec fn spec_root(&self) -> u64 {
        self.root
    }

    /// The messages the tree holds, in the order they were handed in.
    pub closed spec fn msg_seq(&self) -> Seq<M> {
        self.msgs@
    }

    /// Whether a message with this id is in the tree.
    pub open spec fn contains(&self, id: u64) -> bool {
        seq_contains_id(self.msg_seq(), id)
    }

    /// The index of the message with id `id`, provided it is in the tree.
    pub open spec fn index_of(&self, id: u64) -> int {
        choose|i: int| 0 <= i < self.msg_seq().len() && #[trigger] self.msg_seq()[i].spec_id() == id
    }

    /// The message with id `id`, provided it is in the tree.
    pub open spec fn spec_msg_of(&self, id: u64) -> M {
        self.msg_seq()[self.index_of(id)]
    }

    /// Whether `c` is recorded as a child of `p`.
    pub open spec fn is_child_of(&self, c: u64, p: u64) -> bool {
        exists|i: int|
            0 <= i < self.msg_seq().len() && #[trigger] self.msg_seq()[i].spec_id() == c
                && self.msg_seq()[i].spec_parent() == Some(p)
    }

    /// Whether the children table has an entry for `id`.
    pub closed spec fn has_entry(&self, id: u64) -> bool {
        exists|i: int| 0 <= i < self.children@.len() && #[trigger] self.children@[i].0 == id
    }

    pub closed spec fn entry_index(&self, id: u64) -> int {
        choose|i: int| 0 <= i < self.children@.len() && #[trigger] self.children@[i].0 == id
    }

    /// The recorded child list of `id`.
    pub closed spec fn spec_children_of(&self, id: u64) -> Seq<u64> {
        self.children@[self.entry_index(id)].1@
    }

    /// Well-formedness: distinct, well-formed messages; a children table with
    /// distinct keys whose entries exist exactly for the ids that occur as a
    /// message or as a parent; every child list strictly ascending and holding
    /// exactly the ids of the messages that name its key as parent.
    pub closed spec fn wf(&self) -> bool {
        &&& ids_distinct(self.msgs@)
        &&& forall|i: int| 0 <= i < self.msgs@.len() ==> msg_wf(#[trigger] self.msgs@[i])
        &&& forall|i: int, j: int|
            0 <= i < j < self.children@.len() ==> #[trigger] self.children@[i].0
                != #[trigger] self.children@[j].0
        &&& forall|i: int|
            0 <= i < self.children@.len() ==> sorted_strict(#[trigger] self.children@[i].1@)
        &&& forall|i: int, c: u64|
            0 <= i < self.children@.len() && #[trigger] self.children@[i].1@.contains(c)
                ==> self.is_child_of(c, self.children@[i].0)
        &&& forall|c: u64, p: u64|
            self.is_child_of(c, p) ==> self.has_entry(p) && #[trigger] self.spec_children_of(
                p,
            ).contains(c)
        &&& forall|i: int|
            0 <= i < self.children@.len() ==> self.contains(#[trigger] self.children@[i].0)
                || (exists|j: int|
                    0 <= j < self.msgs@.len() && #[trigger] self.msgs@[j].spec_parent() == Some(
                        self.children@[i].0,
                    ))
        &&& forall|i: int|
            0 <= i < self.msgs@.len() ==> self.has_entry(#[trigger] self.msgs@[i].spec_id())
        &&& forall|j: int|
            0 <= j < self.msgs@.len() ==> ((#[trigger] self.msgs@[j].spec_parent()) matches Some(p)
                ==> self.has_entry(p))
    }

    /// In a well-formed tree, the message at a given index is what
    /// `spec_msg_of` yields for its id.
    pub proof fn lemma_msg_at(&self, i: int, id: u64)
        requires
            self.wf(),
            0 <= i < self.msg_seq().len(),
            self.msg_seq()[i].spec_id() == id,
        ensures
            self.contains(id),
            self.index_of(id) == i,
            self.spec_msg_of(id) == self.msg_seq()[i],
    {
        self.lemma_index_unique(i, id);
    }

    /// The index holding `id` is the unique one, so `index_of` picks it.
    proof fn lemma_index_unique(&self, i: int, id: u64)
        requires
            ids_distinct(self.msgs@),
            0 <= i < self.msg_seq().len(),
            self.msg_seq()[i].spec_id() == id,
        ensures
            self.contains(id),
            self.index_of(id) == i,
            self.spec_msg_of(id) == self.msg_seq()[i],
    {
        assert(self.contains(id));
        let k = self.index_of(id);
        assert(0 <= k < self.msg_seq().len() && self.msg_seq()[k].spec_id() == id);
        if k != i {
            assert(false);
        }
    }

    /// The entry holding `key` is the unique one, so `entry_index` picks it.
    proof fn lemma_entry_unique(&self, t: int, key: u64)
        requires
            self.wf(),
            0 <= t < self.children@.len(),
            self.children@[t].0 == key,
        ensures
            self.has_entry(key),
            self.entry_index(key) == t,
            self.spec_children_of(key) == self.children@[t].1@,
    {
        assert(self.has_entry(key));
        let k = self.entry_index(key);
        assert(0 <= k < self.children@.len() && self.children@[k].0 == key);
        if k != t {
            assert(false);
        }
    }

    /// Whether the proper ancestor chain of `x` passes through `a`.
    pub open spec fn reaches(self, x: u64, a: u64) -> bool
        decreases x,
    {
        if !self.contains(x) {
            false
        } else {
            match self.spec_msg_of(x).spec_parent() {
                None => false,
                Some(p) => p == a || (p < x && self.reaches(p, a)),
            }
        }
    }

    /// How many messages are proper descendants of `id`.
    pub open spec fn descendant_count(self, id: u64) -> nat {
        self.msg_seq().filter(|m: M| self.reaches(m.spec_id(), id)).len()
    }

    pub fn new(root: u64, msgs: Vec<M>) -> (r: Self)
        requires
            ids_distinct(msgs@),
            forall|i: int| 0 <= i < msgs@.len() ==> msg_wf(#[trigger] msgs@[i]),
        ensures
            r.wf(),
            r.spec_root() == root,
            r.msg_seq() == msgs@,
            // Every message got a children-table entry, so `children`
            // answers for every contained id.
            forall|i: int| 0 <= i < msgs@.len() ==> r.has_entry(#[trigger] msgs@[i].spec_id()),
    {
        let keys = collect_keys(&msgs);
        let n = keys.len();
        let mut children: Vec<(u64, Vec<u64>)> = Vec::new();
        let mut i: usize = 0;
        while i < n
            invariant
                n == keys@.len(),
                i <= n,
                ids_distinct(msgs@),
                children@.len() == i,
                forall|t: int| 0 <= t < i ==> #[trigger] children@[t].0 == keys@[t],
                forall|t: int| 0 <= t < i ==> sorted_strict(#[trigger] children@[t].1@),
                forall|t: int, c: u64|
                    0 <= t < i ==> (#[trigger] children@[t].1@.contains(c) <==> (exists|j: int|
                        0 <= j < msgs@.len() && #[trigger] msgs@[j].spec_id() == c
                            && msgs@[j].spec_parent() == Some(keys@[t]))),
            decreases n - i,
        {
            let key = keys[i];
            let list = child_list(&msgs, key);
            let ghost lv = list@;
            let ghost prev = children@;
            children.push((key, list));
            proof {
                assert forall|t: int| 0 <= t < i + 1 implies sorted_strict(
                    #[trigger] children@[t].1@,
                ) by {
                    if t < i {
                        assert(children@[t] == prev[t]);
                        assert(sorted_strict(prev[t].1@));
                    } else {
                        assert(children@[t].1@ == lv);
                        assert(sorted_strict(lv));
                    }
                }
                assert forall|t: int, c: u64|
                    0 <= t < i + 1 implies (#[trigger] children@[t].1@.contains(c) <==> (exists|
                    j: int,
                |
                    0 <= j < msgs@.len() && #[trigger] msgs@[j].spec_id() == c
                        && msgs@[j].spec_parent() == Some(keys@[t]))) by {
                    if t < i {
                        assert(children@[t] == prev[t]);
                    } else {
                        assert(children@[t].1@ == lv);
                        assert(children@[t].0 == keys@[t]);
                    }
                }
            }
            i += 1;
        }
        let t = Tree { root, msgs, children };
        proof {
            let cs = t.children@;
            let ms = t.msgs@;
            assert forall|a: int, b: int| 0 <= a < b < cs.len() implies cs[a].0 != cs[b].0 by {
                assert(keys@[a] != keys@[b]);
            }
            assert forall|c: u64, p: u64| t.is_child_of(c, p) implies t.has_entry(p)
                && #[trigger] t.spec_children_of(p).contains(c) by {
                let j = choose|j: int|
                    0 <= j < ms.len() && #[trigger] ms[j].spec_id() == c && ms[j].spec_parent()
                        == Some(p);
                assert(keys@.contains(p));
                let u = choose|u: int| 0 <= u < keys@.len() && keys@[u] == p;
                assert(cs[u].0 == p);
                assert(t.has_entry(p));
                let e = t.entry_index(p);
                assert(0 <= e < cs.len() && cs[e].0 == p);
                if e != u {
                    assert(keys@[e] != keys@[u]);
                    assert(false);
                }
                assert(cs[u].1@.contains(c));
            }
            assert forall|i0: int| 0 <= i0 < cs.len() implies t.contains(#[trigger] cs[i0].0) || (
            exists|j: int|
                0 <= j < ms.len() && #[trigger] ms[j].spec_parent() == Some(cs[i0].0)) by {
                assert(keys@.contains(keys@[i0]));
                assert(cs[i0].0 == keys@[i0]);
            }
            assert forall|i0: int| 0 <= i0 < ms.len() implies t.has_entry(
                #[trigger] ms[i0].spec_id(),
            ) by {
                assert(seq_contains_id(ms, ms[i0].spec_id())) by {
                    assert(ms[i0].spec_id() == ms[i0].spec_id());
                }
                assert(keys@.contains(ms[i0].spec_id()));
                let u = choose|u: int| 0 <= u < keys@.len() && keys@[u] == ms[i0].spec_id();
                assert(cs[u].0 == ms[i0].spec_id());
            }
            assert forall|j: int|
                0 <= j < ms.len() implies ((#[trigger] ms[j].spec_parent()) matches Some(p)
                ==> t.has_entry(p)) by {
                match ms[j].spec_parent() {
                    Some(p) => {
                        assert(keys@.contains(p));
                        let u = choose|u: int| 0 <= u < keys@.len() && keys@[u] == p;
                        assert(cs[u].0 == p);
                        assert(t.has_entry(p));
                    },
                    None => {},
                }
            }
            assert(t.wf());
        }
        t
    }

    pub fn len(&self) -> (r: usize)
        ensures
            r == self.msg_seq().len(),
    {
        self.msgs.len()
    }

    pub fn root(&self) -> (r: u64)
        ensures
            r == self.spec_root(),
    {
        self.root
    }

    pub fn msg(&self, id: u64) -> (r: Option<&M>)
        requires
            self.wf(),
        ensures
            match r {
                Some(m) => self.contains(id) && m.spec_id() == id && *m == self.spec_msg_of(id),
                None => !self.contains(id),
            },
    {
        let n = self.msgs.len();
        let mut i: usize = 0;
        while i < n
            invariant
                n == self.msgs@.len(),
                i <= n,
                self.wf(),
                forall|k: int| 0 <= k < i ==> #[trigger] self.msgs@[k].spec_id() != id,
            decreases n - i,
        {
            let m = &self.msgs[i];
            if m.id() == id {
                proof {
                    self.lemma_index_unique(i as int, id);
                }
                return Some(m);
            }
            i += 1;
        }
        proof {
            if self.contains(id) {
                let k = choose|k: int|
                    0 <= k < self.msg_seq().len() && #[trigger] self.msg_seq()[k].spec_id() == id;
                assert(false);
            }
        }
        None
    }

    pub fn parent(&self, id: u64) -> (r: Option<u64>)
        requires
            self.wf(),
        ensures
            match r {
                Some(p) => self.contains(id) && self.spec_msg_of(id).spec_parent() == Some(p),
                None => !self.contains(id) || self.spec_msg_of(id).spec_parent() is None,
            },
    {
        match self.msg(id) {
            Some(m) => m.parent(),
            None => None,
        }
    }

    pub fn children(&self, id: u64) -> (r: Option<&Vec<u64>>)
        requires
            self.wf(),
        ensures
            match r {
                Some(l) => self.has_entry(id) && l@ == self.spec_children_of(id) && sorted_strict(
                    l@,
                ) && (forall|c: u64| l@.contains(c) <==> self.is_child_of(c, id)),
                None => !self.has_entry(id) && (forall|c: u64| !self.is_child_of(c, id)),
            },
    {
        let n = self.children.len();
        let mut i: usize = 0;
        while i < n
            invariant
                n == self.children@.len(),
                i <= n,
                self.wf(),
                forall|k: int| 0 <= k < i ==> #[trigger] self.children@[k].0 != id,
            decreases n - i,
        {
            if self.children[i].0 == id {
                proof {
                    self.lemma_entry_unique(i as int, id);
                    let l = self.children@[i as int].1@;
                    assert forall|c: u64| l.contains(c) implies self.is_child_of(c, id) by {}
                    assert forall|c: u64| self.is_child_of(c, id) implies l.contains(c) by {
                        assert(self.spec_children_of(id).contains(c));
                    }
                }
                return Some(&self.children[i].1);
            }
            i += 1;
        }
        proof {
            if self.has_entry(id) {
                let k = choose|k: int|
                    0 <= k < self.children@.len() && #[trigger] self.children@[k].0 == id;
                assert(false);
            }
            assert forall|c: u64| !self.is_child_of(c, id) by {
                if self.is_child_of(c, id) {
                    assert(self.has_entry(id));
                }
            }
        }
        None
    }

    /// Whether `anc` lies on the proper ancestor chain of `x`.
    pub fn is_descendant_of(&self, x: u64, anc: u64) -> (r: bool)
        requires
            self.wf(),
        ensures
            r == self.reaches(x, anc),
        decreases x,
    {
        match self.msg(x) {
            None => false,
            Some(m) => {
                match m.parent() {
                    None => false,
                    Some(p) => {
                        if p == anc {
                            true
                        } else {
                            proof {
                                let k = self.index_of(x);
                                assert(msg_wf(self.msg_seq()[k]));
                            }
                            self.is_descendant_of(p, anc)
                        }
                    },
                }
            },
        }
    }

    /// The number of proper descendants of `id` in this tree.
    pub fn subtree_size(&self, id: u64) -> (r: usize)
        requires
            self.wf(),
        ensures
            r == self.descendant_count(id),
    {
        let n = self.msgs.len();
        let ghost pred = |m: M| self.reaches(m.spec_id(), id);
        let mut count: usize = 0;
        let mut i: usize = 0;
        while i < n
            invariant
                n == self.msgs@.len(),
                i <= n,
                self.wf(),
                pred == (|m: M| self.reaches(m.spec_id(), id)),
                count == self.msg_seq().take(i as int).filter(pred).len(),
                count <= i,
            decreases n - i,
        {
            let ghost pre = self.msg_seq().take(i as int);
            let ghost cur = self.msg_seq().take(i + 1 as int);
            proof {
                reveal(Seq::filter);
                assert(cur.drop_last() =~= pre);
                assert(cur.last() == self.msg_seq()[i as int]);
                assert(cur.len() > 0);
                assert(cur.filter(pred) == if pred(cur.last()) {
                    pre.filter(pred).push(cur.last())
                } else {
                    pre.filter(pred)
                });
            }
            let m = &self.msgs[i];
            if self.is_descendant_of(m.id(), id) {
                count += 1;
            }
            i += 1;
        }
        proof {
            assert(self.msg_seq().take(n as int) =~= self.msg_seq());
        }
        count
    }

    /// `y` is the greatest child of `x`.
    pub open spec fn is_greatest_child(&self, x: u64, y: u64) -> bool {
        &&& self.is_child_of(y, x)
        &&& forall|c: u64| #[trigger] self.is_child_of(c, x) ==> c <= y
    }

    /// The end of the chain of greatest children below `x`: the message
    /// the layout shows last inside `x`'s subtree.
    pub open spec fn spec_last_desc(&self, x: u64) -> u64
        decreases u64::MAX - x,
    {
        if exists|y: u64| self.is_greatest_child(x, y) {
            let y = choose|y: u64| self.is_greatest_child(x, y);
            if y > x {
                self.spec_last_desc(y)
            } else {
                x
            }
        } else {
            x
        }
    }

    /// The last message on the chain of last children below `x`: the
    /// message the layout shows directly above `x`'s next sibling.
    pub fn last_descendant(&self, x: u64) -> (r: u64)
        requires
            self.wf(),
        ensures
            r == self.spec_last_desc(x),
            r == x || self.reaches(r, x),
            forall|c: u64| !self.is_child_of(c, r),
    {
        let mut cur = x;
        let mut done = false;
        while !done
            invariant
                self.wf(),
                cur == x || self.reaches(cur, x),
                self.spec_last_desc(x) == self.spec_last_desc(cur),
                done ==> forall|c: u64| !self.is_child_of(c, cur),
            decreases (u64::MAX - cur) as int + if done {
                0int
            } else {
                1int
            },
        {
            match self.children(cur) {
                Some(l) => {
                    if l.len() > 0 {
                        let nx = l[l.len() - 1];
                        proof {
                            assert(self.is_child_of(nx, cur)) by {
                                assert(l@.contains(l@[l@.len() - 1]));
                            }
                            let j = choose|j: int|
                                0 <= j < self.msg_seq().len()
                                    && #[trigger] self.msg_seq()[j].spec_id() == nx
                                    && self.msg_seq()[j].spec_parent() == Some(cur);
                            assert(msg_wf(self.msg_seq()[j]));
                            assert(cur < nx);
                            assert(self.contains(nx));
                            assert(self.reaches(nx, cur));
                            // The greatest child of `cur` is the last entry
                            // of its sorted children list, so the chain spec
                            // steps exactly here.
                            assert(self.is_greatest_child(cur, nx)) by {
                                assert forall|c: u64| #[trigger] self.is_child_of(c, cur) implies c
                                    <= nx by {
                                    assert(l@.contains(c));
                                    let kc = choose|kc: int| 0 <= kc < l@.len() && l@[kc] == c;
                                    if kc < l@.len() - 1 {
                                        assert(l@[kc] < l@[l@.len() - 1]);
                                    }
                                }
                            }
                            let y = choose|y: u64| self.is_greatest_child(cur, y);
                            assert(y <= nx && nx <= y);
                            assert(self.spec_last_desc(cur) == self.spec_last_desc(nx));
                        }
                        cur = nx;
                    } else {
                        proof {
                            assert forall|c: u64| !self.is_child_of(c, cur) by {
                                if self.is_child_of(c, cur) {
                                    assert(l@.contains(c));
                                }
                            }
                            assert(self.spec_last_desc(cur) == cur) by {
                                if exists|y: u64| self.is_greatest_child(cur, y) {
                                    let y = choose|y: u64| self.is_greatest_child(cur, y);
                                    assert(false);
                                }
                            }
                        }
                        done = true;
                    }
                },
                None => {
                    proof {
                        assert(self.spec_last_desc(cur) == cur) by {
                            if exists|y: u64| self.is_greatest_child(cur, y) {
                                let y = choose|y: u64| self.is_greatest_child(cur, y);
                                assert(false);
                            }
                        }
                    }
                    done = true;
                },
            }
        }
        cur
    }

    /// The children list of this message's parent, the message itself
    /// included.
    pub fn siblings(&self, id: u64) -> (r: Option<&Vec<u64>>)
        requires
            self.wf(),
        ensures
            match r {
                Some(l) => self.contains(id) && (exists|p: u64|
                    self.spec_msg_of(id).spec_parent() == Some(p) && #[trigger] l@
                        == self.spec_children_of(p) && sorted_strict(l@) && (forall|c: u64|
                        l@.contains(c) <==> self.is_child_of(c, p))),
                None => !self.contains(id) || self.spec_msg_of(id).spec_parent() is None,
            },
    {
        match self.parent(id) {
            Some(p) => {
                proof {
                    let k = self.index_of(id);
                    assert(self.has_entry(p));
                }
                let r = self.children(p);
                proof {
                    assert(r is Some);
                }
                r
            },
            None => None,
        }
    }

    /// The next smaller sibling: the largest child of this message's parent
    /// whose id is below `id`.
    pub fn prev_sibling(&self, id: u64) -> (r: Option<u64>)
        requires
            self.wf(),
        ensures
            match r {
                Some(s) => self.contains(id) && (exists|p: u64|
                    self.spec_msg_of(id).spec_parent() == Some(p) && #[trigger] self.is_child_of(
                        s,
                        p,
                    ) && s < id && (forall|c: u64|
                        self.is_child_of(c, p) && c < id ==> c <= s)),
                None => !self.contains(id) || self.spec_msg_of(id).spec_parent() is None || (
                forall|p: u64, c: u64|
                    self.spec_msg_of(id).spec_parent() == Some(p) && #[trigger] self.is_child_of(
                        c,
                        p,
                    ) ==> c >= id),
            },
    {
        let l = match self.siblings(id) {
            Some(l) => l,
            None => {
                return None;
            },
        };
        let ghost p = choose|p: u64|
            self.spec_msg_of(id).spec_parent() == Some(p) && #[trigger] l@
                == self.spec_children_of(p);
        let n = l.len();
        let mut i: usize = 0;
        let mut best: Option<u64> = None;
        while i < n
            invariant
                n == l@.len(),
                i <= n,
                self.wf(),
                sorted_strict(l@),
                forall|c: u64| l@.contains(c) <==> self.is_child_of(c, p),
                match best {
                    Some(b) => exists|k: int|
                        0 <= k < i && l@[k] == b && b < id && (forall|k2: int|
                            0 <= k2 < i && #[trigger] l@[k2] < id ==> l@[k2] <= b),
                    None => forall|k: int| 0 <= k < i ==> #[trigger] l@[k] >= id,
                },
            decreases n - i,
        {
            let c = l[i];
            if c < id {
                best = Some(c);
            }
            i += 1;
        }
        proof {
            match best {
                Some(b) => {
                    let k = choose|k: int|
                        0 <= k < n && l@[k] == b && b < id && (forall|k2: int|
                            0 <= k2 < n && #[trigger] l@[k2] < id ==> l@[k2] <= b);
                    assert(l@.contains(b)) by {
                        assert(l@[k] == b);
                    }
                    assert forall|c: u64| self.is_child_of(c, p) && c < id implies c <= b by {
                        assert(l@.contains(c));
                        let k2 = choose|k2: int| 0 <= k2 < l@.len() && l@[k2] == c;
                        assert(l@[k2] < id);
                    }
                },
                None => {
                    assert forall|p2: u64, c: u64|
                        self.spec_msg_of(id).spec_parent() == Some(p2)
                            && #[trigger] self.is_child_of(c, p2) implies c >= id by {
                        assert(p2 == p);
                        assert(l@.contains(c));
                        let k = choose|k: int| 0 <= k < l@.len() && l@[k] == c;
                        assert(l@[k] >= id);
                    }
                },
            }
        }
        best
    }

    /// The next larger sibling: the smallest child of this message's parent
    /// whose id is above `id`.
    pub fn next_sibling(&self, id: u64) -> (r: Option<u64>)
        requires
            self.wf(),
        ensures
            match r {
                Some(s) => self.contains(id) && (exists|p: u64|
                    self.spec_msg_of(id).spec_parent() == Some(p) && #[trigger] self.is_child_of(
                        s,
                        p,
                    ) && s > id && (forall|c: u64|
                        self.is_child_of(c, p) && c > id ==> c >= s)),
                None => !self.contains(id) || self.spec_msg_of(id).spec_parent() is None || (
                forall|p: u64, c: u64|
                    self.spec_msg_of(id).spec_parent() == Some(p) && #[trigger] self.is_child_of(
                        c,
                        p,
                    ) ==> c <= id),
            },
    {
        let l = match self.siblings(id) {
            Some(l) => l,
            None => {
                return None;
            },
        };
        let ghost p = choose|p: u64|
            self.spec_msg_of(id).spec_parent() == Some(p) && #[trigger] l@
                == self.spec_children_of(p);
        let n = l.len();
        let mut i: usize = 0;
        let mut best: Option<u64> = None;
        while i < n
            invariant
                n == l@.len(),
                i <= n,
                self.wf(),
                sorted_strict(l@),
                forall|c: u64| l@.contains(c) <==> self.is_child_of(c, p),
                match best {
                    Some(b) => exists|k: int|
                        0 <= k < i && l@[k] == b && b > id && (forall|k2: int|
                            0 <= k2 < i && #[trigger] l@[k2] > id ==> l@[k2] >= b),
                    None => forall|k: int| 0 <= k < i ==> #[trigger] l@[k] <= id,
                },
            decreases n - i,
        {
            let c = l[i];
            if c > id && best.is_none() {
                best = Some(c);
            }
            i += 1;
        }
        proof {
            match best {
                Some(b) => {
                    let k = choose|k: int|
                        0 <= k < n && l@[k] == b && b > id && (forall|k2: int|
                            0 <= k2 < n && #[trigger] l@[k2] > id ==> l@[k2] >= b);
                    assert(l@.contains(b)) by {
                        assert(l@[k] == b);
                    }
                    assert forall|c: u64| self.is_child_of(c, p) && c > id implies c >= b by {
                        assert(l@.contains(c));
                        let k2 = choose|k2: int| 0 <= k2 < l@.len() && l@[k2] == c;
                        assert(l@[k2] > id);
                    }
                },
                None => {
                    assert forall|p2: u64, c: u64|
                        self.spec_msg_of(id).spec_parent() == Some(p2)
                            && #[trigger] self.is_child_of(c, p2) implies c <= id by {
                        assert(p2 == p);
                        assert(l@.contains(c));
                        let k = choose|k: int| 0 <= k < l@.len() && l@[k] == c;
                        assert(l@[k] <= id);
                    }
                },
            }
        }
        best
    }
}

/// Whether `x` belongs to the tree rooted at `t`: either it is `t` itself,
/// or its parent chain (given by `pm` over the ids in `ids`) leads to `t`.
pub open spec fn in_tree(ids: Set<u64>, pm: spec_fn(u64) -> Option<u64>, x: u64, t: u64) -> bool
    decreases x,
{
    if !ids.contains(x) {
        false
    } else if x == t {
        true
    } else {
        match pm(x) {
            None => false,
            Some(p) => p < x && in_tree(ids, pm, p, t),
        }
    }
}

/// The root that repeated parent traversal reaches from `x`: the walk stops
/// at a message without a parent, or whose parent the store does not hold.
pub open spec fn root_of(ids: Set<u64>, pm: spec_fn(u64) -> Option<u64>, x: u64) -> u64
    decreases x,
{
    if ids.contains(x) && (match pm(x) {
        Some(p) => p < x && ids.contains(p),
        None => false,
    }) {
        root_of(ids, pm, pm(x)->Some_0)
    } else {
        x
    }
}

/// Forest integrity: every stored message belongs to the tree rooted at the
/// top of its own ancestor chain, so the walk from any message terminates
/// in a root whose tree contains it. Membership in any tree implies being
/// stored, by definition of `in_tree`.
pub proof fn lemma_forest_integrity(ids: Set<u64>, pm: spec_fn(u64) -> Option<u64>, x: u64)
    requires
        ids.contains(x),
        forall|y: u64| ids.contains(y) && (#[trigger] pm(y)) is Some ==> pm(y)->Some_0 < y,
    ensures
        in_tree(ids, pm, x, root_of(ids, pm, x)),
    decreases x,
{
    match pm(x) {
        Some(p) => {
            if ids.contains(p) {
                assert(p < x);
                lemma_forest_integrity(ids, pm, p);
                assert(root_of(ids, pm, x) == root_of(ids, pm, p));
            }
        },
        None => {},
    }
}

/// The query surface of a message store: a forest of reply trees keyed by
/// message id, with a seen bit per message.
///
/// The store is modelled by the set of ids it holds, the message each id
/// maps to, and an invariant. Chronological order equals id order.
pub trait MsgStore<M: Msg>: Sized {
    /// The ids of all messages the store holds.
    spec fn ids(&self) -> Set<u64>;

    /// The message stored under `id`, meaningful when `ids()` contains `id`.
    spec fn msg_of(&self, id: u64) -> M;

    spec fn inv(&self) -> bool;

    /// Every stored message carries its own id, is well formed, and the
    /// store is finite.
    proof fn inv_facts(&self)
        requires
            self.inv(),
        ensures
            self.ids().finite(),
            forall|x: u64|
                self.ids().contains(x) ==> (#[trigger] self.msg_of(x)).spec_id() == x && msg_wf(
                    self.msg_of(x),
                ),
    ;

    fn msg(&self, id: u64) -> (r: Option<M>)
        requires
            self.inv(),
        ensures
            match r {
                Some(m) => self.ids().contains(id) && m == self.msg_of(id),
                None => !self.ids().contains(id),
            },
    ;

    /// The ids from the top of `id`'s ancestor chain down to `id` itself.
    fn path(&self, id: u64) -> (r: Option<Path>)
        requires
            self.inv(),
        ensures
            match r {
                Some(path) => {
                    &&& self.ids().contains(id)
                    &&& path.wf()
                    &&& path@.last() == id
                    &&& forall|k: int| 0 <= k < path@.len() ==> self.ids().contains(#[trigger] path@[k])
                    &&& forall|k: int|
                        0 <= k < path@.len() - 1 ==> self.msg_of(
                            #[trigger] path@[k + 1],
                        ).spec_parent() == Some(path@[k])
                    &&& match self.msg_of(path@.first()).spec_parent() {
                        None => true,
                        Some(p) => !self.ids().contains(p),
                    }
                },
                None => !self.ids().contains(id),
            },
    ;

    /// The materialized tree rooted at `tree_id`, holding exactly the stored
    /// messages whose ancestor chain leads to `tree_id`.
    fn tree(&self, tree_id: u64) -> (r: Tree<M>)
        requires
            self.inv(),
        ensures
            r.wf(),
            r.spec_root() == tree_id,
            forall|x: u64|
                r.contains(x) <==> in_tree(
                    self.ids(),
                    |y: u64| self.msg_of(y).spec_parent(),
                    x,
                    tree_id,
                ),
            forall|x: u64| r.contains(x) ==> r.spec_msg_of(x) == self.msg_of(x),
            // The same membership, stated without the parent map: the tree
            // holds stored messages only, it is closed downwards under the
            // stored parent relation, and it holds its root when stored.
            forall|x: u64| #[trigger] r.contains(x) ==> self.ids().contains(x),
            forall|x: u64, p: u64|
                #![trigger r.contains(p), self.msg_of(x)]
                r.contains(p) && self.ids().contains(x) && self.msg_of(x).spec_parent() == Some(p)
                    ==> r.contains(x),
            self.ids().contains(tree_id) ==> r.contains(tree_id),
    ;

    /// The smallest root id: a root is a stored message without a parent.
    fn first_tree_id(&self) -> (r: Option<u64>)
        requires
            self.inv(),
        ensures
            match r {
                Some(x) => self.ids().contains(x) && self.msg_of(x).spec_parent() is None && (
                forall|y: u64|
                    self.ids().contains(y) && (#[trigger] self.msg_of(y)).spec_parent() is None
                        ==> x <= y),
                None => forall|y: u64|
                    self.ids().contains(y) ==> (#[trigger] self.msg_of(y)).spec_parent() is Some,
            },
    ;

    /// The largest root id.
    fn last_tree_id(&self) -> (r: Option<u64>)
        requires
            self.inv(),
        ensures
            match r {
                Some(x) => self.ids().contains(x) && self.msg_of(x).spec_parent() is None && (
                forall|y: u64|
                    self.ids().contains(y) && (#[trigger] self.msg_of(y)).spec_parent() is None
                        ==> y <= x),
                None => forall|y: u64|
                    self.ids().contains(y) ==> (#[trigger] self.msg_of(y)).spec_parent() is Some,
            },
    ;

    /// The largest root id strictly below `tree_id`.
    fn prev_tree_id(&self, tree_id: u64) -> (r: Option<u64>)
        requires
            self.inv(),
        ensures
            match r {
                Some(x) => self.ids().contains(x) && self.msg_of(x).spec_parent() is None && x
                    < tree_id && (forall|y: u64|
                    self.ids().contains(y) && (#[trigger] self.msg_of(y)).spec_parent() is None
                        && y < tree_id ==> y <= x),
                None => forall|y: u64|
                    self.ids().contains(y) && (#[trigger] self.msg_of(y)).spec_parent() is None
                        ==> y >= tree_id,
            },
    ;

    /// The smallest root id strictly above `tree_id`.
    fn next_tree_id(&self, tree_id: u64) -> (r: Option<u64>)
        requires
            self.inv(),
        ensures
            match r {
                Some(x) => self.ids().contains(x) && self.msg_of(x).spec_parent() is None && x
                    > tree_id && (forall|y: u64|
                    self.ids().contains(y) && (#[trigger] self.msg_of(y)).spec_parent() is None
                        && y > tree_id ==> y >= x),
                None => forall|y: u64|
                    self.ids().contains(y) && (#[trigger] self.msg_of(y)).spec_parent() is None
                        ==> y <= tree_id,
            },
    ;

    /// The smallest stored id.
    fn oldest_msg_id(&self) -> (r: Option<u64>)
        requires
            self.inv(),
        ensures
            match r {
                Some(x) => self.ids().contains(x) && (forall|y: u64|
                    self.ids().contains(y) ==> x <= y),
                None => self.ids() =~= Set::<u64>::empty(),
            },
    ;

    /// The largest stored id.
    fn newest_msg_id(&self) -> (r: Option<u64>)
        requires
            self.inv(),
        ensures
            match r {
                Some(x) => self.ids().contains(x) && (forall|y: u64|
                    self.ids().contains(y) ==> y <= x),
                None => self.ids() =~= Set::<u64>::empty(),
            },
    ;

    /// The largest stored id strictly below `id`.
    fn older_msg_id(&self, id: u64) -> (r: Option<u64>)
        requires
            self.inv(),
        ensures
            match r {
                Some(x) => self.ids().contains(x) && x < id && (forall|y: u64|
                    self.ids().contains(y) && y < id ==> y <= x),
                None => forall|y: u64| self.ids().contains(y) ==> y >= id,
            },
    ;

    /// The smallest stored id strictly above `id`.
    fn newer_msg_id(&self, id: u64) -> (r: Option<u64>)
        requires
            self.inv(),
        ensures
            match r {
                Some(x) => self.ids().contains(x) && x > id && (forall|y: u64|
                    self.ids().contains(y) && y > id ==> y >= x),
                None => forall|y: u64| self.ids().contains(y) ==> y <= id,
            },
    ;

    /// The smallest stored id whose seen bit is off.
    fn oldest_unseen_msg_id(&self) -> (r: Option<u64>)
        requires
            self.inv(),
        ensures
            match r {
                Some(x) => self.ids().contains(x) && !self.msg_of(x).spec_seen() && (forall|y: u64|
                    self.ids().contains(y) && !(#[trigger] self.msg_of(y)).spec_seen() ==> x <= y),
                None => forall|y: u64|
                    self.ids().contains(y) ==> (#[trigger] self.msg_of(y)).spec_seen(),
            },
    ;

    /// The largest stored id whose seen bit is off.
    fn newest_unseen_msg_id(&self) -> (r: Option<u64>)
        requires
            self.inv(),
        ensures
            match r {
                Some(x) => self.ids().contains(x) && !self.msg_of(x).spec_seen() && (forall|y: u64|
                    self.ids().contains(y) && !(#[trigger] self.msg_of(y)).spec_seen() ==> y <= x),
                None => forall|y: u64|
                    self.ids().contains(y) ==> (#[trigger] self.msg_of(y)).spec_seen(),
            },
    ;

    /// The largest unseen stored id strictly below `id`.
    fn older_unseen_msg_id(&self, id: u64) -> (r: Option<u64>)
        requires
            self.inv(),
        ensures
            match r {
                Some(x) => self.ids().contains(x) && !self.msg_of(x).spec_seen() && x < id && (
                forall|y: u64|
                    self.ids().contains(y) && !(#[trigger] self.msg_of(y)).spec_seen() && y < id
                        ==> y <= x),
                None => forall|y: u64|
                    self.ids().contains(y) && !(#[trigger] self.msg_of(y)).spec_seen() ==> y >= id,
            },
    ;

    /// The smallest unseen stored id strictly above `id`.
    fn newer_unseen_msg_id(&self, id: u64) -> (r: Option<u64>)
        requires
            self.inv(),
        ensures
            match r {
                Some(x) => self.ids().contains(x) && !self.msg_of(x).spec_seen() && x > id && (
                forall|y: u64|
                    self.ids().contains(y) && !(#[trigger] self.msg_of(y)).spec_seen() && y > id
                        ==> y >= x),
                None => forall|y: u64|
                    self.ids().contains(y) && !(#[trigger] self.msg_of(y)).spec_seen() ==> y <= id,
            },
    ;

    /// How many stored messages are unseen.
    fn unseen_msgs_count(&self) -> (r: usize)
        requires
            self.inv(),
        ensures
            r == self.ids().filter(|x: u64| !self.msg_of(x).spec_seen()).len(),
    ;

    /// Sets the seen bit of one message; everything else is unchanged.
    fn set_seen(&mut self, id: u64, seen: bool)
        requires
            old(self).inv(),
        ensures
            final(self).inv(),
            final(self).ids() == old(self).ids(),
            forall|x: u64|
                old(self).ids().contains(x) && x != id ==> #[trigger] final(self).msg_of(x) == old(
                    self,
                ).msg_of(x),
            old(self).ids().contains(id) ==> final(self).msg_of(id) == old(self).msg_of(
                id,
            ).with_seen(seen),
    ;

    /// Sets the seen bit of every message with an id at or below `id`;
    /// everything else is unchanged.
    fn set_older_seen(&mut self, id: u64, seen: bool)
        requires
            old(self).inv(),
        ensures
            final(self).inv(),
            final(self).ids() == old(self).ids(),
            forall|x: u64|
                old(self).ids().contains(x) && x > id ==> #[trigger] final(self).msg_of(x) == old(
                    self,
                ).msg_of(x),
            forall|x: u64|
                old(self).ids().contains(x) && x <= id ==> #[trigger] final(self).msg_of(x) == old(
                    self,
                ).msg_of(x).with_seen(seen),
    ;
}

} // verus!
