//! The archive: forest queries, spans, and seen bits.

use cove::store::MsgStore;
use cove::vault::{Archive, ArchivedMsg, Span};

fn msg(id: u64, parent: Option<u64>) -> ArchivedMsg {
    ArchivedMsg {
        id,
        parent,
        time: id * 10,
        sender: String::from("someone"),
        content: format!("message {id}"),
        seen: false,
    }
}

/// The forest used throughout: ids 1..=5, parents 2->1, 3->1, 4->3,
/// 5 a root of its own.
fn forest() -> Archive {
    let mut a = Archive::new();
    a.add_msgs(
        vec![
            msg(1, None),
            msg(2, Some(1)),
            msg(3, Some(1)),
            msg(4, Some(3)),
            msg(5, None),
        ],
        Some(Span { lo: 1, hi: 5 }),
    );
    a
}

#[test]
fn chronological_traversal() {
    let a = forest();
    assert_eq!(a.oldest_msg_id(), Some(1));
    assert_eq!(a.newer_msg_id(1), Some(2));
    assert_eq!(a.newer_msg_id(2), Some(3));
    assert_eq!(a.newer_msg_id(3), Some(4));
    assert_eq!(a.newer_msg_id(4), Some(5));
    assert_eq!(a.newer_msg_id(5), None);
    assert_eq!(a.newest_msg_id(), Some(5));
    assert_eq!(a.older_msg_id(1), None);
    assert_eq!(a.older_msg_id(4), Some(3));
}

#[test]
fn tree_navigation() {
    let a = forest();
    assert_eq!(a.first_tree_id(), Some(1));
    assert_eq!(a.next_tree_id(1), Some(5));
    assert_eq!(a.prev_tree_id(5), Some(1));
    assert_eq!(a.last_tree_id(), Some(5));
    assert_eq!(a.next_tree_id(5), None);
}

#[test]
fn path_walks_to_root() {
    let a = forest();
    let p = a.path(4).expect("message 4 is stored");
    assert_eq!(p.len(), 3);
    assert_eq!(p.get(0), 1);
    assert_eq!(p.get(1), 3);
    assert_eq!(p.get(2), 4);
    assert_eq!(p.first(), 1);
    assert_eq!(p.last(), 4);
    assert!(a.path(99).is_none());
}

#[test]
fn tree_children_sorted() {
    let a = forest();
    let t = a.tree(1);
    assert_eq!(t.root(), 1);
    assert_eq!(t.len(), 4);
    let children = t.children(1).expect("node 1 has an entry").clone();
    assert_eq!(children, vec![2, 3]);
    let children3 = t.children(3).expect("node 3 has an entry").clone();
    assert_eq!(children3, vec![4]);
    assert!(t.msg(5).is_none());
    assert_eq!(t.subtree_size(1), 3);
    assert_eq!(t.subtree_size(3), 1);
    assert_eq!(t.parent(4), Some(3));
    assert_eq!(t.prev_sibling(3), Some(2));
    assert_eq!(t.next_sibling(2), Some(3));
    assert_eq!(t.next_sibling(3), None);
    let siblings = t.siblings(2).expect("node 2 has siblings").clone();
    assert_eq!(siblings, vec![2, 3]);
}

#[test]
fn unseen_count_and_set_older_seen() {
    let mut a = forest();
    assert_eq!(a.unseen_msgs_count(), 5);
    a.set_older_seen(3, true);
    assert_eq!(a.unseen_msgs_count(), 2);
    assert!(a.msg(2).expect("stored").seen);
    assert!(!a.msg(4).expect("stored").seen);
    // Idempotent: a second identical call changes nothing.
    a.set_older_seen(3, true);
    assert_eq!(a.unseen_msgs_count(), 2);
    assert_eq!(a.oldest_unseen_msg_id(), Some(4));
    assert_eq!(a.newest_unseen_msg_id(), Some(5));
    assert_eq!(a.newer_unseen_msg_id(4), Some(5));
    assert_eq!(a.older_unseen_msg_id(4), None);
}

#[test]
fn set_seen_single() {
    let mut a = forest();
    a.set_seen(2, true);
    assert!(a.msg(2).expect("stored").seen);
    assert!(!a.msg(1).expect("stored").seen);
    assert_eq!(a.unseen_msgs_count(), 4);
    a.set_seen(2, false);
    assert_eq!(a.unseen_msgs_count(), 5);
}

#[test]
fn add_msgs_replaces_and_keeps_seen() {
    let mut a = forest();
    a.set_seen(3, true);
    let mut m = msg(3, Some(1));
    m.content = String::from("edited");
    a.add_msgs(vec![m], None);
    let got = a.msg(3).expect("stored");
    assert_eq!(got.content, "edited");
    assert!(got.seen, "re-adding a message keeps its seen bit");
    assert_eq!(a.unseen_msgs_count(), 4);
}

#[test]
fn spans_merge_touching_and_overlapping() {
    let mut a = Archive::new();
    a.add_msgs(vec![], Some(Span { lo: 10, hi: 20 }));
    a.add_msgs(vec![], Some(Span { lo: 30, hi: 40 }));
    let spans = a.span_list();
    assert_eq!(spans.len(), 2);
    // Touching at the endpoint merges.
    a.add_msgs(vec![], Some(Span { lo: 21, hi: 29 }));
    let spans = a.span_list();
    assert_eq!(spans.len(), 1);
    assert_eq!(spans[0], Span { lo: 10, hi: 40 });
    assert!(a.is_covered(10) && a.is_covered(25) && a.is_covered(40));
    assert!(!a.is_covered(9) && !a.is_covered(41));
}

#[test]
fn spans_never_shrink() {
    let mut a = Archive::new();
    a.add_msgs(vec![], Some(Span { lo: 5, hi: 7 }));
    a.add_msgs(vec![], Some(Span { lo: 1, hi: 2 }));
    a.add_msgs(vec![], Some(Span { lo: 6, hi: 6 }));
    for x in [1, 2, 5, 6, 7] {
        assert!(a.is_covered(x));
    }
    for x in [0, 3, 4, 8] {
        assert!(!a.is_covered(x));
    }
}

#[test]
fn out_of_order_insertion_sorts() {
    let mut a = Archive::new();
    // Messages arrive newest first, as a backfill would deliver them.
    a.add_msgs(vec![msg(5, None), msg(3, Some(1))], None);
    a.add_msgs(vec![msg(1, None), msg(2, Some(1))], None);
    assert_eq!(a.oldest_msg_id(), Some(1));
    assert_eq!(a.newer_msg_id(1), Some(2));
    let t = a.tree(1);
    let children = t.children(1).expect("node 1 has an entry").clone();
    assert_eq!(children, vec![2, 3], "children are ascending whatever the insert order");
}

#[test]
fn spans_merge_overlapping() {
    let mut a = Archive::new();
    a.add_msgs(vec![], Some(Span { lo: 1, hi: 10 }));
    a.add_msgs(vec![], Some(Span { lo: 5, hi: 15 }));
    let spans = a.span_list();
    assert_eq!(spans, vec![Span { lo: 1, hi: 15 }]);
    // A span swallowing several stored ones merges them all.
    a.add_msgs(vec![], Some(Span { lo: 20, hi: 21 }));
    a.add_msgs(vec![], Some(Span { lo: 30, hi: 31 }));
    a.add_msgs(vec![], Some(Span { lo: 0, hi: 40 }));
    assert_eq!(a.span_list(), vec![Span { lo: 0, hi: 40 }]);
}

#[test]
fn delete_clears_everything() {
    let mut a = forest();
    a.delete();
    assert_eq!(a.oldest_msg_id(), None);
    assert_eq!(a.unseen_msgs_count(), 0);
    assert!(a.span_list().is_empty());
}

#[test]
fn store_trait_queries_agree() {
    let a = forest();
    assert_eq!(MsgStore::oldest_msg_id(&a), Some(1));
    assert_eq!(MsgStore::newer_msg_id(&a, 3), Some(4));
    assert_eq!(MsgStore::unseen_msgs_count(&a), 5);
    let m = MsgStore::msg(&a, 2).expect("stored");
    assert_eq!(m.parent, Some(1));
}
