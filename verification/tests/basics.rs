use std::collections::HashSet;

use sequencer::{NodeStatus, SeqKey, Sequencer};

#[derive(PartialEq, Debug)]
enum SeqItem {
    Walk,
    Wait,
    Say,
}

#[test]
fn test_new_node() {
    let mut sequencer = Sequencer::default();
    let key = sequencer.new_node(SeqItem::Walk);
    assert_eq!(1, sequencer.len());
    assert_eq!(1, sequencer.roots().len());
    assert_eq!(key, sequencer.roots()[0]);
    assert_eq!(1, sequencer.queued_nodes().len());

    let node = sequencer.get(key).unwrap();
    assert_eq!(SeqItem::Walk, node.item);
}

#[test]
fn test_new_seq() {
    let mut sequencer = Sequencer::default();
    sequencer
        .new_seq(vec![SeqItem::Walk, SeqItem::Wait, SeqItem::Say])
        .unwrap();
    assert_eq!(3, sequencer.len());
    assert_eq!(1, sequencer.queued_nodes().len());
    let queued_node = sequencer.get(sequencer.queued_nodes()[0]).unwrap();
    assert_eq!(SeqItem::Walk, queued_node.item);
}

#[test]
fn test_new_child_seq() {
    let mut sequencer = Sequencer::default();
    let parent = sequencer.new_node(SeqItem::Walk);
    sequencer
        .new_child_seq(vec![parent], vec![SeqItem::Say, SeqItem::Say])
        .unwrap();
    assert_eq!(3, sequencer.len());
    assert_eq!(1, sequencer.queued_nodes().len());
    let queued_node = sequencer.get(sequencer.queued_nodes()[0]).unwrap();
    assert_eq!(SeqItem::Walk, queued_node.item);
}

#[test]
fn test_inject_seq() {
    let mut sequencer = Sequencer::default();
    let s1 = sequencer
        .new_seq(vec![SeqItem::Walk, SeqItem::Walk])
        .unwrap();
    sequencer
        .new_child_seq(vec![s1], vec![SeqItem::Say, SeqItem::Say])
        .unwrap();
    sequencer
        .inject_child_seq(s1, vec![SeqItem::Wait, SeqItem::Wait])
        .unwrap();
    assert_eq!(6, sequencer.len());
    assert_eq!(1, sequencer.queued_nodes().len());
    let queued_node = sequencer.get(sequencer.queued_nodes()[0]).unwrap();
    assert_eq!(SeqItem::Walk, queued_node.item);
    let mut key = s1;
    sequencer.drain_queue(|drain_key, _| key = drain_key);
    sequencer.node_finished(key).unwrap();
    sequencer.drain_queue(|drain_key, _| key = drain_key);
    sequencer.node_finished(key).unwrap();
    let queued_node = sequencer.get(sequencer.queued_nodes()[0]).unwrap();
    assert_eq!(SeqItem::Wait, queued_node.item);
    sequencer.drain_queue(|drain_key, _| key = drain_key);
    sequencer.node_finished(key).unwrap();
    sequencer.drain_queue(|drain_key, _| key = drain_key);
    sequencer.node_finished(key).unwrap();
    let queued_node = sequencer.get(sequencer.queued_nodes()[0]).unwrap();
    assert_eq!(SeqItem::Say, queued_node.item);
}

#[test]
fn test_drain_queue() {
    let mut sequencer = Sequencer::default();
    let key1 = sequencer.new_node(SeqItem::Walk);
    let key2 = sequencer.new_node(SeqItem::Wait);
    assert_eq!(2, sequencer.queued_nodes().len());
    let keys = vec![key1, key2];
    let mut i = 0;
    sequencer.drain_queue(|key, _item| {
        assert!(keys[i] == key);
        i += 1;
    });
    assert_eq!(0, sequencer.queued_nodes().len());
    assert_eq!(2, i);
    // Check the nodes are set to Status: Running
    assert_eq!(NodeStatus::Active, sequencer.get(key1).unwrap().status());
    assert_eq!(NodeStatus::Active, sequencer.get(key2).unwrap().status());
}

#[test]
fn test_node_finished_singular() {
    // Test case: One node exists, it's marked as finished, nothing new is queued
    let mut sequencer = Sequencer::default();
    let key = sequencer.new_node(SeqItem::Walk);
    sequencer.drain_queue(|_key, _item| {});
    sequencer.node_finished(key).unwrap();
    assert_eq!(0, sequencer.queued_nodes().len());
    assert_eq!(NodeStatus::Completed, sequencer.get(key).unwrap().status());
}

#[test]
fn test_node_finished_seq() {
    // Test case: A seq of nodes exists. Finishing a node queues up the next.
    let mut sequencer = Sequencer::default();
    let mut key = sequencer
        .new_seq(vec![SeqItem::Walk, SeqItem::Wait, SeqItem::Say])
        .unwrap();

    sequencer.drain_queue(|drain_key, item| {
        key = drain_key;
        assert_eq!(SeqItem::Walk, *item);
    });
    sequencer.node_finished(key).unwrap();
    sequencer.drain_queue(|drain_key, item| {
        key = drain_key;
        assert_eq!(SeqItem::Wait, *item);
    });
    sequencer.node_finished(key).unwrap();
    sequencer.drain_queue(|drain_key, item| {
        key = drain_key;
        assert_eq!(SeqItem::Say, *item);
    });
    sequencer.node_finished(key).unwrap();
    sequencer.drain_queue(|_, _| unreachable!());
}

#[test]
fn test_iter_active() {
    let mut sequencer = Sequencer::default();
    let key = sequencer.new_node(SeqItem::Walk);
    let key2 = sequencer.new_node(SeqItem::Wait);
    sequencer.drain_queue(|_key, _item| {});
    let expected_active: HashSet<SeqKey> = vec![key, key2].into_iter().collect();
    let actual_active: HashSet<SeqKey> = sequencer
        .iter_active()
        .into_iter()
        .map(|node| node.key)
        .collect();
    assert_eq!(expected_active, actual_active);
    sequencer.node_finished(key).unwrap();
    sequencer.node_finished(key2).unwrap();
    assert_eq!(0, sequencer.iter_active().into_iter().count())
}
