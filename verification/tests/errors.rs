use sequencer::{NodeStatus, SeqError, Sequencer, MAX_NODES};

#[test]
fn empty_sequence_is_invalid_input() {
    let mut sequencer: Sequencer<&'static str> = Sequencer::default();
    assert_eq!(Err(SeqError::InvalidInput), sequencer.new_seq(vec![]));
    assert_eq!(0, sequencer.len());
    assert!(sequencer.roots().is_empty());
    assert!(sequencer.queued_nodes().is_empty());

    let parent = sequencer.new_node("parent");
    assert_eq!(
        Err(SeqError::InvalidInput),
        sequencer.new_child_seq(vec![parent], vec![])
    );
    assert_eq!(
        Err(SeqError::InvalidInput),
        sequencer.inject_child_seq(parent, vec![])
    );
    assert_eq!(1, sequencer.len());
    assert!(sequencer.get(parent).unwrap().children().is_empty());
    assert_eq!(vec![parent], *sequencer.queued_nodes());
}

#[test]
fn empty_parent_set_is_invalid_input() {
    let mut sequencer: Sequencer<&'static str> = Sequencer::default();
    assert_eq!(
        Err(SeqError::InvalidInput),
        sequencer.new_child_seq(vec![], vec!["a"])
    );
    assert_eq!(
        Err(SeqError::InvalidInput),
        sequencer.new_child_seq(vec![], vec![])
    );
    assert_eq!(0, sequencer.len());
}

#[test]
fn empty_sequence_comes_before_unknown_parent() {
    let mut other: Sequencer<&'static str> = Sequencer::default();
    let stranger = other.new_node("stranger");
    let mut sequencer: Sequencer<&'static str> = Sequencer::default();
    assert_eq!(
        Err(SeqError::InvalidInput),
        sequencer.new_child_seq(vec![stranger], vec![])
    );
    assert_eq!(0, sequencer.len());
}

#[test]
fn unknown_parent_is_refused() {
    let mut other: Sequencer<&'static str> = Sequencer::default();
    other.new_node("one");
    let stranger = other.new_node("two");
    let mut sequencer: Sequencer<&'static str> = Sequencer::default();
    let known = sequencer.new_node("known");
    assert!(sequencer.get(stranger).is_none());
    assert_eq!(
        Err(SeqError::UnknownHandle),
        sequencer.new_child_seq(vec![known, stranger], vec!["a", "b"])
    );
    assert_eq!(
        Err(SeqError::InvalidInput),
        sequencer.inject_child_seq(stranger, vec!["a"])
    );
    assert_eq!(1, sequencer.len());
    assert!(sequencer.get(known).unwrap().children().is_empty());
    assert_eq!(vec![known], *sequencer.queued_nodes());
}

#[test]
fn finishing_an_unknown_handle_changes_nothing() {
    let mut other: Sequencer<&'static str> = Sequencer::default();
    other.new_node("one");
    let stranger = other.new_node("two");
    let mut sequencer: Sequencer<&'static str> = Sequencer::default();
    let known = sequencer.new_node("known");
    sequencer.drain_queue(|_, _| {});
    assert_eq!(Err(SeqError::UnknownHandle), sequencer.node_finished(stranger));
    assert_eq!(NodeStatus::Active, sequencer.get(known).unwrap().status());
    assert_eq!(1, sequencer.iter_active().len());
    assert!(sequencer.queued_nodes().is_empty());
    assert_eq!(1, sequencer.len());
}

#[test]
fn empty_sequencer_has_nothing() {
    let mut sequencer: Sequencer<u8> = Sequencer::default();
    assert_eq!(0, sequencer.len());
    assert!(sequencer.roots().is_empty());
    assert!(sequencer.queued_nodes().is_empty());
    assert!(sequencer.iter_active().is_empty());
    assert!(!sequencer.has_pending());
    sequencer.drain_queue(|_, _| unreachable!());
    assert!(sequencer.scan_active(|_, _| unreachable!()).is_empty());
}

#[test]
fn node_limit_is_below_the_handle_range() {
    assert_eq!(0xffff_fffe, MAX_NODES);
}

#[test]
fn single_item_sequence_is_a_root() {
    let mut sequencer = Sequencer::default();
    let only = sequencer.new_seq(vec!["only"]).unwrap();
    assert_eq!(vec![only], *sequencer.roots());
    assert_eq!(vec![only], *sequencer.queued_nodes());
    assert_eq!(1, sequencer.len());
}
