use sequencer::{NodeStatus, SeqKey, Sequencer};

fn drained(sequencer: &mut Sequencer<&'static str>) -> Vec<&'static str> {
    let mut names = Vec::new();
    sequencer.drain_queue(|_, item| names.push(*item));
    names
}

fn drained_keys(sequencer: &mut Sequencer<&'static str>) -> Vec<SeqKey> {
    let mut keys = Vec::new();
    sequencer.drain_queue(|key, _| keys.push(key));
    keys
}

fn status(sequencer: &Sequencer<&'static str>, key: SeqKey) -> NodeStatus {
    sequencer.get(key).unwrap().status()
}

#[test]
fn root_is_queued_at_creation() {
    let mut sequencer = Sequencer::default();
    let a = sequencer.new_node("a");
    assert_eq!(vec![a], *sequencer.queued_nodes());
    let b = sequencer.new_node("b");
    assert_eq!(vec![a, b], *sequencer.queued_nodes());
    assert_eq!(vec![a, b], *sequencer.roots());
    assert_eq!(NodeStatus::Inactive, status(&sequencer, a));
    assert!(sequencer.get(a).unwrap().parents().is_empty());
}

#[test]
fn chain_links_each_node_to_the_next() {
    let mut sequencer = Sequencer::default();
    let c = sequencer.new_seq(vec!["a", "b", "c"]).unwrap();
    let a = sequencer.roots()[0];
    assert_eq!(1, sequencer.roots().len());
    assert_eq!(vec![a], *sequencer.queued_nodes());
    let b = sequencer.get(a).unwrap().children()[0];
    assert_eq!("a", sequencer.get(a).unwrap().item);
    assert_eq!("b", sequencer.get(b).unwrap().item);
    assert_eq!("c", sequencer.get(c).unwrap().item);
    assert_eq!(vec![a], *sequencer.get(b).unwrap().parents());
    assert_eq!(vec![c], *sequencer.get(b).unwrap().children());
    assert_eq!(vec![b], *sequencer.get(c).unwrap().parents());
    assert!(sequencer.get(c).unwrap().children().is_empty());
    assert_eq!(a, sequencer.get(a).unwrap().key);
    assert_eq!(b, sequencer.get(b).unwrap().key);
    assert_eq!(c, sequencer.get(c).unwrap().key);
}

#[test]
fn handles_are_distinct_and_find_their_nodes() {
    let mut sequencer = Sequencer::default();
    let mut keys = Vec::new();
    for i in 0..50usize {
        keys.push(sequencer.new_node(i));
    }
    for i in 0..50usize {
        for j in 0..i {
            assert_ne!(keys[i], keys[j]);
        }
        assert_eq!(i, sequencer.get(keys[i]).unwrap().item);
        assert_eq!(keys[i], sequencer.get(keys[i]).unwrap().key);
    }
    assert_eq!(50, sequencer.len());
}

#[test]
fn chain_runs_in_order() {
    let mut sequencer = Sequencer::default();
    sequencer.new_seq(vec!["A", "B", "C"]).unwrap();
    let mut seen = Vec::new();
    let mut rounds = 0;
    while sequencer.has_pending() {
        sequencer.drain_queue(|_, item| seen.push(*item));
        assert!(sequencer.has_pending());
        let done = sequencer.scan_active(|_, _| true);
        assert_eq!(1, done.len());
        rounds += 1;
        assert_eq!(rounds < 3, sequencer.has_pending());
    }
    assert_eq!(vec!["A", "B", "C"], seen);
    assert_eq!(3, rounds);
    assert!(!sequencer.has_pending());
    assert!(drained(&mut sequencer).is_empty());
}

#[test]
fn join_waits_for_both_parents_x_first() {
    let mut sequencer = Sequencer::default();
    let x = sequencer.new_node("X");
    let y = sequencer.new_node("Y");
    let z = sequencer.new_child_seq(vec![x, y], vec!["Z"]).unwrap();
    assert!(!sequencer.queued_nodes().contains(&z));
    assert_eq!(vec![x, y], drained_keys(&mut sequencer));
    assert!(!sequencer.queued_nodes().contains(&z));
    sequencer.node_finished(x).unwrap();
    assert!(!sequencer.queued_nodes().contains(&z));
    assert!(drained_keys(&mut sequencer).is_empty());
    sequencer.node_finished(y).unwrap();
    assert_eq!(vec![z], *sequencer.queued_nodes());
    assert_eq!(vec![z], drained_keys(&mut sequencer));
    assert_eq!(NodeStatus::Completed, status(&sequencer, x));
    assert_eq!(NodeStatus::Completed, status(&sequencer, y));
    assert_eq!(NodeStatus::Active, status(&sequencer, z));
}

#[test]
fn join_waits_for_both_parents_y_first() {
    let mut sequencer = Sequencer::default();
    let x = sequencer.new_node("X");
    let y = sequencer.new_node("Y");
    let z = sequencer.new_child_seq(vec![x, y], vec!["Z"]).unwrap();
    assert_eq!(vec![x, y], drained_keys(&mut sequencer));
    sequencer.node_finished(y).unwrap();
    assert!(sequencer.queued_nodes().is_empty());
    sequencer.node_finished(x).unwrap();
    assert_eq!(vec![z], *sequencer.queued_nodes());
    assert_eq!(vec![z], drained_keys(&mut sequencer));
    assert_eq!(NodeStatus::Completed, status(&sequencer, x));
    assert_eq!(NodeStatus::Completed, status(&sequencer, y));
    assert_eq!(NodeStatus::Active, status(&sequencer, z));
}

#[test]
fn join_records_both_edges() {
    let mut sequencer = Sequencer::default();
    let x = sequencer.new_node("X");
    let y = sequencer.new_node("Y");
    let z = sequencer.new_child_seq(vec![x, y], vec!["Z"]).unwrap();
    assert_eq!(vec![x, y], *sequencer.get(z).unwrap().parents());
    assert_eq!(vec![z], *sequencer.get(x).unwrap().children());
    assert_eq!(vec![z], *sequencer.get(y).unwrap().children());
    assert_eq!(vec![x, y], *sequencer.roots());
}

#[test]
fn parent_named_twice_counts_once() {
    let mut sequencer = Sequencer::default();
    let x = sequencer.new_node("X");
    let y = sequencer.new_node("Y");
    let z = sequencer.new_child_seq(vec![x, y, x, x, y], vec!["Z"]).unwrap();
    assert_eq!(vec![x, y], *sequencer.get(z).unwrap().parents());
    assert_eq!(vec![z], *sequencer.get(x).unwrap().children());
    drained_keys(&mut sequencer);
    sequencer.node_finished(x).unwrap();
    sequencer.node_finished(y).unwrap();
    assert_eq!(vec![z], *sequencer.queued_nodes());
}

#[test]
fn child_of_completed_parents_is_queued_at_once() {
    let mut sequencer = Sequencer::default();
    let x = sequencer.new_node("X");
    let y = sequencer.new_node("Y");
    drained_keys(&mut sequencer);
    sequencer.node_finished(x).unwrap();
    sequencer.node_finished(y).unwrap();
    let last = sequencer.new_child_seq(vec![x, y], vec!["Z", "W"]).unwrap();
    let z = sequencer.get(last).unwrap().parents()[0];
    assert_eq!(vec![z], *sequencer.queued_nodes());
    assert_eq!(vec!["Z"], drained(&mut sequencer));
}

#[test]
fn child_of_unfinished_parent_is_not_queued() {
    let mut sequencer = Sequencer::default();
    let x = sequencer.new_node("X");
    let y = sequencer.new_node("Y");
    drained_keys(&mut sequencer);
    sequencer.node_finished(x).unwrap();
    sequencer.new_child_seq(vec![x, y], vec!["Z"]).unwrap();
    assert!(sequencer.queued_nodes().is_empty());
}

#[test]
fn inject_puts_the_chain_between_parent_and_children() {
    let mut sequencer = Sequencer::default();
    let parent = sequencer.new_node("parent");
    let c1 = sequencer.new_child_seq(vec![parent], vec!["C1"]).unwrap();
    let c2 = sequencer.new_child_seq(vec![parent], vec!["C2"]).unwrap();
    let q = sequencer.inject_child_seq(parent, vec!["P", "Q"]).unwrap();
    let p = sequencer.get(q).unwrap().parents()[0];
    assert_eq!("P", sequencer.get(p).unwrap().item);
    assert_eq!("Q", sequencer.get(q).unwrap().item);
    assert_eq!(vec![p], *sequencer.get(parent).unwrap().children());
    assert_eq!(vec![parent], *sequencer.get(p).unwrap().parents());
    assert_eq!(vec![q], *sequencer.get(p).unwrap().children());
    assert_eq!(vec![c1, c2], *sequencer.get(q).unwrap().children());
    assert_eq!(vec![q], *sequencer.get(c1).unwrap().parents());
    assert_eq!(vec![q], *sequencer.get(c2).unwrap().parents());

    assert_eq!(vec![parent], drained_keys(&mut sequencer));
    sequencer.node_finished(parent).unwrap();
    assert_eq!(vec![p], *sequencer.queued_nodes());
    assert_eq!(vec![p], drained_keys(&mut sequencer));
    sequencer.node_finished(p).unwrap();
    assert_eq!(vec![q], *sequencer.queued_nodes());
    assert_eq!(vec![q], drained_keys(&mut sequencer));
    assert_eq!(NodeStatus::Inactive, status(&sequencer, c1));
    assert_eq!(NodeStatus::Inactive, status(&sequencer, c2));
    sequencer.node_finished(q).unwrap();
    assert_eq!(vec![c1, c2], *sequencer.queued_nodes());
    assert_eq!(vec!["C1", "C2"], drained(&mut sequencer));
}

#[test]
fn inject_keeps_the_other_parents_of_a_child() {
    let mut sequencer = Sequencer::default();
    let a = sequencer.new_node("a");
    let r = sequencer.new_node("r");
    let c = sequencer.new_child_seq(vec![a, r], vec!["c"]).unwrap();
    let q = sequencer.inject_child_seq(a, vec!["q"]).unwrap();
    assert_eq!(vec![q, r], *sequencer.get(c).unwrap().parents());
    assert_eq!(vec![c], *sequencer.get(r).unwrap().children());
    drained_keys(&mut sequencer);
    sequencer.node_finished(a).unwrap();
    sequencer.node_finished(r).unwrap();
    // `c` still waits for `q`, though both nodes it was created under are done.
    assert_eq!(vec![q], *sequencer.queued_nodes());
    drained_keys(&mut sequencer);
    sequencer.node_finished(q).unwrap();
    assert_eq!(vec![c], *sequencer.queued_nodes());
}

#[test]
fn inject_below_completed_parent_takes_children_off_the_queue() {
    let mut sequencer = Sequencer::default();
    let parent = sequencer.new_node("parent");
    let c = sequencer.new_child_seq(vec![parent], vec!["c"]).unwrap();
    drained_keys(&mut sequencer);
    sequencer.node_finished(parent).unwrap();
    assert_eq!(vec![c], *sequencer.queued_nodes());
    let q = sequencer.inject_child_seq(parent, vec!["q"]).unwrap();
    assert_eq!(vec![q], *sequencer.queued_nodes());
    assert_eq!(vec![q], drained_keys(&mut sequencer));
    sequencer.node_finished(q).unwrap();
    assert_eq!(vec![c], *sequencer.queued_nodes());
}

#[test]
fn inject_below_a_leaf_appends() {
    let mut sequencer = Sequencer::default();
    let a = sequencer.new_node("a");
    let q = sequencer.inject_child_seq(a, vec!["p", "q"]).unwrap();
    assert!(sequencer.get(q).unwrap().children().is_empty());
    assert_eq!(3, sequencer.len());
    assert_eq!(vec![a], *sequencer.queued_nodes());
}

#[test]
fn finishing_twice_queues_children_once() {
    let mut sequencer = Sequencer::default();
    let b = sequencer.new_seq(vec!["a", "b"]).unwrap();
    let a = sequencer.roots()[0];
    drained_keys(&mut sequencer);
    assert_eq!(Ok(()), sequencer.node_finished(a));
    assert_eq!(vec![b], *sequencer.queued_nodes());
    assert_eq!(Ok(()), sequencer.node_finished(a));
    assert_eq!(vec![b], *sequencer.queued_nodes());
    assert_eq!(vec![b], drained_keys(&mut sequencer));
    assert_eq!(Ok(()), sequencer.node_finished(a));
    assert!(sequencer.queued_nodes().is_empty());
    assert_eq!(NodeStatus::Active, status(&sequencer, b));
    assert_eq!(NodeStatus::Completed, status(&sequencer, a));
}

#[test]
fn finishing_a_node_that_has_not_started_changes_nothing() {
    let mut sequencer = Sequencer::default();
    let b = sequencer.new_seq(vec!["a", "b"]).unwrap();
    let a = sequencer.roots()[0];
    assert_eq!(Ok(()), sequencer.node_finished(a));
    assert_eq!(Ok(()), sequencer.node_finished(b));
    assert_eq!(NodeStatus::Inactive, status(&sequencer, a));
    assert_eq!(NodeStatus::Inactive, status(&sequencer, b));
    assert_eq!(vec![a], *sequencer.queued_nodes());
    assert!(sequencer.iter_active().is_empty());
}

#[test]
fn drain_yields_each_handle_once() {
    let mut sequencer = Sequencer::default();
    let x = sequencer.new_node("X");
    let y = sequencer.new_node("Y");
    let z = sequencer.new_child_seq(vec![x, y], vec!["Z"]).unwrap();
    let mut seen = Vec::new();
    seen.extend(drained_keys(&mut sequencer));
    seen.extend(drained_keys(&mut sequencer));
    sequencer.node_finished(x).unwrap();
    seen.extend(drained_keys(&mut sequencer));
    sequencer.node_finished(y).unwrap();
    sequencer.node_finished(x).unwrap();
    seen.extend(drained_keys(&mut sequencer));
    seen.extend(drained_keys(&mut sequencer));
    sequencer.node_finished(z).unwrap();
    seen.extend(drained_keys(&mut sequencer));
    assert_eq!(vec![x, y, z], seen);
}

#[test]
fn status_only_advances() {
    fn rank(status: NodeStatus) -> u8 {
        match status {
            NodeStatus::Inactive => 0,
            NodeStatus::Active => 1,
            NodeStatus::Completed => 2,
        }
    }
    let mut sequencer = Sequencer::default();
    let x = sequencer.new_node("X");
    let y = sequencer.new_node("Y");
    let z = sequencer.new_child_seq(vec![x, y], vec!["Z"]).unwrap();
    let keys = vec![x, y, z];
    let mut last: Vec<u8> = keys.iter().map(|k| rank(status(&sequencer, *k))).collect();
    assert_eq!(vec![0, 0, 0], last);
    for step in 0..8 {
        match step {
            0 => sequencer.drain_queue(|_, _| {}),
            1 => sequencer.node_finished(z).unwrap(),
            2 => sequencer.node_finished(x).unwrap(),
            3 => sequencer.drain_queue(|_, _| {}),
            4 => sequencer.node_finished(y).unwrap(),
            5 => sequencer.node_finished(x).unwrap(),
            6 => sequencer.drain_queue(|_, _| {}),
            _ => sequencer.node_finished(z).unwrap(),
        }
        let now: Vec<u8> = keys.iter().map(|k| rank(status(&sequencer, *k))).collect();
        for i in 0..3 {
            assert!(last[i] <= now[i]);
        }
        last = now;
    }
    assert_eq!(vec![2, 2, 2], last);
}

#[test]
fn scan_finishes_what_the_visitor_reports() {
    let mut sequencer = Sequencer::default();
    let a2 = sequencer.new_seq(vec!["a1", "a2"]).unwrap();
    let b2 = sequencer.new_seq(vec!["b1", "b2"]).unwrap();
    let a1 = sequencer.roots()[0];
    let b1 = sequencer.roots()[1];
    drained_keys(&mut sequencer);
    let mut visited = Vec::new();
    let done = sequencer.scan_active(|key, item| {
        visited.push(key);
        *item == "b1"
    });
    visited.sort_by_key(|key| if *key == a1 { 0 } else { 1 });
    assert_eq!(vec![a1, b1], visited);
    assert_eq!(vec![b1], done);
    assert_eq!(NodeStatus::Active, status(&sequencer, a1));
    assert_eq!(NodeStatus::Completed, status(&sequencer, b1));
    assert_eq!(vec![b2], *sequencer.queued_nodes());
    let active: Vec<SeqKey> = sequencer.iter_active().into_iter().map(|node| node.key).collect();
    assert_eq!(vec![a1], active);
    // A node that becomes ready during a scan is not visited by it.
    let done = sequencer.scan_active(|_, _| true);
    assert_eq!(vec![a1], done);
    assert_eq!(vec![b2, a2], *sequencer.queued_nodes());
    assert!(sequencer.iter_active().is_empty());
    assert!(sequencer.has_pending());
}

#[test]
fn has_pending_follows_queue_and_active_set() {
    let mut sequencer = Sequencer::default();
    assert!(!sequencer.has_pending());
    let a = sequencer.new_node("a");
    assert!(sequencer.has_pending());
    drained_keys(&mut sequencer);
    assert!(sequencer.queued_nodes().is_empty());
    assert!(sequencer.has_pending());
    sequencer.node_finished(a).unwrap();
    assert!(!sequencer.has_pending());
}
