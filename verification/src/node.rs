//! Graph nodes.
use crate::graph::NodeView;
use crate::handle::SeqKey;
use vstd::prelude::*;

verus! {

/// Where a node stands in its life cycle.
///
/// A node starts `Inactive`, becomes `Active` when it is drained from the
/// ready queue and `Completed` when it is reported finished.
#[derive(Clone, Copy, Debug, PartialEq, Eq, Structural)]
pub enum NodeStatus {
    Active,
    Inactive,
    Completed,
}

impl NodeStatus {
    /// The position of a status in the life cycle.
    pub open spec fn rank(self) -> int {
        match self {
            NodeStatus::Inactive => 0,
            NodeStatus::Active => 1,
            NodeStatus::Completed => 2,
        }
    }
}

/// One vertex of the graph: a payload with its edges and status.
#[derive(Debug, Clone)]
pub struct SeqNode<I> {
    /// The node's own handle.
    pub key: SeqKey,
    /// The nodes this node waits for.
    pub(crate) parents: Vec<SeqKey>,
    /// The nodes that wait for this node.
    pub(crate) children: Vec<SeqKey>,
    /// Where the node stands in its life cycle.
    pub(crate) status: NodeStatus,
    /// The payload.
    pub item: I,
}

impl<I> View for SeqNode<I> {
    type V = NodeView<I>;

    open(crate) spec fn view(&self) -> NodeView<I> {
        NodeView {
            parents: self.parents@,
            children: self.children@,
            status: self.status,
            item: self.item,
        }
    }
}

impl<I> SeqNode<I> {
    /// The handle that the node carries in its `key` field.
    pub open(crate) spec fn handle(&self) -> SeqKey {
        self.key
    }

    /// The node's current status.
    pub fn status(&self) -> (status: NodeStatus)
        ensures
            status == self@.status,
    {
        self.status
    }

    /// The handles of the nodes this node waits for.
    pub fn parents(&self) -> (parents: &Vec<SeqKey>)
        ensures
            parents@ == self@.parents,
    {
        &self.parents
    }

    /// The handles of the nodes that wait for this node.
    pub fn children(&self) -> (children: &Vec<SeqKey>)
        ensures
            children@ == self@.children,
    {
        &self.children
    }
}

} // verus!
