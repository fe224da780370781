use crate::graph::NodeIndex;
use vstd::prelude::*;

verus! {

/// The choices made in the traversal menu. A choice of zero means that no
/// node is selected; a choice of `k` above zero selects the node in
/// position `k - 1`.
pub struct TraversalMenu {
    pub start_node: usize,
    pub end_node: usize,
    pub debug_view: bool,
}

impl TraversalMenu {
    /// The node that a menu choice selects.
    pub open spec fn chosen(choice: usize) -> Option<NodeIndex> {
        if choice == 0 {
            None
        } else {
            Some(NodeIndex((choice - 1) as usize))
        }
    }

    pub fn selected(choice: usize) -> (node: Option<NodeIndex>)
        ensures
            node == Self::chosen(choice),
    {
        if choice == 0 {
            None
        } else {
            Some(NodeIndex(choice - 1))
        }
    }

    /// The start and the goal as chosen, to hand to the driver.
    pub fn endpoints(&self) -> (ends: (Option<NodeIndex>, Option<NodeIndex>))
        ensures
            ends == (Self::chosen(self.start_node), Self::chosen(self.end_node)),
    {
        (Self::selected(self.start_node), Self::selected(self.end_node))
    }

    /// Forgets the selection when another graph comes into view.
    pub fn graph_updated(&mut self)
        ensures
            final(self).start_node == 0,
            final(self).end_node == 0,
            final(self).debug_view == old(self).debug_view,
    {
        self.start_node = 0;
        self.end_node = 0;
    }
}

impl Default for TraversalMenu {
    fn default() -> (menu: Self)
        ensures
            menu.start_node == 0,
            menu.end_node == 0,
            !menu.debug_view,
    {
        TraversalMenu { start_node: 0, end_node: 0, debug_view: false }
    }
}

} // verus!
