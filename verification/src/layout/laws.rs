//! What holds of every layout record that propagation writes.
use crate::layout::model::LayoutTree;
use crate::mapping_model::is_ancestor;
use vstd::prelude::*;

verus! {

impl LayoutTree {
    /// The order and the place of a node that the walk arrives at are
    /// written into its record as they are: neither is cut to fit.
    pub proof fn lemma_record_is_exact(self, n: u64)
        requires
            self.reached(n),
        ensures
            self.record(n).order == self.depth(n),
            self.record(n).location.x == self.absolute(n, true),
            self.record(n).location.y == self.absolute(n, false),
    {
        self.lemma_absolute_bounds(n, true);
        self.lemma_absolute_bounds(n, false);
    }

    /// A node that is not fixed stands at the place of its parent plus the
    /// offset that the solver gave it, at every depth.
    pub proof fn lemma_containment(self, n: u64)
        requires
            self.reached(n),
            n != self.root,
            !self.fixed(n),
        ensures
            self.reached(self.graph.parent[n]),
            self.record(n).location.x == self.record(self.graph.parent[n]).location.x
                + self.boxes[n].location.x,
            self.record(n).location.y == self.record(self.graph.parent[n]).location.y
                + self.boxes[n].location.y,
    {
        self.lemma_record_is_exact(n);
        self.lemma_record_is_exact(self.graph.parent[n]);
    }

    /// A fixed node stands where the solver put it, whatever the places of
    /// the nodes above it.
    pub proof fn lemma_fixed_passthrough(self, n: u64)
        requires
            self.reached(n),
            self.fixed(n),
        ensures
            self.record(n).location.x == self.boxes[n].location.x,
            self.record(n).location.y == self.boxes[n].location.y,
    {
        self.lemma_record_is_exact(n);
    }

    /// The root stands where the solver put it, with order 0.
    pub proof fn lemma_root_record(self)
        requires
            self.reached(self.root),
        ensures
            self.record(self.root).order == 0,
            self.record(self.root).location.x == self.boxes[self.root].location.x,
            self.record(self.root).location.y == self.boxes[self.root].location.y,
    {
        self.lemma_record_is_exact(self.root);
    }

    /// The order of a node is one more than that of its parent, so the
    /// children of one parent share their order.
    pub proof fn lemma_order_of_child(self, n: u64)
        requires
            self.reached(n),
            n != self.root,
        ensures
            self.reached(self.graph.parent[n]),
            self.record(n).order == self.record(self.graph.parent[n]).order + 1,
    {
        self.lemma_record_is_exact(n);
        self.lemma_record_is_exact(self.graph.parent[n]);
    }

    /// A node has a smaller order than every node below it.
    pub proof fn lemma_order_increases_downwards(self, a: u64, b: u64)
        requires
            self.reached(a),
            self.reached(b),
            is_ancestor(self.graph.parent, a, b),
        ensures
            self.record(a).order < self.record(b).order,
    {
        self.lemma_reached_under_root(a);
        self.lemma_reached_above(a, b);
        self.lemma_record_is_exact(a);
        self.lemma_record_is_exact(b);
    }

    /// What the walk arrives at, and the record of each node, depend on the
    /// parents of the graph, the root, the attached state and the boxes, and
    /// on nothing else.
    pub proof fn lemma_same_inputs_same_node(self, other: LayoutTree, n: u64)
        requires
            self.graph.parent == other.graph.parent,
            self.root == other.root,
            self.nodes == other.nodes,
            self.boxes == other.boxes,
        ensures
            self.reached(n) == other.reached(n),
            self.depth(n) == other.depth(n),
            self.absolute(n, true) == other.absolute(n, true),
            self.absolute(n, false) == other.absolute(n, false),
            self.record(n) == other.record(n),
        decreases n,
    {
        if self.has_parent(n) {
            self.lemma_same_inputs_same_node(other, self.graph.parent[n]);
        }
    }

    /// A tick with the same graph, attached state and boxes yields the same
    /// layout records, whatever else has changed in the reconciler: which
    /// nodes were confirmed makes no difference.
    pub proof fn lemma_same_inputs_same_layouts(self, other: LayoutTree)
        requires
            self.graph.parent == other.graph.parent,
            self.root == other.root,
            self.nodes == other.nodes,
            self.boxes == other.boxes,
        ensures
            self.layouts() == other.layouts(),
            forall|laid_out: Map<u64, crate::layout::system::WidgetLayout>|
                #[trigger] self.snapshots(laid_out) == other.snapshots(laid_out),
    {
        assert forall|n: u64|
            self.reached(n) == other.reached(n) && self.record(n) == other.record(n) by {
            self.lemma_same_inputs_same_node(other, n);
        }
        assert(self.layouts() =~= other.layouts());
        assert forall|laid_out: Map<u64, crate::layout::system::WidgetLayout>|
            #[trigger] self.snapshots(laid_out) == other.snapshots(laid_out) by {
            assert(self.snapshots(laid_out) =~= other.snapshots(laid_out));
        }
    }
}

} // verus!
