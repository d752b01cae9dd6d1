//! The mathematical model of propagation: which nodes get a layout record,
//! and what it holds.
use crate::layout::measure::render_size;
use crate::layout::measure::LayoutMeasure;
use crate::layout::style::Vec2;
use crate::layout::style::WidgetNode;
use crate::layout::style::WidgetPosition;
use crate::layout::system::reflect;
use crate::layout::system::ReflectedLayout;
use crate::layout::system::WidgetLayout;
use crate::layout::system::WidgetPreviousLayout;
use crate::layout::ui_layout::Command;
use crate::layout::ui_layout::SolverLayout;
use crate::mapping_model::entities_of;
use crate::mapping_model::in_subtree;
use crate::mapping_model::is_ancestor;
use crate::mapping_model::lemma_ancestor_is_smaller;
use crate::mapping_model::MapperState;
use vstd::prelude::*;

verus! {

/// Everything that propagation reads.
pub ghost struct LayoutTree {
    /// The persistent graph.
    pub graph: MapperState,
    /// The node at which the walk starts.
    pub root: u64,
    /// The attached state of the nodes that have any.
    pub nodes: Map<u64, WidgetNode>,
    /// The boxes that the solver computed.
    pub boxes: Map<u64, SolverLayout>,
}

impl LayoutTree {
    /// `n` has attached state and is not passed over.
    pub open spec fn shown(self, n: u64) -> bool {
        self.nodes.contains_key(n) && !self.nodes[n].hidden
    }

    /// `n` is shown and the solver has a box for it.
    pub open spec fn live(self, n: u64) -> bool {
        self.shown(n) && self.boxes.contains_key(n)
    }

    /// `n` is not the root and stands under a recorded parent.
    pub open spec fn has_parent(self, n: u64) -> bool {
        n != self.root && self.graph.parent.contains_key(n) && self.graph.parent[n] < n
    }

    /// The number of steps from `n` up to the root.
    pub open spec fn depth(self, n: u64) -> nat
        decreases n,
    {
        if self.has_parent(n) {
            self.depth(self.graph.parent[n]) + 1
        } else {
            0
        }
    }

    /// The walk from the root arrives at `n`: `n` and every node between it
    /// and the root are live, and its depth can be written as an order.
    pub open spec fn reached(self, n: u64) -> bool
        decreases n,
    {
        self.live(n) && (n == self.root || (self.has_parent(n) && self.reached(
            self.graph.parent[n],
        ) && self.depth(n) <= u32::MAX))
    }

    /// `n` is placed relative to the root, whatever stands above it.
    pub open spec fn fixed(self, n: u64) -> bool {
        self.nodes[n].styles.position == WidgetPosition::Fixed
    }

    /// One coordinate of the place that the solver gave `n`.
    pub open spec fn offset(self, n: u64, horizontal: bool) -> int {
        if horizontal {
            self.boxes[n].location.x as int
        } else {
            self.boxes[n].location.y as int
        }
    }

    /// One coordinate of the place of `n` on the screen: its offset, added to
    /// the place of its parent unless `n` is fixed or the root.
    pub open spec fn absolute(self, n: u64, horizontal: bool) -> int
        decreases n,
    {
        if self.has_parent(n) && !self.fixed(n) {
            self.absolute(self.graph.parent[n], horizontal) + self.offset(n, horizontal)
        } else {
            self.offset(n, horizontal)
        }
    }

    /// The layout record of `n`: the box of the solver, at its place on the
    /// screen, with the depth of `n` as its order.
    pub open spec fn record(self, n: u64) -> ReflectedLayout {
        ReflectedLayout {
            order: self.depth(n) as u32,
            location: Vec2 { x: self.absolute(n, true) as i64, y: self.absolute(n, false) as i64 },
            ..reflect(self.boxes[n])
        }
    }

    /// The layout record of every node that the walk arrives at.
    pub open spec fn layouts(self) -> Map<u64, WidgetLayout> {
        Map::new(|n: u64| self.reached(n), |n: u64| WidgetLayout(self.record(n)))
    }

    /// The snapshot of the record that each such node had before.
    pub open spec fn snapshots(self, laid_out: Map<u64, WidgetLayout>) -> Map<
        u64,
        WidgetPreviousLayout,
    > {
        Map::new(
            |n: u64| self.reached(n) && laid_out.contains_key(n),
            |n: u64| WidgetPreviousLayout(laid_out[n].0),
        )
    }

    /// The nodes in the subtree of `entity` that the walk arrives at.
    pub open spec fn painted(self, entity: u64) -> Set<u64> {
        Set::new(|n: u64| in_subtree(self.graph.parent, entity, n) && self.reached(n))
    }

    /// `before`, with the layout record of every node of `done` written
    /// over it.
    pub open spec fn written(self, before: Map<u64, WidgetLayout>, done: Set<u64>) -> Map<
        u64,
        WidgetLayout,
    > {
        Map::new(
            |n: u64| before.contains_key(n) || done.contains(n),
            |n: u64|
                if done.contains(n) {
                    WidgetLayout(self.record(n))
                } else {
                    before[n]
                },
        )
    }

    /// `before`, with the record that each node of `done` had in `laid_out`
    /// written over it.
    pub open spec fn snapshot_written(
        self,
        before: Map<u64, WidgetPreviousLayout>,
        laid_out: Map<u64, WidgetLayout>,
        done: Set<u64>,
    ) -> Map<u64, WidgetPreviousLayout> {
        Map::new(
            |n: u64| before.contains_key(n) || (done.contains(n) && laid_out.contains_key(n)),
            |n: u64|
                if done.contains(n) && laid_out.contains_key(n) {
                    WidgetPreviousLayout(laid_out[n].0)
                } else {
                    before[n]
                },
        )
    }

    /// The walk arrives only at nodes in the subtree of the root.
    pub proof fn lemma_reached_under_root(self, n: u64)
        requires
            self.reached(n),
        ensures
            in_subtree(self.graph.parent, self.root, n),
            self.reached(self.root),
        decreases n,
    {
        if n != self.root {
            self.lemma_reached_under_root(self.graph.parent[n]);
        }
    }

    /// Where the walk arrives at a node, it has arrived at everything
    /// between that node and the root.
    pub proof fn lemma_reached_above(self, e: u64, n: u64)
        requires
            self.reached(n),
            is_ancestor(self.graph.parent, e, n),
            in_subtree(self.graph.parent, self.root, e),
        ensures
            self.reached(e),
            self.depth(e) < self.depth(n),
        decreases n,
    {
        if n == self.root {
            lemma_ancestor_is_smaller(self.graph.parent, e, n);
            if e != self.root {
                lemma_ancestor_is_smaller(self.graph.parent, self.root, e);
            }
        } else if self.graph.parent[n] != e {
            self.lemma_reached_above(e, self.graph.parent[n]);
        }
    }

    /// A place on the screen is the sum of at most `depth + 1` offsets.
    pub proof fn lemma_absolute_bounds(self, n: u64, horizontal: bool)
        ensures
            (self.depth(n) + 1) * (-0x8000_0000) <= self.absolute(n, horizontal) <= (self.depth(n)
                + 1) * 0x7fff_ffff,
        decreases n,
    {
        if self.has_parent(n) && !self.fixed(n) {
            self.lemma_absolute_bounds(self.graph.parent[n], horizontal);
        }
    }
}

/// What the first walk of a tick hands to the solver.
impl LayoutTree {
    /// The first walk arrives at `n`: `n` and every node between it and the
    /// root are shown.
    pub open spec fn walked(self, n: u64) -> bool
        decreases n,
    {
        self.shown(n) && (n == self.root || (self.has_parent(n) && self.walked(
            self.graph.parent[n],
        )))
    }

    /// The nodes in the subtree of `entity` that the first walk arrives at.
    pub open spec fn entered(self, entity: u64) -> Set<u64> {
        Set::new(|n: u64| in_subtree(self.graph.parent, entity, n) && self.walked(n))
    }

    /// The box against which the content of `n` is measured: that of its
    /// parent, which is the zero box while the solver has none for it. The
    /// root is measured against its own box, if it has one.
    pub open spec fn measure_base(self, n: u64) -> Option<SolverLayout> {
        if n == self.root {
            self.boxes.get(n)
        } else if self.boxes.contains_key(self.graph.parent[n]) {
            Some(self.boxes[self.graph.parent[n]])
        } else {
            Some(SolverLayout::zero())
        }
    }

    /// The measurement that is registered for `n`.
    pub open spec fn measure(self, n: u64) -> Option<LayoutMeasure> {
        match (self.nodes[n].render, self.measure_base(n)) {
            (Some(render), Some(base)) => render_size(render, base),
            _ => None,
        }
    }

    /// The requests that register `n` and what stands below it: `n` first,
    /// then the subtree of each of its children, by position. Nothing is
    /// registered for a node that is not shown, nor for what stands below it.
    pub open spec fn upserts(self, n: u64) -> Seq<Command>
        decreases self.graph.next - n, 1int, 0int,
    {
        if self.shown(n) {
            seq![Command::UpsertNode { entity: n, measure: self.measure(n) }] + self.upserts_from(
                n,
                0,
            )
        } else {
            Seq::empty()
        }
    }

    /// The requests that register the subtrees of the children of `n` from
    /// position `i` on.
    pub open spec fn upserts_from(self, n: u64, i: int) -> Seq<Command>
        decreases self.graph.next - n, 0int, self.graph.children_of(n).len() - i,
    {
        let children = self.graph.children_of(n);
        if 0 <= i < children.len() {
            let child = children[i].entity;
            if n < child < self.graph.next {
                self.upserts(child) + self.upserts_from(n, i + 1)
            } else {
                self.upserts_from(n, i + 1)
            }
        } else {
            Seq::empty()
        }
    }

    /// `before`, with the zero box for every node of `done` that had none.
    pub open spec fn seeded(before: Map<u64, SolverLayout>, done: Set<u64>) -> Map<
        u64,
        SolverLayout,
    > {
        Map::new(
            |n: u64| before.contains_key(n) || done.contains(n),
            |n: u64|
                if before.contains_key(n) {
                    before[n]
                } else {
                    SolverLayout::zero()
                },
        )
    }

    /// `layouts` holds every box of `self.boxes` as it is there, and the
    /// zero box for every other node it knows.
    pub open spec fn grown_into(self, layouts: Map<u64, SolverLayout>) -> bool {
        &&& forall|n: u64| #[trigger]
            self.boxes.contains_key(n) ==> layouts.contains_key(n) && layouts[n] == self.boxes[n]
        &&& forall|n: u64| #[trigger]
            layouts.contains_key(n) && !self.boxes.contains_key(n) ==> layouts[n]
                == SolverLayout::zero()
    }

    /// `child` goes into the solver as a child of its parent: it is neither
    /// fixed nor passed over. A node without attached state is such a child.
    pub open spec fn in_flow(self, child: u64) -> bool {
        self.nodes.contains_key(child) ==> !self.nodes[child].hidden && !self.fixed(child)
    }

    /// `child` goes into the solver as a child of the root: it is shown and
    /// fixed.
    pub open spec fn anchored(self, child: u64) -> bool {
        self.shown(child) && self.fixed(child)
    }

    /// Those of `children` that are in the flow, in order.
    pub open spec fn flow_children(self, children: Seq<u64>) -> Seq<u64>
        decreases children.len(),
    {
        if children.len() == 0 {
            Seq::empty()
        } else if self.in_flow(children.last()) {
            self.flow_children(children.drop_last()).push(children.last())
        } else {
            self.flow_children(children.drop_last())
        }
    }

    /// One request for each of `children` that is anchored, in order: it
    /// becomes a child of the root.
    pub open spec fn anchor_edges(self, children: Seq<u64>) -> Seq<Command>
        decreases children.len(),
    {
        if children.len() == 0 {
            Seq::empty()
        } else if self.anchored(children.last()) {
            self.anchor_edges(children.drop_last()).push(
                Command::AddChild { parent: self.root, child: children.last() },
            )
        } else {
            self.anchor_edges(children.drop_last())
        }
    }

    /// The requests that register the children of `entity`: those in the
    /// flow under `entity`, then each anchored one under the root.
    pub open spec fn edges(self, entity: u64) -> Seq<Command> {
        let children = entities_of(self.graph.children_of(entity));
        seq![Command::AddChildren { entity, children: self.flow_children(children) }]
            + self.anchor_edges(children)
    }

    /// The requests that register the children of each of `changed`, in
    /// order.
    pub open spec fn all_edges(self, changed: Seq<u64>) -> Seq<Command>
        decreases changed.len(),
    {
        if changed.len() == 0 {
            Seq::empty()
        } else {
            self.all_edges(changed.drop_last()) + self.edges(changed.last())
        }
    }

    /// The request to solve the tree, for a box as large as the style of the
    /// root says in pixels, and 1 wide or high where it does not; none
    /// where the root is not shown.
    pub open spec fn solve(self) -> Seq<Command> {
        if self.shown(self.root) {
            seq![
                Command::Compute {
                    root: self.root,
                    width: self.nodes[self.root].styles.width.spec_value_or(1),
                    height: self.nodes[self.root].styles.height.spec_value_or(1),
                },
            ]
        } else {
            Seq::empty()
        }
    }

    /// Where the first walk arrives at a node under the root, it has
    /// arrived at everything between that node and the root.
    pub proof fn lemma_walked_above(self, e: u64, n: u64)
        requires
            self.walked(n),
            is_ancestor(self.graph.parent, e, n),
            in_subtree(self.graph.parent, self.root, e),
        ensures
            self.walked(e),
        decreases n,
    {
        if n == self.root {
            lemma_ancestor_is_smaller(self.graph.parent, e, n);
            if e != self.root {
                lemma_ancestor_is_smaller(self.graph.parent, self.root, e);
            }
        } else if self.graph.parent[n] != e {
            self.lemma_walked_above(e, self.graph.parent[n]);
        }
    }

    /// The first walk arrives only at nodes in the subtree of the root.
    pub proof fn lemma_walked_under_root(self, n: u64)
        requires
            self.walked(n),
        ensures
            in_subtree(self.graph.parent, self.root, n),
        decreases n,
    {
        if n != self.root {
            self.lemma_walked_under_root(self.graph.parent[n]);
        }
    }
}

} // verus!
