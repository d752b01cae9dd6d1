//! Layout records and the passes that produce them.
use crate::entity_mapping::WidgetMapper;
use crate::layout::model::LayoutTree;
use crate::layout::style::Edge;
use crate::layout::style::Vec2;
use crate::layout::style::WidgetNode;
use crate::layout::style::WidgetPosition;
use crate::layout::ui_layout::SolverLayout;
use crate::layout::ui_layout::UiLayout;
use crate::layout::ui_layout::UiLayoutState;
use crate::layout::measure::match_render_size;
use crate::mapping_model::entities_of;
use crate::mapping_model::in_subtree;
use crate::mapping_model::is_ancestor;
use crate::mapping_model::lemma_ancestor_is_smaller;
use crate::mapping_model::lemma_below_child_is_below;
use crate::mapping_model::lemma_below_is_below_child;
use std::collections::HashMap;
use vstd::prelude::*;
use vstd::std_specs::convert::FromSpecImpl;

verus! {

broadcast use vstd::std_specs::hash::group_hash_axioms;

/// The box of a node on the screen.
#[derive(Clone, Copy, Debug, PartialEq, Eq, Structural)]
pub struct ReflectedLayout {
    /// The relative ordering of the node.
    ///
    /// Nodes with a higher order are drawn on top of those with a lower
    /// order. A node's order is one more than that of its parent.
    pub order: u32,
    /// The top-left corner of the node.
    pub location: Vec2,
    /// The width and height of the node.
    pub size: Vec2,
    /// The width and height of the content inside the node. This may be
    /// larger than the size of the node where content overflows.
    pub content_size: Vec2,
    /// The size of the scrollbars in each dimension; zero without one.
    pub scrollbar_size: Vec2,
    /// The size of the borders of the node.
    pub border: Edge,
    /// The size of the padding of the node.
    pub padding: Edge,
}

/// The record that holds what the solver computed, as it stands.
pub open spec fn reflect(value: SolverLayout) -> ReflectedLayout {
    ReflectedLayout {
        order: value.order,
        location: Vec2 { x: value.location.x as i64, y: value.location.y as i64 },
        size: Vec2 { x: value.size.width as i64, y: value.size.height as i64 },
        content_size: Vec2 {
            x: value.content_size.width as i64,
            y: value.content_size.height as i64,
        },
        scrollbar_size: Vec2 {
            x: value.scrollbar_size.width as i64,
            y: value.scrollbar_size.height as i64,
        },
        border: Edge {
            top: value.border.top as i64,
            right: value.border.right as i64,
            bottom: value.border.bottom as i64,
            left: value.border.left as i64,
        },
        padding: Edge {
            top: value.padding.top as i64,
            right: value.padding.right as i64,
            bottom: value.padding.bottom as i64,
            left: value.padding.left as i64,
        },
    }
}

impl<'a> From<&'a SolverLayout> for ReflectedLayout {
    fn from(value: &'a SolverLayout) -> (layout: ReflectedLayout) {
        ReflectedLayout {
            order: value.order,
            location: Vec2 { x: value.location.x as i64, y: value.location.y as i64 },
            size: Vec2 { x: value.size.width as i64, y: value.size.height as i64 },
            content_size: Vec2 {
                x: value.content_size.width as i64,
                y: value.content_size.height as i64,
            },
            scrollbar_size: Vec2 {
                x: value.scrollbar_size.width as i64,
                y: value.scrollbar_size.height as i64,
            },
            border: Edge {
                top: value.border.top as i64,
                right: value.border.right as i64,
                bottom: value.border.bottom as i64,
                left: value.border.left as i64,
            },
            padding: Edge {
                top: value.padding.top as i64,
                right: value.padding.right as i64,
                bottom: value.padding.bottom as i64,
                left: value.padding.left as i64,
            },
        }
    }
}

impl<'a> FromSpecImpl<&'a SolverLayout> for ReflectedLayout {
    open spec fn obeys_from_spec() -> bool {
        true
    }

    open spec fn from_spec(value: &'a SolverLayout) -> ReflectedLayout {
        reflect(*value)
    }
}

/// A widget's layout: where its box stands on the screen after the solver's
/// boxes have been propagated.
#[derive(Clone, Copy, Debug)]
pub struct WidgetLayout(pub ReflectedLayout);

impl WidgetLayout {
    /// The position of the widget in pixels.
    pub fn position(&self) -> (position: Vec2)
        ensures
            position == self.0.location,
    {
        self.0.location
    }

    /// The width of the layout in pixels.
    pub fn width(&self) -> (width: i64)
        ensures
            width == self.0.size.x,
    {
        self.0.size.x
    }

    /// The height of the layout in pixels.
    pub fn height(&self) -> (height: i64)
        ensures
            height == self.0.size.y,
    {
        self.0.size.y
    }

    /// The content width of the layout in pixels: the space that the
    /// children take up, which is not the width of the widget.
    pub fn content_width(&self) -> (width: i64)
        ensures
            width == self.0.content_size.x,
    {
        self.0.content_size.x
    }

    /// The content height of the layout in pixels: the space that the
    /// children take up, which is not the height of the widget.
    pub fn content_height(&self) -> (height: i64)
        ensures
            height == self.0.content_size.y,
    {
        self.0.content_size.y
    }
}

/// The previous layout from the last frame.
/// Useful to see if a widget's layout has changed.
#[derive(Clone, Copy, Debug)]
pub struct WidgetPreviousLayout(pub ReflectedLayout);

/// Two records that agree in size, location and content size.
pub open spec fn layouts_equal(layout_a: ReflectedLayout, layout_b: ReflectedLayout) -> bool {
    layout_a.size == layout_b.size && layout_a.location == layout_b.location
        && layout_a.content_size == layout_b.content_size
}

/// Whether two records show the same box: the same size, location and
/// content size. Order, scrollbars, border and padding are not compared.
pub fn layout_equality(layout_a: &ReflectedLayout, layout_b: &ReflectedLayout) -> (equal: bool)
    ensures
        equal == layouts_equal(*layout_a, *layout_b),
{
    layout_a.size == layout_b.size && layout_a.location == layout_b.location
        && layout_a.content_size == layout_b.content_size
}

/// The layout records that a propagation pass writes.
pub struct LayoutUpdates {
    /// The new record of each node that the pass arrived at.
    pub layouts: HashMap<u64, WidgetLayout>,
    /// For each of them that had a record, the record it had before.
    pub previous: HashMap<u64, WidgetPreviousLayout>,
}

/// The inputs of propagation as one value.
pub open spec fn layout_tree(
    mapper: &WidgetMapper,
    ui_layout: &UiLayout,
    query: &HashMap<u64, WidgetNode>,
) -> LayoutTree {
    LayoutTree {
        graph: mapper@,
        root: ui_layout@.root,
        nodes: query@,
        boxes: ui_layout@.layouts,
    }
}

/// Writes the layout record of `entity` and of what stands below it.
///
/// `parent_location` is the place of the parent on the screen, and `order`
/// the order that `entity` gets. A node without attached state, one that is
/// passed over and one without a box ends the walk on its branch.
fn traverse_layout_update(
    updates: &mut LayoutUpdates,
    entity: u64,
    mapper: &WidgetMapper,
    ui_layout: &UiLayout,
    query: &HashMap<u64, WidgetNode>,
    layout_query: &HashMap<u64, WidgetLayout>,
    parent_location: Option<Vec2>,
    order: u32,
)
    requires
        mapper@.wf(),
        ({
            let tree = layout_tree(mapper, ui_layout, query);
            if entity == tree.root {
                parent_location.is_none() && order == 0
            } else {
                &&& tree.has_parent(entity)
                &&& tree.reached(tree.graph.parent[entity])
                &&& order == tree.depth(entity)
                &&& parent_location == Some(
                    Vec2 {
                        x: tree.absolute(tree.graph.parent[entity], true) as i64,
                        y: tree.absolute(tree.graph.parent[entity], false) as i64,
                    },
                )
            }
        }),
    ensures
        final(updates).layouts@ == layout_tree(mapper, ui_layout, query).written(
            old(updates).layouts@,
            layout_tree(mapper, ui_layout, query).painted(entity),
        ),
        final(updates).previous@ == layout_tree(mapper, ui_layout, query).snapshot_written(
            old(updates).previous@,
            layout_query@,
            layout_tree(mapper, ui_layout, query).painted(entity),
        ),
    decreases mapper@.next - entity,
{
    let ghost tree = layout_tree(mapper, ui_layout, query);
    let ghost parents = tree.graph.parent;
    proof {
        if entity != tree.root {
            tree.lemma_reached_under_root(parents[entity]);
        }
        assert(in_subtree(parents, tree.root, entity));
        assert forall|n: u64| in_subtree(parents, entity, n) && tree.reached(n) implies tree.reached(
            entity,
        ) by {
            if n != entity {
                tree.lemma_reached_above(entity, n);
            }
        }
    }
    proof {
        if !tree.live(entity) {
            assert(tree.painted(entity) =~= Set::empty());
            assert(updates.layouts@ =~= tree.written(updates.layouts@, Set::empty()));
            assert(updates.previous@ =~= tree.snapshot_written(
                updates.previous@,
                layout_query@,
                Set::empty(),
            ));
        }
    }
    let node = match query.get(&entity) {
        Some(node) => *node,
        None => {
            return ;
        },
    };
    if node.hidden {
        return ;
    }
    let layout = match ui_layout.get_layout(entity) {
        Some(layout) => layout,
        None => {
            return ;
        },
    };
    assert(tree.reached(entity));
    match layout_query.get(&entity) {
        Some(prev_layout) => {
            updates.previous.insert(entity, WidgetPreviousLayout(prev_layout.0));
        },
        None => {},
    }
    proof {
        tree.lemma_absolute_bounds(entity, true);
        tree.lemma_absolute_bounds(entity, false);
        if entity != tree.root {
            tree.lemma_absolute_bounds(parents[entity], true);
            tree.lemma_absolute_bounds(parents[entity], false);
        }
    }
    let mut location = Vec2 { x: layout.location.x as i64, y: layout.location.y as i64 };
    match parent_location {
        Some(parent_location) => {
            match node.styles.position {
                WidgetPosition::Fixed => {},
                _ => {
                    location.x = location.x + parent_location.x;
                    location.y = location.y + parent_location.y;
                },
            }
        },
        None => {},
    }
    let mut record = ReflectedLayout::from(&layout);
    record.location = location;
    record.order = order;
    assert(record == tree.record(entity));
    updates.layouts.insert(entity, WidgetLayout(record));
    let ghost mut done: Set<u64> = set![entity];
    proof {
        assert(updates.layouts@ =~= tree.written(old(updates).layouts@, done));
        assert(updates.previous@ =~= tree.snapshot_written(
            old(updates).previous@,
            layout_query@,
            done,
        ));
    }
    if order == u32::MAX {
        proof {
            assert forall|n: u64| is_ancestor(parents, entity, n) implies !tree.reached(n) by {
                if tree.reached(n) {
                    tree.lemma_reached_above(entity, n);
                }
            }
            assert(tree.painted(entity) =~= done);
        }
        return ;
    }
    let children = mapper.get_all_children(entity);
    let mut i: usize = 0;
    while i < children.len()
        invariant
            i <= children.len(),
            mapper@.wf(),
            tree == layout_tree(mapper, ui_layout, query),
            parents == tree.graph.parent,
            tree.reached(entity),
            order == tree.depth(entity),
            order < u32::MAX,
            location == (Vec2 {
                x: tree.absolute(entity, true) as i64,
                y: tree.absolute(entity, false) as i64,
            }),
            children@ == entities_of(mapper@.children_of(entity)),
            in_subtree(parents, tree.root, entity),
            done.contains(entity),
            forall|n: u64|
                done.contains(n) ==> in_subtree(parents, entity, n) && tree.reached(n),
            forall|j: int, n: u64|
                0 <= j < i && in_subtree(parents, #[trigger] children@[j], n) && tree.reached(n)
                    ==> #[trigger] done.contains(n),
            updates.layouts@ == tree.written(old(updates).layouts@, done),
            updates.previous@ == tree.snapshot_written(
                old(updates).previous@,
                layout_query@,
                done,
            ),
        decreases children.len() - i,
    {
        let child = children[i];
        proof {
            assert(mapper@.recorded_at(entity, i as int, child));
            if entity != tree.root {
                lemma_ancestor_is_smaller(parents, tree.root, entity);
            }
        }
        let ghost before = *updates;
        traverse_layout_update(
            updates,
            child,
            mapper,
            ui_layout,
            query,
            layout_query,
            Some(location),
            order + 1,
        );
        proof {
            assert forall|n: u64| in_subtree(parents, child, n) implies in_subtree(
                parents,
                entity,
                n,
            ) by {
                lemma_below_child_is_below(parents, entity, child, n);
            }
            let wider = done.union(tree.painted(child));
            assert(updates.layouts@ =~= tree.written(old(updates).layouts@, wider));
            assert(updates.previous@ =~= tree.snapshot_written(
                old(updates).previous@,
                layout_query@,
                wider,
            ));
            done = wider;
        }
        i += 1;
    }
    proof {
        assert forall|n: u64| is_ancestor(parents, entity, n) implies exists|j: int|
            0 <= j < children.len() && in_subtree(parents, children@[j], n) by {
            let c = lemma_below_is_below_child(parents, entity, n);
            let j = choose|j: int| mapper@.recorded_at(entity, j, c);
            assert(children@[j] == c);
        }
        assert forall|j: int, n: u64|
            0 <= j < children.len() && in_subtree(parents, children@[j], n) implies is_ancestor(
            parents,
            entity,
            n,
        ) by {
            assert(mapper@.recorded_at(entity, j, children@[j]));
            lemma_below_child_is_below(parents, entity, children@[j], n);
        }
        assert(tree.painted(entity) =~= done);
    }
}

/// Turns the boxes of the solver into layout records: the second walk of a
/// tick, made once the solver has answered.
///
/// The walk starts at the root with order 0 and goes down through the
/// recorded children. Each node it arrives at gets its box at its place on
/// the screen (its own offset, added to the place of its parent unless it
/// is fixed) and an order one above that of its parent, and the record it
/// had before is kept as its previous layout.
pub fn propagate(
    mapper: &WidgetMapper,
    ui_layout: &UiLayout,
    query: &HashMap<u64, WidgetNode>,
    layout_query: &HashMap<u64, WidgetLayout>,
) -> (updates: LayoutUpdates)
    requires
        mapper@.wf(),
    ensures
        updates.layouts@ == layout_tree(mapper, ui_layout, query).layouts(),
        updates.previous@ == layout_tree(mapper, ui_layout, query).snapshots(layout_query@),
{
    let mut updates = LayoutUpdates { layouts: HashMap::new(), previous: HashMap::new() };
    let root = ui_layout.root_entity();
    traverse_layout_update(&mut updates, root, mapper, ui_layout, query, layout_query, None, 0);
    proof {
        let tree = layout_tree(mapper, ui_layout, query);
        assert forall|n: u64| tree.reached(n) implies tree.painted(root).contains(n) by {
            tree.lemma_reached_under_root(n);
        }
        assert(updates.layouts@ =~= tree.layouts());
        assert(updates.previous@ =~= tree.snapshots(layout_query@));
    }
    updates
}

/// The inputs of the first walk as one value: the graph, the attached state
/// and the boxes that the solver held as the walk began.
pub open spec fn upsert_tree(
    mapper: &WidgetMapper,
    query: &HashMap<u64, WidgetNode>,
    root_node: u64,
    boxes: Map<u64, SolverLayout>,
) -> LayoutTree {
    LayoutTree { graph: mapper@, root: root_node, nodes: query@, boxes }
}

/// Registers `current_node` and what stands below it with the solver,
/// parents before children.
///
/// `parent` is the node from which the walk came, and `boxes` what the
/// solver held as the walk began.
fn traverse_upsert_node(
    root_node: u64,
    mapper: &WidgetMapper,
    query: &HashMap<u64, WidgetNode>,
    layout: &mut UiLayout,
    current_node: u64,
    parent: Option<u64>,
    Ghost(boxes): Ghost<Map<u64, SolverLayout>>,
)
    requires
        mapper@.wf(),
        upsert_tree(mapper, query, root_node, boxes).grown_into(old(layout)@.layouts),
        ({
            let tree = upsert_tree(mapper, query, root_node, boxes);
            if current_node == root_node {
                parent.is_none() && old(layout)@.layouts == boxes
            } else {
                &&& tree.has_parent(current_node)
                &&& parent == Some(tree.graph.parent[current_node])
                &&& tree.walked(tree.graph.parent[current_node])
                &&& old(layout)@.layouts.contains_key(tree.graph.parent[current_node])
            }
        }),
    ensures
        final(layout)@.root == old(layout)@.root,
        final(layout)@.commands == old(layout)@.commands + upsert_tree(
            mapper,
            query,
            root_node,
            boxes,
        ).upserts(current_node),
        final(layout)@.layouts == LayoutTree::seeded(
            old(layout)@.layouts,
            upsert_tree(mapper, query, root_node, boxes).entered(current_node),
        ),
        upsert_tree(mapper, query, root_node, boxes).grown_into(final(layout)@.layouts),
    decreases mapper@.next - current_node,
{
    let ghost tree = upsert_tree(mapper, query, root_node, boxes);
    let ghost parents = tree.graph.parent;
    proof {
        if current_node != root_node {
            tree.lemma_walked_under_root(parents[current_node]);
        }
        assert(in_subtree(parents, root_node, current_node));
        if !tree.shown(current_node) {
            assert forall|n: u64| in_subtree(parents, current_node, n) implies !tree.walked(n) by {
                if n != current_node && tree.walked(n) {
                    tree.lemma_walked_above(current_node, n);
                }
            }
            assert(tree.entered(current_node) =~= Set::empty());
            assert(layout@.layouts =~= LayoutTree::seeded(layout@.layouts, Set::empty()));
            assert(layout@.commands + tree.upserts(current_node) =~= layout@.commands);
        }
    }
    let node = match query.get(&current_node) {
        Some(node) => *node,
        None => {
            return ;
        },
    };
    if node.hidden {
        return ;
    }
    assert(tree.walked(current_node));
    let layout_measure = match node.render {
        Some(widget_render) => {
            let base = match parent {
                Some(parent_entity) => layout.get_layout(parent_entity),
                None => layout.get_layout(root_node),
            };
            match base {
                Some(parent_layout) => match_render_size(&widget_render, &parent_layout),
                None => None,
            }
        },
        None => None,
    };
    assert(layout_measure == tree.measure(current_node));
    layout.upsert_node(current_node, layout_measure);
    let ghost mut done: Set<u64> = set![current_node];
    proof {
        assert(layout@.layouts =~= LayoutTree::seeded(old(layout)@.layouts, done));
        assert(layout@.commands + tree.upserts_from(current_node, 0) =~= old(layout)@.commands
            + tree.upserts(current_node));
    }
    let children = mapper.get_all_children(current_node);
    let mut i: usize = 0;
    while i < children.len()
        invariant
            i <= children.len(),
            mapper@.wf(),
            tree == upsert_tree(mapper, query, root_node, boxes),
            parents == tree.graph.parent,
            tree.walked(current_node),
            in_subtree(parents, root_node, current_node),
            children@ == entities_of(mapper@.children_of(current_node)),
            done.contains(current_node),
            forall|n: u64|
                done.contains(n) ==> in_subtree(parents, current_node, n) && tree.walked(n),
            forall|j: int, n: u64|
                0 <= j < i && in_subtree(parents, #[trigger] children@[j], n) && tree.walked(n)
                    ==> #[trigger] done.contains(n),
            layout@.root == old(layout)@.root,
            layout@.layouts == LayoutTree::seeded(old(layout)@.layouts, done),
            tree.grown_into(old(layout)@.layouts),
            layout@.commands + tree.upserts_from(current_node, i as int) == old(layout)@.commands
                + tree.upserts(current_node),
        decreases children.len() - i,
    {
        let child = children[i];
        proof {
            assert(mapper@.recorded_at(current_node, i as int, child));
            if current_node != root_node {
                lemma_ancestor_is_smaller(parents, root_node, current_node);
            }
        }
        let ghost before = layout@;
        traverse_upsert_node(root_node, mapper, query, layout, child, Some(current_node), Ghost(boxes));
        proof {
            assert forall|n: u64| in_subtree(parents, child, n) implies in_subtree(
                parents,
                current_node,
                n,
            ) by {
                lemma_below_child_is_below(parents, current_node, child, n);
            }
            let wider = done.union(tree.entered(child));
            assert(layout@.layouts =~= LayoutTree::seeded(old(layout)@.layouts, wider));
            done = wider;
            assert(tree.upserts_from(current_node, i as int) == tree.upserts(child)
                + tree.upserts_from(current_node, i + 1));
            assert(layout@.commands + tree.upserts_from(current_node, i + 1) =~= before.commands
                + tree.upserts_from(current_node, i as int));
        }
        i += 1;
    }
    proof {
        assert forall|n: u64| is_ancestor(parents, current_node, n) implies exists|j: int|
            0 <= j < children.len() && in_subtree(parents, children@[j], n) by {
            let c = lemma_below_is_below_child(parents, current_node, n);
            let j = choose|j: int| mapper@.recorded_at(current_node, j, c);
            assert(children@[j] == c);
        }
        assert(tree.entered(current_node) =~= done);
        assert(layout@.commands + tree.upserts_from(current_node, children.len() as int)
            =~= layout@.commands);
    }
}

/// Those of `children` that go into the solver under their parent.
fn normal_children(query: &HashMap<u64, WidgetNode>, children: &Vec<u64>, Ghost(tree): Ghost<
    LayoutTree,
>) -> (normal: Vec<u64>)
    requires
        tree.nodes == query@,
    ensures
        normal@ == tree.flow_children(children@),
{
    let mut normal: Vec<u64> = Vec::new();
    let mut i: usize = 0;
    while i < children.len()
        invariant
            i <= children.len(),
            tree.nodes == query@,
            normal@ == tree.flow_children(children@.take(i as int)),
        decreases children.len() - i,
    {
        proof {
            assert(children@.take(i + 1).drop_last() =~= children@.take(i as int));
        }
        let child = children[i];
        let keep = match query.get(&child) {
            Some(node) => {
                match node.styles.position {
                    WidgetPosition::Fixed => false,
                    _ => !node.hidden,
                }
            },
            None => true,
        };
        if keep {
            normal.push(child);
        }
        i += 1;
    }
    assert(children@.take(children.len() as int) =~= children@);
    normal
}

/// Registers the children of `entity` with the solver: those in the flow
/// under `entity`, each fixed one under the root.
fn register_children(
    root_node: u64,
    mapper: &WidgetMapper,
    query: &HashMap<u64, WidgetNode>,
    ui_layout: &mut UiLayout,
    entity: u64,
    Ghost(tree): Ghost<LayoutTree>,
)
    requires
        tree.nodes == query@,
        tree.graph == mapper@,
        tree.root == root_node,
    ensures
        final(ui_layout)@ == (UiLayoutState {
            commands: old(ui_layout)@.commands + tree.edges(entity),
            ..old(ui_layout)@
        }),
{
    let children = mapper.get_all_children(entity);
    let normal = normal_children(query, &children, Ghost(tree));
    ui_layout.add_children(entity, normal);
    let ghost start = ui_layout@.commands;
    let mut i: usize = 0;
    assert(ui_layout@.commands =~= start + tree.anchor_edges(children@.take(0)));
    while i < children.len()
        invariant
            i <= children.len(),
            tree.nodes == query@,
            tree.root == root_node,
            ui_layout@ == (UiLayoutState {
                commands: start + tree.anchor_edges(children@.take(i as int)),
                ..old(ui_layout)@
            }),
        decreases children.len() - i,
    {
        proof {
            assert(children@.take(i + 1).drop_last() =~= children@.take(i as int));
        }
        let child = children[i];
        let anchored = match query.get(&child) {
            Some(node) => {
                match node.styles.position {
                    WidgetPosition::Fixed => !node.hidden,
                    _ => false,
                }
            },
            None => false,
        };
        if anchored {
            ui_layout.add_child(root_node, child);
            assert(ui_layout@.commands =~= start + tree.anchor_edges(children@.take(i + 1)));
        }
        i += 1;
    }
    assert(children@.take(children.len() as int) =~= children@);
    assert(ui_layout@.commands =~= old(ui_layout)@.commands + tree.edges(entity));
}

/// The first walk of a tick: tells the solver what to lay out.
///
/// Makes `root_node` the root. Registers every shown node that the walk
/// from the root arrives at, parents before children, each with the
/// measurement of its content. Registers the children of each node of
/// `changed`, the nodes whose children changed this tick. Then asks for the
/// tree to be solved, unless the root is not shown. The requests wait in
/// `ui_layout` until they are taken.
pub fn run(
    mapper: &WidgetMapper,
    query: &HashMap<u64, WidgetNode>,
    ui_layout: &mut UiLayout,
    changed: &Vec<u64>,
    root_node: u64,
)
    requires
        mapper@.wf(),
    ensures
        ({
            let tree = upsert_tree(mapper, query, root_node, old(ui_layout)@.layouts);
            final(ui_layout)@ == (UiLayoutState {
                root: root_node,
                layouts: LayoutTree::seeded(old(ui_layout)@.layouts, tree.entered(root_node)),
                commands: old(ui_layout)@.commands + tree.upserts(root_node) + tree.all_edges(
                    changed@,
                ) + tree.solve(),
            })
        }),
{
    let ghost tree = upsert_tree(mapper, query, root_node, ui_layout@.layouts);
    ui_layout.set_root_entity(root_node);
    traverse_upsert_node(
        root_node,
        mapper,
        query,
        ui_layout,
        root_node,
        None,
        Ghost(ui_layout@.layouts),
    );
    let ghost start = ui_layout@.commands;
    let mut i: usize = 0;
    assert(ui_layout@.commands =~= start + tree.all_edges(changed@.take(0)));
    while i < changed.len()
        invariant
            i <= changed.len(),
            tree == upsert_tree(mapper, query, root_node, old(ui_layout)@.layouts),
            ui_layout@ == (UiLayoutState {
                root: root_node,
                layouts: LayoutTree::seeded(old(ui_layout)@.layouts, tree.entered(root_node)),
                commands: start + tree.all_edges(changed@.take(i as int)),
            }),
        decreases changed.len() - i,
    {
        proof {
            assert(changed@.take(i + 1).drop_last() =~= changed@.take(i as int));
        }
        register_children(root_node, mapper, query, ui_layout, changed[i], Ghost(tree));
        assert(ui_layout@.commands =~= start + tree.all_edges(changed@.take(i + 1)));
        i += 1;
    }
    assert(changed@.take(changed.len() as int) =~= changed@);
    match query.get(&root_node) {
        Some(node) => {
            if !node.hidden {
                let width = node.styles.width.value_or(1);
                let height = node.styles.height.value_or(1);
                ui_layout.compute(root_node, width, height);
            }
        },
        None => {},
    }
    assert(ui_layout@.commands =~= old(ui_layout)@.commands + tree.upserts(root_node)
        + tree.all_edges(changed@) + tree.solve());
}

} // verus!
