//! The library's side of the box solver: what it is asked to do, and the
//! boxes it has answered with.
use crate::layout::measure::LayoutMeasure;
use crate::layout::style::Size;
use std::collections::HashMap;
use vstd::prelude::*;

verus! {

broadcast use vstd::std_specs::hash::group_hash_axioms;

/// A place relative to the box of the solver's parent.
#[derive(Clone, Copy, Debug, PartialEq, Eq, Structural)]
pub struct Point {
    pub x: i32,
    pub y: i32,
}

/// The four edges of a box as the solver reports them.
#[derive(Clone, Copy, Debug, PartialEq, Eq, Structural)]
pub struct Rect {
    pub top: i32,
    pub right: i32,
    pub bottom: i32,
    pub left: i32,
}

/// The box that the solver computed for one node. Its location is relative
/// to the node's parent in the solver.
#[derive(Clone, Copy, Debug, PartialEq, Eq, Structural)]
pub struct SolverLayout {
    pub order: u32,
    pub location: Point,
    pub size: Size,
    pub content_size: Size,
    pub scrollbar_size: Size,
    pub border: Rect,
    pub padding: Rect,
}

impl SolverLayout {
    /// The box of a node that the solver has not laid out yet.
    pub open spec fn zero() -> SolverLayout {
        SolverLayout {
            order: 0,
            location: Point { x: 0, y: 0 },
            size: Size { width: 0, height: 0 },
            content_size: Size { width: 0, height: 0 },
            scrollbar_size: Size { width: 0, height: 0 },
            border: Rect { top: 0, right: 0, bottom: 0, left: 0 },
            padding: Rect { top: 0, right: 0, bottom: 0, left: 0 },
        }
    }
}

impl Default for SolverLayout {
    fn default() -> (layout: SolverLayout)
        ensures
            layout == SolverLayout::zero(),
    {
        SolverLayout {
            order: 0,
            location: Point { x: 0, y: 0 },
            size: Size { width: 0, height: 0 },
            content_size: Size { width: 0, height: 0 },
            scrollbar_size: Size { width: 0, height: 0 },
            border: Rect { top: 0, right: 0, bottom: 0, left: 0 },
            padding: Rect { top: 0, right: 0, bottom: 0, left: 0 },
        }
    }
}

/// One request to the solver.
#[derive(Debug, PartialEq, Eq)]
pub enum SolverCommand {
    /// Create the node if the solver does not know it, and give it its style
    /// and measurement.
    UpsertNode { entity: u64, measure: Option<LayoutMeasure> },
    /// Make `children` the children of `entity`, in this order.
    AddChildren { entity: u64, children: Vec<u64> },
    /// Add `child` behind the children of `parent`.
    AddChild { parent: u64, child: u64 },
    /// Solve the tree below `root` for a box of the given size.
    Compute { root: u64, width: i32, height: i32 },
}

/// What a [`SolverCommand`] says.
pub ghost enum Command {
    UpsertNode { entity: u64, measure: Option<LayoutMeasure> },
    AddChildren { entity: u64, children: Seq<u64> },
    AddChild { parent: u64, child: u64 },
    Compute { root: u64, width: i32, height: i32 },
}

impl View for SolverCommand {
    type V = Command;

    open spec fn view(&self) -> Command {
        match self {
            SolverCommand::UpsertNode { entity, measure } => Command::UpsertNode {
                entity: *entity,
                measure: *measure,
            },
            SolverCommand::AddChildren { entity, children } => Command::AddChildren {
                entity: *entity,
                children: children@,
            },
            SolverCommand::AddChild { parent, child } => Command::AddChild {
                parent: *parent,
                child: *child,
            },
            SolverCommand::Compute { root, width, height } => Command::Compute {
                root: *root,
                width: *width,
                height: *height,
            },
        }
    }
}

/// The mathematical state of a [`UiLayout`].
pub ghost struct UiLayoutState {
    /// The root of the tree that is laid out.
    pub root: u64,
    /// The box of every node that the solver knows.
    pub layouts: Map<u64, SolverLayout>,
    /// The requests that wait to be carried out, oldest first.
    pub commands: Seq<Command>,
}

/// The requests that a vector of commands stands for.
pub open spec fn commands_of(commands: Seq<SolverCommand>) -> Seq<Command> {
    Seq::new(commands.len(), |i: int| commands[i]@)
}

/// The solver as the layout pipeline sees it. Requests are queued here and
/// carried out by whoever owns the solver, who then stores the boxes it
/// computed.
pub struct UiLayout {
    root_entity: u64,
    layouts: HashMap<u64, SolverLayout>,
    commands: Vec<SolverCommand>,
}

impl View for UiLayout {
    type V = UiLayoutState;

    closed spec fn view(&self) -> UiLayoutState {
        UiLayoutState {
            root: self.root_entity,
            layouts: self.layouts@,
            commands: commands_of(self.commands@),
        }
    }
}

impl UiLayout {
    /// A solver that knows no node.
    pub fn new(root_entity: u64) -> (ui_layout: Self)
        ensures
            ui_layout@ == (UiLayoutState {
                root: root_entity,
                layouts: Map::empty(),
                commands: Seq::empty(),
            }),
    {
        let ui_layout = UiLayout { root_entity, layouts: HashMap::new(), commands: Vec::new() };
        assert(ui_layout@.commands =~= Seq::empty());
        ui_layout
    }

    /// The root of the tree that is laid out.
    pub fn root_entity(&self) -> (root: u64)
        ensures
            root == self@.root,
    {
        self.root_entity
    }

    /// Makes `root_entity` the root of the tree that is laid out.
    pub fn set_root_entity(&mut self, root_entity: u64)
        ensures
            final(self)@ == (UiLayoutState { root: root_entity, ..old(self)@ }),
    {
        self.root_entity = root_entity;
    }

    /// The box of `entity`, if the solver knows the node.
    pub fn get_layout(&self, entity: u64) -> (layout: Option<SolverLayout>)
        ensures
            layout == self@.layouts.get(entity),
    {
        match self.layouts.get(&entity) {
            Some(layout) => Some(*layout),
            None => None,
        }
    }

    /// Stores the box that the solver computed for `entity`.
    pub fn set_layout(&mut self, entity: u64, layout: SolverLayout)
        ensures
            final(self)@ == (UiLayoutState {
                layouts: old(self)@.layouts.insert(entity, layout),
                ..old(self)@
            }),
    {
        self.layouts.insert(entity, layout);
    }

    /// Forgets the box of `entity`, as when its node is destroyed.
    pub fn remove_layout(&mut self, entity: u64)
        ensures
            final(self)@ == (UiLayoutState {
                layouts: old(self)@.layouts.remove(entity),
                ..old(self)@
            }),
    {
        self.layouts.remove(&entity);
    }

    /// Asks the solver to create or update `entity`. A node that the solver
    /// did not know has the zero box until the tree is solved.
    pub fn upsert_node(&mut self, entity: u64, measure: Option<LayoutMeasure>)
        ensures
            final(self)@ == (UiLayoutState {
                layouts: if old(self)@.layouts.contains_key(entity) {
                    old(self)@.layouts
                } else {
                    old(self)@.layouts.insert(entity, SolverLayout::zero())
                },
                commands: old(self)@.commands.push(Command::UpsertNode { entity, measure }),
                ..old(self)@
            }),
    {
        if !self.layouts.contains_key(&entity) {
            self.layouts.insert(entity, SolverLayout::default());
        }
        let command = SolverCommand::UpsertNode { entity, measure };
        self.commands.push(command);
        assert(self@.commands =~= old(self)@.commands.push(
            Command::UpsertNode { entity, measure },
        ));
    }

    /// Asks the solver to make `children` the children of `entity`.
    pub fn add_children(&mut self, entity: u64, children: Vec<u64>)
        ensures
            final(self)@ == (UiLayoutState {
                commands: old(self)@.commands.push(
                    Command::AddChildren { entity, children: children@ },
                ),
                ..old(self)@
            }),
    {
        let command = SolverCommand::AddChildren { entity, children };
        self.commands.push(command);
        assert(self@.commands =~= old(self)@.commands.push(command@));
    }

    /// Asks the solver to add `child` behind the children of `parent`.
    pub fn add_child(&mut self, parent: u64, child: u64)
        ensures
            final(self)@ == (UiLayoutState {
                commands: old(self)@.commands.push(Command::AddChild { parent, child }),
                ..old(self)@
            }),
    {
        let command = SolverCommand::AddChild { parent, child };
        self.commands.push(command);
        assert(self@.commands =~= old(self)@.commands.push(command@));
    }

    /// Asks the solver to solve the tree below `root` for a box of the given
    /// size.
    pub fn compute(&mut self, root: u64, width: i32, height: i32)
        ensures
            final(self)@ == (UiLayoutState {
                commands: old(self)@.commands.push(Command::Compute { root, width, height }),
                ..old(self)@
            }),
    {
        let command = SolverCommand::Compute { root, width, height };
        self.commands.push(command);
        assert(self@.commands =~= old(self)@.commands.push(command@));
    }

    /// Hands over the requests that wait, oldest first, and forgets them.
    pub fn take_commands(&mut self) -> (commands: Vec<SolverCommand>)
        ensures
            commands_of(commands@) == old(self)@.commands,
            final(self)@ == (UiLayoutState { commands: Seq::empty(), ..old(self)@ }),
    {
        let mut commands: Vec<SolverCommand> = Vec::new();
        std::mem::swap(&mut commands, &mut self.commands);
        assert(self@.commands =~= Seq::empty());
        commands
    }
}

} // verus!
