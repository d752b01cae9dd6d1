//! The reconciler: a table from `(parent, position)` to persistent nodes.
//!
//! Identity is positional. A declared child keeps its node for as long as the
//! key recorded at its position stays the same; a different key at that
//! position destroys the recorded node with everything below it and puts a
//! fresh node in its place.
use crate::mapping_model::closed_downwards;
use crate::mapping_model::entities_of;
use crate::mapping_model::in_subtree;
use crate::mapping_model::is_ancestor;
use crate::mapping_model::lemma_ancestor_is_smaller;
use crate::mapping_model::lemma_below_child_is_below;
use crate::mapping_model::lemma_below_is_below_child;
use crate::mapping_model::widget_key;
use crate::mapping_model::MapperState;
use crate::mapping_model::Record;
use bevy::platform::collections::HashMap;
use bevy::platform::collections::HashSet;
use vstd::prelude::*;
use vstd::string::StringExecFns;

verus! {

/// The mapped entity with a key and entity id.
pub struct EntityMappping {
    /// A widget key, normally just the widget's type name; the declaring code
    /// may append a key of its own.
    key: String,
    /// The widget entity.
    entity: u64,
}

impl View for EntityMappping {
    type V = Record;

    closed spec fn view(&self) -> Record {
        Record { key: self.key@, entity: self.entity }
    }
}

/// The records that a vector of mappings stands for.
pub closed spec fn records_of(mappings: Seq<EntityMappping>) -> Seq<Record> {
    Seq::new(mappings.len(), |i: int| mappings[i]@)
}

/// The hash map of `bevy_platform`, a new-type around the one of
/// `hashbrown`.
#[verifier::external_type_specification]
#[verifier::external_body]
#[verifier::reject_recursive_types(K)]
#[verifier::reject_recursive_types(V)]
#[verifier::reject_recursive_types(S)]
pub struct ExHashMap<K, V, S>(bevy::platform::collections::HashMap<K, V, S>);

/// The hash set of `bevy_platform`, a new-type around the one of
/// `hashbrown`.
#[verifier::external_type_specification]
#[verifier::external_body]
#[verifier::reject_recursive_types(T)]
#[verifier::reject_recursive_types(S)]
pub struct ExHashSet<T, S>(bevy::platform::collections::HashSet<T, S>);

/// The hasher with which `bevy_platform` builds its maps and sets.
#[verifier::external_type_specification]
#[verifier::external_body]
pub struct ExFixedHasher(bevy::platform::hash::FixedHasher);

/// What a table of records holds: the records of each parent that has an
/// entry, by position.
pub uninterp spec fn table_contents(table: HashMap<u64, Vec<EntityMappping>>) -> Map<
    u64,
    Seq<Record>,
>;

/// The handles that a set of nodes holds.
pub uninterp spec fn set_contents(set: HashSet<u64>) -> Set<u64>;

/// What a map of event slots holds: the value of each slot `(slot, entity)`
/// that has an entry.
pub uninterp spec fn slot_contents(slots: HashMap<(usize, u64), Option<u64>>) -> Map<
    (usize, u64),
    Option<u64>,
>;

/// `HashMap::default` of `bevy_platform`: a map without entries.
#[verifier::external_body]
fn table_new() -> (table: HashMap<u64, Vec<EntityMappping>>)
    ensures
        forall|parent: u64| !table_contents(table).contains_key(parent),
{
    HashMap::default()
}

/// `HashMap::get` of `bevy_platform`, which hands the call on to
/// `hashbrown`: the value of the entry of `parent`, and `None` where the map
/// has no such entry.
#[verifier::external_body]
fn table_get(table: &HashMap<u64, Vec<EntityMappping>>, parent: u64) -> (mappings: Option<
    &Vec<EntityMappping>,
>)
    ensures
        match mappings {
            Some(mappings) => table_contents(*table).contains_key(parent) && records_of(mappings@)
                == table_contents(*table)[parent],
            None => !table_contents(*table).contains_key(parent),
        },
{
    table.get(&parent)
}

/// `HashMap::insert` of `bevy_platform`, which hands the call on to
/// `hashbrown`: afterwards the entry of `parent` holds `mappings`, whether
/// or not there was such an entry, and the other entries are as they were.
#[verifier::external_body]
fn table_insert(
    table: &mut HashMap<u64, Vec<EntityMappping>>,
    parent: u64,
    mappings: Vec<EntityMappping>,
)
    ensures
        table_contents(*final(table)) == table_contents(*old(table)).insert(
            parent,
            records_of(mappings@),
        ),
{
    table.insert(parent, mappings);
}

/// `HashMap::remove` of `bevy_platform`, which hands the call on to
/// `hashbrown`: takes the entry of `parent` out of the map and returns its
/// value; `None`, and no change, where the map has no such entry.
#[verifier::external_body]
fn table_remove(table: &mut HashMap<u64, Vec<EntityMappping>>, parent: u64) -> (mappings: Option<
    Vec<EntityMappping>,
>)
    ensures
        table_contents(*final(table)) == table_contents(*old(table)).remove(parent),
        match mappings {
            Some(mappings) => table_contents(*old(table)).contains_key(parent) && records_of(
                mappings@,
            ) == table_contents(*old(table))[parent],
            None => !table_contents(*old(table)).contains_key(parent),
        },
{
    table.remove(&parent)
}

/// `HashSet::default` of `bevy_platform`: a set without members.
#[verifier::external_body]
fn set_new() -> (set: HashSet<u64>)
    ensures
        set_contents(set) == Set::<u64>::empty(),
{
    HashSet::default()
}

/// `HashSet::insert` of `bevy_platform`, which hands the call on to
/// `hashbrown`: afterwards `entity` is a member, and the other members are
/// as they were.
#[verifier::external_body]
fn set_insert(set: &mut HashSet<u64>, entity: u64)
    ensures
        set_contents(*final(set)) == set_contents(*old(set)).insert(entity),
{
    set.insert(entity);
}

/// `HashSet::contains` of `bevy_platform`, which hands the call on to
/// `hashbrown`: whether `entity` is a member.
#[verifier::external_body]
fn set_contains(set: &HashSet<u64>, entity: u64) -> (found: bool)
    ensures
        found == set_contents(*set).contains(entity),
{
    set.contains(&entity)
}

/// `HashSet::clear` of `bevy_platform`, which hands the call on to
/// `hashbrown`: afterwards the set has no member.
#[verifier::external_body]
fn set_clear(set: &mut HashSet<u64>)
    ensures
        set_contents(*final(set)) == Set::<u64>::empty(),
{
    set.clear();
}

/// `HashMap::default` of `bevy_platform`: a map without entries.
#[verifier::external_body]
fn slots_new() -> (slots: HashMap<(usize, u64), Option<u64>>)
    ensures
        forall|slot: (usize, u64)| !slot_contents(slots).contains_key(slot),
{
    HashMap::default()
}

/// `HashMap::entry` of `bevy_platform`, followed by `Entry::or_insert` of
/// `hashbrown` with `None`: a reference to the value of the entry of `(slot, entity)`, which
/// is made with the value `None` where the map had no such entry. What the
/// caller leaves behind the reference is the value of that entry
/// afterwards, and the other entries are as they were.
#[verifier::external_body]
fn slot_or_empty(slots: &mut HashMap<(usize, u64), Option<u64>>, slot: usize, entity: u64) -> (value:
    &mut Option<u64>)
    ensures
        *value == if slot_contents(*old(slots)).contains_key((slot, entity)) {
            slot_contents(*old(slots))[(slot, entity)]
        } else {
            None
        },
        slot_contents(*final(slots)) == slot_contents(*old(slots)).insert(
            (slot, entity),
            *final(value),
        ),
{
    slots.entry((slot, entity)).or_insert(None)
}

/// Maps parent widgets to child widgets.
/// Overwrites old widgets with new entities if the type or the key has changed.
pub struct WidgetMapper {
    parent_entity_to_child: HashMap<u64, Vec<EntityMappping>>,
    new_this_tick: HashSet<u64>,
    observers: HashMap<(usize, u64), Option<u64>>,
    next_entity: u64,
    despawned: Vec<u64>,
    parent_of: Ghost<Map<u64, u64>>,
}

impl View for WidgetMapper {
    type V = MapperState;

    closed spec fn view(&self) -> MapperState {
        MapperState {
            children: table_contents(self.parent_entity_to_child),
            parent: self.parent_of@,
            added: set_contents(self.new_this_tick),
            next: self.next_entity,
            despawned: self.despawned@,
            observers: Map::new(
                |k: (usize, u64)|
                    slot_contents(self.observers).contains_key(k) && slot_contents(
                        self.observers,
                    )[k].is_some(),
                |k: (usize, u64)| slot_contents(self.observers)[k].unwrap(),
            ),
        }
    }
}

impl WidgetMapper {
    /// Create a new widget mapper.
    pub fn new() -> (mapper: Self)
        ensures
            mapper@ == MapperState::empty(),
            mapper@.wf(),
    {
        let mapper = WidgetMapper {
            parent_entity_to_child: table_new(),
            new_this_tick: set_new(),
            observers: slots_new(),
            next_entity: 0,
            despawned: Vec::new(),
            parent_of: Ghost(Map::empty()),
        };
        assert(mapper@.children =~= Map::<u64, Seq<Record>>::empty());
        assert(mapper@.observers =~= Map::<(usize, u64), u64>::empty());
        mapper
    }

    /// Maps an observer to an entity using the entity id and a slot.
    ///
    /// The slot is empty until something is stored in it, and two calls with
    /// the same `slot` and `entity` reach the same slot. Storing into a slot
    /// that is taken overwrites it.
    pub fn map_observer(&mut self, slot: usize, entity: u64) -> (value: &mut Option<u64>)
        ensures
            *value == old(self)@.observer(slot, entity),
            final(self)@.observers =~= old(self)@.with_observer(
                slot,
                entity,
                *final(value),
            ).observers,
            final(self)@.children == old(self)@.children,
            final(self)@.parent == old(self)@.parent,
            final(self)@.added == old(self)@.added,
            final(self)@.next == old(self)@.next,
            final(self)@.despawned == old(self)@.despawned,
    {
        slot_or_empty(&mut self.observers, slot, entity)
    }

    /// Forgets which nodes were created or confirmed; called as a tick starts.
    pub fn clear_added_this_frame(&mut self)
        ensures
            final(self)@ == (MapperState { added: Set::empty(), ..old(self)@ }),
            old(self)@.wf() ==> final(self)@.wf(),
    {
        set_clear(&mut self.new_this_tick);
        proof {
            if old(self)@.wf() {
                old(self)@.lemma_same_records_wf(self@);
            }
        }
    }

    /// The bound below which every handle handed out so far lies.
    pub fn next_entity(&self) -> (next: u64)
        ensures
            next == self@.next,
    {
        self.next_entity
    }

    /// Hands out a handle for a node that is made outside of any record,
    /// such as the root of the tree.
    pub fn spawn_root(&mut self) -> (entity: u64)
        requires
            old(self)@.next < u64::MAX,
        ensures
            entity == old(self)@.next,
            final(self)@ == old(self)@.spawn_root(),
            old(self)@.wf() ==> final(self)@.wf(),
    {
        let entity = self.next_entity;
        self.next_entity = entity + 1;
        proof {
            if old(self)@.wf() {
                old(self)@.lemma_same_records_wf(self@);
            }
        }
        entity
    }

    /// Whether `entity` was created or confirmed since the set was cleared.
    pub fn added_this_frame(&self, entity: u64) -> (added: bool)
        ensures
            added == self@.added.contains(entity),
    {
        set_contains(&self.new_this_tick, entity)
    }

    /// The nodes recorded under `parent`, by position, whether or not they
    /// were confirmed this tick.
    ///
    /// A record stays until its position is declared with another key or
    /// the record is deleted: where a parent declares fewer children than
    /// before, the records behind the last declared one are still returned.
    pub fn get_all_children(&self, parent: u64) -> (children: Vec<u64>)
        ensures
            children@ == entities_of(self@.children_of(parent)),
    {
        let mut children: Vec<u64> = Vec::new();
        match table_get(&self.parent_entity_to_child, parent) {
            Some(mappings) => {
                let mut i: usize = 0;
                while i < mappings.len()
                    invariant
                        i <= mappings.len(),
                        children@.len() == i,
                        forall|j: int| 0 <= j < i ==> children@[j] == mappings@[j].entity,
                    decreases mappings.len() - i,
                {
                    children.push(mappings[i].entity);
                    i += 1;
                }
                assert(children@ =~= entities_of(self@.children_of(parent)));
            },
            None => {
                assert(children@ =~= entities_of(self@.children_of(parent)));
            },
        }
        children
    }

    /// The key of a declared child: its type name, followed by `-` and the
    /// explicit key where one is given.
    pub fn get_key(widget_name: String, child_key: Option<String>) -> (key: String)
        ensures
            key@ == widget_key(
                widget_name@,
                match child_key {
                    Some(k) => Some(k@),
                    None => None,
                },
            ),
    {
        match child_key {
            Some(k) => {
                proof {
                    reveal_strlit("-");
                }
                let mut key = widget_name;
                key.append("-");
                assert("-"@ =~= seq!['-']);
                key.append(k.as_str());
                key
            },
            None => widget_name,
        }
    }

    /// Removes every record rooted at `node`; the record that holds `node`
    /// itself stays.
    fn despawn(&mut self, node: u64)
        requires
            old(self)@.wf(),
        ensures
            final(self)@ == old(self)@.prune(node),
            final(self)@.wf(),
        decreases old(self)@.next - node,
    {
        let kids = self.get_all_children(node);
        let ghost s0 = self@;
        let ghost mut gone_sub: Set<u64> = Set::empty();
        let ghost mut gone_below: Set<u64> = Set::empty();
        let mut i: usize = 0;
        assert(s0.children.remove_keys(gone_sub) =~= s0.children);
        assert(s0.parent.remove_keys(gone_below) =~= s0.parent);
        while i < kids.len()
            invariant
                i <= kids.len(),
                s0.wf(),
                self@.wf(),
                s0 == old(self)@,
                kids@ == entities_of(s0.children_of(node)),
                self@ == (MapperState {
                    children: s0.children.remove_keys(gone_sub),
                    parent: s0.parent.remove_keys(gone_below),
                    ..s0
                }),
                closed_downwards(s0.parent, gone_below),
                forall|x: u64| gone_below.contains(x) ==> gone_sub.contains(x),
                forall|k: u64| gone_sub.contains(k) ==> is_ancestor(s0.parent, node, k),
                forall|j: int, k: u64|
                    0 <= j < i && in_subtree(s0.parent, #[trigger] kids@[j], k)
                        ==> #[trigger] gone_sub.contains(k),
            decreases kids.len() - i,
        {
            let kid = kids[i];
            proof {
                assert(s0.recorded_at(node, i as int, kid));
                s0.lemma_prune_step(gone_sub, gone_below, kid);
                assert forall|k: u64| in_subtree(s0.parent, kid, k) implies is_ancestor(
                    s0.parent,
                    node,
                    k,
                ) by {
                    lemma_below_child_is_below(s0.parent, node, kid, k);
                }
            }
            self.despawn(kid);
            proof {
                gone_sub = gone_sub.union(s0.subtree(kid));
                gone_below = gone_below.union(s0.below(kid));
            }
            i += 1;
        }
        let ghost mid = self@;
        table_remove(&mut self.parent_entity_to_child, node);
        self.parent_of = Ghost(s0.parent.remove_keys(s0.below(node)));
        proof {
            assert(self@.children =~= mid.children.remove(node));
            assert forall|k: u64| is_ancestor(s0.parent, node, k) implies gone_sub.contains(k) by {
                let c = lemma_below_is_below_child(s0.parent, node, k);
                let j = choose|j: int| s0.recorded_at(node, j, c);
                assert(kids@[j] == c);
            }
            assert(self@.children =~= s0.children.remove_keys(s0.subtree(node)));
            s0.lemma_prune_wf(node);
        }
    }

    /// Writes the record of `child_entity` at `child_position_index` under
    /// `parent`: over the record that is there, or behind the last one.
    fn add(&mut self, key: String, parent: u64, child_entity: u64, child_position_index: usize)
        requires
            child_position_index <= old(self)@.children_of(parent).len(),
        ensures
            final(self)@ == (MapperState {
                children: old(self)@.children.insert(
                    parent,
                    if child_position_index < old(self)@.children_of(parent).len() {
                        old(self)@.children_of(parent).update(
                            child_position_index as int,
                            Record { key: key@, entity: child_entity },
                        )
                    } else {
                        old(self)@.children_of(parent).push(
                            Record { key: key@, entity: child_entity },
                        )
                    },
                ),
                parent: old(self)@.parent.insert(child_entity, parent),
                ..old(self)@
            }),
    {
        let ghost before = self@;
        let mut mappings = match table_remove(&mut self.parent_entity_to_child, parent) {
            Some(mappings) => mappings,
            None => Vec::new(),
        };
        assert(records_of(mappings@) =~= before.children_of(parent));
        let mapping = EntityMappping { key, entity: child_entity };
        if child_position_index < mappings.len() {
            mappings.set(child_position_index, mapping);
            assert(records_of(mappings@) =~= before.children_of(parent).update(
                child_position_index as int,
                mapping@,
            ));
        } else {
            mappings.push(mapping);
            assert(records_of(mappings@) =~= before.children_of(parent).push(mapping@));
        }
        table_insert(&mut self.parent_entity_to_child, parent, mappings);
        self.parent_of = Ghost(self.parent_of@.insert(child_entity, parent));
        assert(self@.children =~= before.children.insert(parent, records_of(mappings@)));
    }

    /// Resolves the child declared at `child_position_index` under `parent`
    /// to its persistent node.
    ///
    /// Where the record at that position carries the key of the declared
    /// child, its node is confirmed and returned. Where it carries another
    /// key, the recorded node and everything below it are destroyed and a
    /// fresh node takes the position. Where there is no record, a fresh node
    /// is recorded. Every node returned is noted as added this tick.
    pub fn get_or_insert_entity_world(
        &mut self,
        widget_name: String,
        parent: u64,
        child_key: Option<String>,
        child_position_index: usize,
    ) -> (entity: u64)
        requires
            old(self)@.wf(),
            child_position_index <= old(self)@.children_of(parent).len(),
            old(self)@.fresh(parent) < u64::MAX,
        ensures
            final(self)@ == old(self)@.resolve(
                parent,
                child_position_index as int,
                widget_key(
                    widget_name@,
                    match child_key {
                        Some(k) => Some(k@),
                        None => None,
                    },
                ),
            ),
            entity == old(self)@.resolved(
                parent,
                child_position_index as int,
                widget_key(
                    widget_name@,
                    match child_key {
                        Some(k) => Some(k@),
                        None => None,
                    },
                ),
            ),
            final(self)@.wf(),
    {
        let ghost before = self@;
        let key = Self::get_key(widget_name, child_key);
        proof {
            before.lemma_resolve_wf(parent, child_position_index as int, key@);
        }
        let mut replaced: Option<u64> = None;
        match table_get(&self.parent_entity_to_child, parent) {
            Some(child_vec) => {
                assert(records_of(child_vec@) == before.children_of(parent));
                if child_position_index < child_vec.len() {
                    let mapping = &child_vec[child_position_index];
                    assert(mapping@ == before.children_of(parent)[child_position_index as int]);
                    if key == mapping.key {
                        let entity = mapping.entity;
                        set_insert(&mut self.new_this_tick, entity);
                        return entity;
                    } else {
                        replaced = Some(mapping.entity);
                    }
                }
            },
            None => {},
        }
        match replaced {
            Some(old_entity) => {
                proof {
                    assert(before.recorded_at(parent, child_position_index as int, old_entity));
                    if is_ancestor(before.parent, old_entity, parent) {
                        lemma_ancestor_is_smaller(before.parent, old_entity, parent);
                    }
                }
                self.despawn(old_entity);
                self.parent_of = Ghost(self.parent_of@.remove(old_entity));
                self.despawned.push(old_entity);
                assert(self@.parent =~= before.parent.remove_keys(before.subtree(old_entity)));
                assert(self@.children_of(parent) == before.children_of(parent));
            },
            None => {},
        }
        let child_entity = if parent < self.next_entity {
            self.next_entity
        } else {
            parent + 1
        };
        self.next_entity = child_entity + 1;
        self.add(key, parent, child_entity, child_position_index);
        set_insert(&mut self.new_this_tick, child_entity);
        child_entity
    }

    /// Deletes the record of `entity` under `parent`; the records behind it
    /// move up by one position. Nothing happens where `parent` records no
    /// such node.
    pub fn remove_by_entity_id(&mut self, parent: u64, entity: u64)
        requires
            old(self)@.wf(),
        ensures
            final(self)@ == old(self)@.remove_mapping(parent, entity),
            final(self)@.wf(),
    {
        let ghost before = self@;
        proof {
            before.lemma_remove_mapping_wf(parent, entity);
        }
        let mut found: Option<usize> = None;
        match table_get(&self.parent_entity_to_child, parent) {
            Some(children) => {
                assert(records_of(children@) == before.children_of(parent));
                let mut i: usize = 0;
                while i < children.len() && found.is_none()
                    invariant
                        i <= children.len(),
                        records_of(children@) == before.children[parent],
                        before.children.contains_key(parent),
                        match found {
                            Some(at) => before.first_position(parent, at as int, entity),
                            None => forall|j: int|
                                0 <= j < i ==> before.children[parent][j].entity != entity,
                        },
                    decreases children.len() - i + if found.is_none() { 1int } else { 0int },
                {
                    assert(children@[i as int]@ == before.children[parent][i as int]);
                    if children[i].entity == entity {
                        found = Some(i);
                    } else {
                        i += 1;
                    }
                }
            },
            None => {},
        }
        match found {
            Some(index) => {
                proof {
                    let at = choose|i: int| before.first_position(parent, i, entity);
                    assert(at == index);
                }
                let mut mappings = match table_remove(&mut self.parent_entity_to_child, parent) {
                    Some(mappings) => mappings,
                    None => Vec::new(),
                };
                mappings.remove(index);
                assert(records_of(mappings@) =~= before.children[parent].remove(index as int));
                table_insert(&mut self.parent_entity_to_child, parent, mappings);
                self.parent_of = Ghost(self.parent_of@.remove(entity));
                assert(self@.children =~= before.children.insert(
                    parent,
                    before.children[parent].remove(index as int),
                ));
            },
            None => {
                assert(!exists|i: int| before.first_position(parent, i, entity)) by {
                    if exists|i: int| before.first_position(parent, i, entity) {
                        let at = choose|i: int| before.first_position(parent, i, entity);
                        assert(before.children[parent][at].entity == entity);
                    }
                }
            },
        }
    }

    /// Hands over the nodes destroyed by replacements since the last call,
    /// oldest first, and forgets them. Whoever owns the nodes' attached
    /// state destroys each of them together with what stands below it.
    pub fn take_despawned(&mut self) -> (despawned: Vec<u64>)
        ensures
            despawned@ == old(self)@.despawned,
            final(self)@ == (MapperState { despawned: Seq::empty(), ..old(self)@ }),
            old(self)@.wf() ==> final(self)@.wf(),
    {
        let mut despawned: Vec<u64> = Vec::new();
        std::mem::swap(&mut despawned, &mut self.despawned);
        proof {
            if old(self)@.wf() {
                old(self)@.lemma_same_records_wf(self@);
            }
        }
        despawned
    }
}

} // verus!
