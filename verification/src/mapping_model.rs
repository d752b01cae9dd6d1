//! The mathematical model of the reconciler's table, and what each
//! operation does to it.
use vstd::prelude::*;

verus! {

/// What one mapping record says: the key it was declared with and the node
/// that stands for it.
pub ghost struct Record {
    pub key: Seq<char>,
    pub entity: u64,
}

/// The mathematical state of a [`WidgetMapper`].
pub ghost struct MapperState {
    /// The records of each parent, by position.
    pub children: Map<u64, Seq<Record>>,
    /// The parent under which each recorded node stands.
    pub parent: Map<u64, u64>,
    /// The nodes created or confirmed since the set was last cleared.
    pub added: Set<u64>,
    /// A strict upper bound of every handle handed out so far.
    pub next: u64,
    /// The nodes destroyed by a replacement, oldest first. Destroying a node
    /// destroys what stands below it.
    pub despawned: Seq<u64>,
    /// What each event slot `(slot, entity)` that is taken holds.
    pub observers: Map<(usize, u64), u64>,
}

/// The key of a declared child: its type name, followed by `-` and the
/// explicit key where one is given.
pub open spec fn widget_key(widget_name: Seq<char>, child_key: Option<Seq<char>>) -> Seq<char> {
    match child_key {
        Some(k) => widget_name + seq!['-'] + k,
        None => widget_name,
    }
}

/// `a` stands strictly above `b` in the chain of parents.
pub open spec fn is_ancestor(parent: Map<u64, u64>, a: u64, b: u64) -> bool
    decreases b,
{
    parent.contains_key(b) && parent[b] < b && (parent[b] == a || is_ancestor(
        parent,
        a,
        parent[b],
    ))
}

/// `b` is `a` or stands below it.
pub open spec fn in_subtree(parent: Map<u64, u64>, a: u64, b: u64) -> bool {
    a == b || is_ancestor(parent, a, b)
}

/// The handles of a sequence of records, in order.
pub open spec fn entities_of(records: Seq<Record>) -> Seq<u64> {
    Seq::new(records.len(), |i: int| records[i].entity)
}

impl MapperState {
    /// The state of a mapper that has recorded nothing.
    pub open spec fn empty() -> MapperState {
        MapperState {
            children: Map::empty(),
            parent: Map::empty(),
            added: Set::empty(),
            next: 0,
            despawned: Seq::empty(),
            observers: Map::empty(),
        }
    }

    /// Position `i` under `p` holds a record of node `c`.
    pub open spec fn recorded_at(self, p: u64, i: int, c: u64) -> bool {
        self.children.contains_key(p) && 0 <= i < self.children[p].len()
            && self.children[p][i].entity == c
    }

    /// The records form a forest: every recorded node has one record, stands
    /// under the parent that records it, and carries a larger handle than its
    /// parent; no handle reaches `next`.
    pub open spec fn wf(self) -> bool {
        &&& forall|p: u64, i: int, c: u64| #[trigger]
            self.recorded_at(p, i, c) ==> self.parent.contains_key(c) && self.parent[c] == p
        &&& forall|c: u64| #[trigger]
            self.parent.contains_key(c) ==> self.parent[c] < c < self.next && exists|i: int|
                self.recorded_at(self.parent[c], i, c)
        &&& forall|p: u64, i: int, j: int, c: u64| #[trigger]
            self.recorded_at(p, i, c) && #[trigger] self.recorded_at(p, j, c) ==> i == j
        &&& forall|p: u64| #[trigger] self.children.contains_key(p) ==> p < self.next
    }

    /// The records under `p`, by position; empty where `p` has none.
    pub open spec fn children_of(self, p: u64) -> Seq<Record> {
        if self.children.contains_key(p) {
            self.children[p]
        } else {
            Seq::empty()
        }
    }

    /// `n` and every node below it.
    pub open spec fn subtree(self, n: u64) -> Set<u64> {
        Set::new(|k: u64| in_subtree(self.parent, n, k))
    }

    /// Every node strictly below `n`.
    pub open spec fn below(self, n: u64) -> Set<u64> {
        Set::new(|k: u64| is_ancestor(self.parent, n, k))
    }

    /// The state once every record rooted at `n` is gone. The record that
    /// holds `n` itself stays.
    pub open spec fn prune(self, n: u64) -> MapperState {
        MapperState {
            children: self.children.remove_keys(self.subtree(n)),
            parent: self.parent.remove_keys(self.below(n)),
            ..self
        }
    }

    /// The handle that the next node created under `parent` gets: larger than
    /// every handle handed out so far, and larger than `parent`.
    pub open spec fn fresh(self, parent: u64) -> int {
        if parent < self.next {
            self.next as int
        } else {
            parent + 1
        }
    }

    /// The state after a handle is handed out for a node that no record
    /// holds, such as the root.
    pub open spec fn spawn_root(self) -> MapperState {
        MapperState { next: (self.next + 1) as u64, ..self }
    }

    /// The record at `index` under `parent` carries `key`.
    pub open spec fn matches(self, parent: u64, index: int, key: Seq<char>) -> bool {
        0 <= index < self.children_of(parent).len() && self.children_of(parent)[index].key == key
    }

    /// The node that resolving `key` at `(parent, index)` yields.
    pub open spec fn resolved(self, parent: u64, index: int, key: Seq<char>) -> u64 {
        if self.matches(parent, index, key) {
            self.children_of(parent)[index].entity
        } else {
            self.fresh(parent) as u64
        }
    }

    /// The state after resolving `key` at `(parent, index)`.
    ///
    /// A matching record is confirmed and nothing else changes. A record with
    /// another key is overwritten by one of a fresh node, after the old node
    /// and every record rooted at it are gone. Where there is no record, one
    /// of a fresh node is appended.
    pub open spec fn resolve(self, parent: u64, index: int, key: Seq<char>) -> MapperState {
        let records = self.children_of(parent);
        if self.matches(parent, index, key) {
            MapperState { added: self.added.insert(records[index].entity), ..self }
        } else {
            let fresh = self.fresh(parent) as u64;
            let record = Record { key, entity: fresh };
            if 0 <= index < records.len() {
                let old = records[index].entity;
                MapperState {
                    children: self.children.remove_keys(self.subtree(old)).insert(
                        parent,
                        records.update(index, record),
                    ),
                    parent: self.parent.remove_keys(self.subtree(old)).insert(fresh, parent),
                    added: self.added.insert(fresh),
                    next: (fresh + 1) as u64,
                    despawned: self.despawned.push(old),
                    observers: self.observers,
                }
            } else {
                MapperState {
                    children: self.children.insert(parent, records.push(record)),
                    parent: self.parent.insert(fresh, parent),
                    added: self.added.insert(fresh),
                    next: (fresh + 1) as u64,
                    despawned: self.despawned,
                    observers: self.observers,
                }
            }
        }
    }

    /// What the event slot `(slot, entity)` holds; `None` while it is empty.
    pub open spec fn observer(self, slot: usize, entity: u64) -> Option<u64> {
        self.observers.get((slot, entity))
    }

    /// The state after `value` is left in the event slot `(slot, entity)`.
    pub open spec fn with_observer(
        self,
        slot: usize,
        entity: u64,
        value: Option<u64>,
    ) -> MapperState {
        MapperState {
            observers: match value {
                Some(observer) => self.observers.insert((slot, entity), observer),
                None => self.observers.remove((slot, entity)),
            },
            ..self
        }
    }

    /// `index` is the first position under `parent` that records `entity`.
    pub open spec fn first_position(self, parent: u64, index: int, entity: u64) -> bool {
        &&& self.recorded_at(parent, index, entity)
        &&& forall|j: int| 0 <= j < index ==> self.children[parent][j].entity != entity
    }

    /// The state after the record of `entity` under `parent` is deleted. The
    /// records behind it move up by one position; records rooted at `entity`
    /// stay.
    pub open spec fn remove_mapping(self, parent: u64, entity: u64) -> MapperState {
        if exists|i: int| self.first_position(parent, i, entity) {
            let i = choose|i: int| self.first_position(parent, i, entity);
            MapperState {
                children: self.children.insert(parent, self.children[parent].remove(i)),
                parent: self.parent.remove(entity),
                ..self
            }
        } else {
            self
        }
    }
}

/// An ancestor carries a smaller handle than what stands below it.
pub proof fn lemma_ancestor_is_smaller(parent: Map<u64, u64>, a: u64, b: u64)
    requires
        is_ancestor(parent, a, b),
    ensures
        a < b,
    decreases b,
{
    if parent[b] != a {
        lemma_ancestor_is_smaller(parent, a, parent[b]);
    }
}

/// What stands in the subtree of a child of `a` stands below `a`.
pub proof fn lemma_below_child_is_below(parent: Map<u64, u64>, a: u64, c: u64, b: u64)
    requires
        parent.contains_key(c),
        parent[c] == a,
        a < c,
        in_subtree(parent, c, b),
    ensures
        is_ancestor(parent, a, b),
    decreases b,
{
    assert(is_ancestor(parent, a, c));
    if b != c && parent[b] != c {
        lemma_below_child_is_below(parent, a, c, parent[b]);
    }
}

/// What stands below `a` stands in the subtree of one of the children of `a`.
pub proof fn lemma_below_is_below_child(parent: Map<u64, u64>, a: u64, b: u64) -> (c: u64)
    requires
        is_ancestor(parent, a, b),
    ensures
        parent.contains_key(c),
        parent[c] == a,
        a < c,
        in_subtree(parent, c, b),
    decreases b,
{
    if parent[b] == a {
        b
    } else {
        lemma_below_is_below_child(parent, a, parent[b])
    }
}

/// A set of nodes that holds every child of each of its members.
pub open spec fn closed_downwards(parent: Map<u64, u64>, gone: Set<u64>) -> bool {
    forall|x: u64| #[trigger]
        parent.contains_key(x) && gone.contains(parent[x]) ==> gone.contains(x)
}

/// Taking a downwards closed set of nodes out of the parent map leaves the
/// chains of the other nodes as they were.
pub proof fn lemma_ancestor_after_removal(parent: Map<u64, u64>, gone: Set<u64>, a: u64, b: u64)
    requires
        closed_downwards(parent, gone),
        !gone.contains(b),
    ensures
        is_ancestor(parent.remove_keys(gone), a, b) == is_ancestor(parent, a, b),
    decreases b,
{
    if parent.contains_key(b) && parent[b] < b {
        assert(parent.remove_keys(gone).contains_key(b));
        if parent[b] != a {
            lemma_ancestor_after_removal(parent, gone, a, parent[b]);
        }
    }
}

impl MapperState {
    /// Pruning keeps the records a forest.
    pub proof fn lemma_prune_wf(self, n: u64)
        requires
            self.wf(),
        ensures
            self.prune(n).wf(),
    {
        let t = self.prune(n);
        assert forall|p: u64, i: int, c: u64| #[trigger] t.recorded_at(p, i, c) implies
            t.parent.contains_key(c) && t.parent[c] == p by {
            assert(self.recorded_at(p, i, c));
            if is_ancestor(self.parent, n, c) {
                assert(in_subtree(self.parent, n, p));
            }
        }
        assert forall|c: u64| #[trigger] t.parent.contains_key(c) implies t.parent[c] < c < t.next
            && exists|i: int| t.recorded_at(t.parent[c], i, c) by {
            let i = choose|i: int| self.recorded_at(self.parent[c], i, c);
            assert(!in_subtree(self.parent, n, self.parent[c]));
            assert(t.recorded_at(t.parent[c], i, c));
        }
        assert forall|p: u64, i: int, j: int, c: u64| #[trigger]
            t.recorded_at(p, i, c) && #[trigger] t.recorded_at(p, j, c) implies i == j by {
            assert(self.recorded_at(p, i, c) && self.recorded_at(p, j, c));
        }
    }

    /// Pruning at `kid` after some subtrees are gone is pruning the state
    /// that was there before of those subtrees and of the one of `kid`.
    pub proof fn lemma_prune_step(self, gone_sub: Set<u64>, gone_below: Set<u64>, kid: u64)
        requires
            self.wf(),
            closed_downwards(self.parent, gone_below),
            forall|x: u64| gone_below.contains(x) ==> gone_sub.contains(x),
        ensures
            ({
                let prev = MapperState {
                    children: self.children.remove_keys(gone_sub),
                    parent: self.parent.remove_keys(gone_below),
                    ..self
                };
                &&& prev.prune(kid).children == self.children.remove_keys(
                    gone_sub.union(self.subtree(kid)),
                )
                &&& prev.prune(kid).parent == self.parent.remove_keys(
                    gone_below.union(self.below(kid)),
                )
            }),
            closed_downwards(self.parent, gone_below.union(self.below(kid))),
    {
        let prev = MapperState {
            children: self.children.remove_keys(gone_sub),
            parent: self.parent.remove_keys(gone_below),
            ..self
        };
        assert forall|k: u64| !gone_below.contains(k) implies is_ancestor(prev.parent, kid, k)
            == is_ancestor(self.parent, kid, k) by {
            lemma_ancestor_after_removal(self.parent, gone_below, kid, k);
        }
        assert(prev.prune(kid).children =~= self.children.remove_keys(
            gone_sub.union(self.subtree(kid)),
        ));
        assert(prev.prune(kid).parent =~= self.parent.remove_keys(
            gone_below.union(self.below(kid)),
        ));
    }
}

impl MapperState {
    /// A state with the same records and no smaller bound is a forest too.
    pub proof fn lemma_same_records_wf(self, other: MapperState)
        requires
            self.wf(),
            other.children == self.children,
            other.parent == self.parent,
            other.next >= self.next,
        ensures
            other.wf(),
    {
        assert forall|p: u64, i: int, c: u64| #[trigger] other.recorded_at(p, i, c) implies
            other.parent.contains_key(c) && other.parent[c] == p by {
            assert(self.recorded_at(p, i, c));
        }
        assert forall|c: u64| #[trigger] other.parent.contains_key(c) implies other.parent[c] < c
            < other.next && exists|i: int| other.recorded_at(other.parent[c], i, c) by {
            let i = choose|i: int| self.recorded_at(self.parent[c], i, c);
            assert(other.recorded_at(other.parent[c], i, c));
        }
        assert forall|p: u64, i: int, j: int, c: u64| #[trigger]
            other.recorded_at(p, i, c) && #[trigger] other.recorded_at(p, j, c) implies i
            == j by {
            assert(self.recorded_at(p, i, c) && self.recorded_at(p, j, c));
        }
    }

    /// Resolving keeps the records a forest.
    pub proof fn lemma_resolve_wf(self, parent: u64, index: int, key: Seq<char>)
        requires
            self.wf(),
            0 <= index <= self.children_of(parent).len(),
            self.fresh(parent) < u64::MAX,
        ensures
            self.resolve(parent, index, key).wf(),
    {
        let t = self.resolve(parent, index, key);
        let records = self.children_of(parent);
        if self.matches(parent, index, key) {
            self.lemma_same_records_wf(t);
        } else {
            let fresh = self.fresh(parent) as u64;
            if index < records.len() {
                let old = records[index].entity;
                assert(self.recorded_at(parent, index, old));
                let mid = self.prune(old);
                self.lemma_prune_wf(old);
                assert(!in_subtree(self.parent, old, parent)) by {
                    if is_ancestor(self.parent, old, parent) {
                        lemma_ancestor_is_smaller(self.parent, old, parent);
                    }
                }
                assert(mid.children[parent] == records);
                assert forall|p: u64, i: int, c: u64| #[trigger] t.recorded_at(p, i, c) implies
                    t.parent.contains_key(c) && t.parent[c] == p by {
                    if p == parent && i == index {
                    } else {
                        assert(mid.recorded_at(p, i, c));
                        assert(self.recorded_at(p, i, c));
                        if c == old {
                            assert(self.recorded_at(parent, index, old));
                        }
                    }
                }
                assert forall|c: u64| #[trigger] t.parent.contains_key(c) implies t.parent[c] < c
                    < t.next && exists|i: int| t.recorded_at(t.parent[c], i, c) by {
                    if c == fresh {
                        assert(t.recorded_at(parent, index, c));
                    } else {
                        assert(mid.parent.contains_key(c));
                        let i = choose|i: int| mid.recorded_at(mid.parent[c], i, c);
                        assert(self.recorded_at(self.parent[c], i, c));
                        assert(t.recorded_at(t.parent[c], i, c));
                    }
                }
                assert forall|p: u64, i: int, j: int, c: u64| #[trigger]
                    t.recorded_at(p, i, c) && #[trigger] t.recorded_at(p, j, c) implies i
                    == j by {
                    if c != fresh {
                        assert(self.recorded_at(p, i, c) && self.recorded_at(p, j, c));
                    } else {
                        if !(p == parent && i == index) {
                            assert(self.recorded_at(p, i, c));
                        }
                        if !(p == parent && j == index) {
                            assert(self.recorded_at(p, j, c));
                        }
                    }
                }
            } else {
                assert forall|p: u64, i: int, c: u64| #[trigger] t.recorded_at(p, i, c) implies
                    t.parent.contains_key(c) && t.parent[c] == p by {
                    if p == parent && i == index {
                    } else {
                        assert(self.recorded_at(p, i, c));
                    }
                }
                assert forall|c: u64| #[trigger] t.parent.contains_key(c) implies t.parent[c] < c
                    < t.next && exists|i: int| t.recorded_at(t.parent[c], i, c) by {
                    if c == fresh {
                        assert(t.recorded_at(parent, index, c));
                    } else {
                        let i = choose|i: int| self.recorded_at(self.parent[c], i, c);
                        assert(t.recorded_at(t.parent[c], i, c));
                    }
                }
                assert forall|p: u64, i: int, j: int, c: u64| #[trigger]
                    t.recorded_at(p, i, c) && #[trigger] t.recorded_at(p, j, c) implies i
                    == j by {
                    if c != fresh {
                        assert(self.recorded_at(p, i, c) && self.recorded_at(p, j, c));
                    } else {
                        if !(p == parent && i == index) {
                            assert(self.recorded_at(p, i, c));
                        }
                        if !(p == parent && j == index) {
                            assert(self.recorded_at(p, j, c));
                        }
                    }
                }
            }
        }
    }

    /// Deleting a record keeps the records a forest.
    pub proof fn lemma_remove_mapping_wf(self, parent: u64, entity: u64)
        requires
            self.wf(),
        ensures
            self.remove_mapping(parent, entity).wf(),
    {
        let t = self.remove_mapping(parent, entity);
        if exists|i: int| self.first_position(parent, i, entity) {
            let at = choose|i: int| self.first_position(parent, i, entity);
            assert(self.recorded_at(parent, at, entity));
            assert forall|p: u64, i: int, c: u64| #[trigger] t.recorded_at(p, i, c) implies
                t.parent.contains_key(c) && t.parent[c] == p by {
                if p == parent {
                    let k = if i < at {
                        i
                    } else {
                        i + 1
                    };
                    assert(self.recorded_at(p, k, c));
                } else {
                    assert(self.recorded_at(p, i, c));
                }
            }
            assert forall|c: u64| #[trigger] t.parent.contains_key(c) implies t.parent[c] < c
                < t.next && exists|i: int| t.recorded_at(t.parent[c], i, c) by {
                let i = choose|i: int| self.recorded_at(self.parent[c], i, c);
                if self.parent[c] == parent {
                    let k = if i < at {
                        i
                    } else {
                        i - 1
                    };
                    assert(t.recorded_at(t.parent[c], k, c));
                } else {
                    assert(t.recorded_at(t.parent[c], i, c));
                }
            }
            assert forall|p: u64, i: int, j: int, c: u64| #[trigger]
                t.recorded_at(p, i, c) && #[trigger] t.recorded_at(p, j, c) implies i == j by {
                if p == parent {
                    let ki = if i < at {
                        i
                    } else {
                        i + 1
                    };
                    let kj = if j < at {
                        j
                    } else {
                        j + 1
                    };
                    assert(self.recorded_at(p, ki, c) && self.recorded_at(p, kj, c));
                } else {
                    assert(self.recorded_at(p, i, c) && self.recorded_at(p, j, c));
                }
            }
        }
    }
}

} // verus!
