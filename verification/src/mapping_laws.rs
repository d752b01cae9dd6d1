//! What holds of reconciliation whatever is declared: nodes are kept while
//! their keys stay, replaced when a key changes, and never handed out again
//! once they are destroyed.
use crate::mapping_model::entities_of;
use crate::mapping_model::in_subtree;
use crate::mapping_model::is_ancestor;
use crate::mapping_model::lemma_ancestor_is_smaller;
use crate::mapping_model::MapperState;
use crate::mapping_model::Record;
use vstd::prelude::*;

verus! {

/// One declared child: the parent it is declared under, its position among
/// the children of that parent, and its key.
pub ghost struct Declaration {
    pub parent: u64,
    pub index: int,
    pub key: Seq<char>,
}

impl MapperState {
    /// The state after the children of `calls` are resolved in order.
    pub open spec fn tick(self, calls: Seq<Declaration>) -> MapperState
        decreases calls.len(),
    {
        if calls.len() == 0 {
            self
        } else {
            let call = calls.last();
            self.tick(calls.drop_last()).resolve(call.parent, call.index, call.key)
        }
    }

    /// The node that child `i` of `calls` is resolved to when the children of
    /// `calls` are resolved in order.
    pub open spec fn tick_handle(self, calls: Seq<Declaration>, i: int) -> u64 {
        self.tick(calls.take(i)).resolved(calls[i].parent, calls[i].index, calls[i].key)
    }

    /// `h` was handed out once and is recorded nowhere.
    pub open spec fn retired(self, h: u64) -> bool {
        h < self.next && !self.parent.contains_key(h)
    }

    /// The same records, bound, destroyed nodes and event slots.
    pub open spec fn same_records(self, other: MapperState) -> bool {
        &&& self.children == other.children
        &&& self.parent == other.parent
        &&& self.next == other.next
        &&& self.despawned == other.despawned
        &&& self.observers == other.observers
    }

    /// An event slot holds what was last left in it, and leaving in it what
    /// it holds already changes nothing: asking for the same slot twice
    /// reaches the same slot, and makes no second one.
    pub proof fn lemma_event_slot_is_stable(self, slot: usize, entity: u64, value: Option<u64>)
        ensures
            self.with_observer(slot, entity, value).observer(slot, entity) == value,
            self.with_observer(slot, entity, self.observer(slot, entity)) == self,
            forall|s: usize, e: u64|
                (s != slot || e != entity) ==> #[trigger] self.with_observer(
                    slot,
                    entity,
                    value,
                ).observer(s, e) == self.observer(s, e),
            self.with_observer(slot, entity, value).with_observer(
                slot,
                entity,
                self.with_observer(slot, entity, value).observer(slot, entity),
            ) == self.with_observer(slot, entity, value),
    {
        let kept = self.with_observer(slot, entity, self.observer(slot, entity));
        assert(kept.observers =~= self.observers);
        let set = self.with_observer(slot, entity, value);
        let again = set.with_observer(slot, entity, set.observer(slot, entity));
        assert(again.observers =~= set.observers);
    }

    /// Resolving a child whose key is recorded at its position returns the
    /// recorded node and changes no record: the node is noted as added, and
    /// that is all.
    pub proof fn lemma_matching_child_is_kept(self, parent: u64, index: int, key: Seq<char>)
        requires
            self.matches(parent, index, key),
        ensures
            self.resolved(parent, index, key) == self.children_of(parent)[index].entity,
            self.resolve(parent, index, key) == (MapperState {
                added: self.added.insert(self.children_of(parent)[index].entity),
                ..self
            }),
    {
    }

    /// Resolving the same child twice in a row returns the same node twice,
    /// and the second call changes nothing.
    pub proof fn lemma_resolve_again(self, parent: u64, index: int, key: Seq<char>)
        requires
            self.wf(),
            0 <= index <= self.children_of(parent).len(),
            self.fresh(parent) < u64::MAX,
        ensures
            self.resolve(parent, index, key).matches(parent, index, key),
            self.resolve(parent, index, key).resolved(parent, index, key) == self.resolved(
                parent,
                index,
                key,
            ),
            self.resolve(parent, index, key).resolve(parent, index, key) == self.resolve(
                parent,
                index,
                key,
            ),
    {
        let t = self.resolve(parent, index, key);
        let h = self.resolved(parent, index, key);
        assert(t.added.insert(h) =~= t.added);
    }

    /// A tick that declares only children whose keys are recorded at their
    /// positions returns the recorded node for each of them, and changes no
    /// record.
    pub proof fn lemma_unchanged_tick(self, calls: Seq<Declaration>)
        requires
            forall|i: int|
                0 <= i < calls.len() ==> self.matches(
                    (#[trigger] calls[i]).parent,
                    calls[i].index,
                    calls[i].key,
                ),
        ensures
            self.tick(calls).same_records(self),
            forall|i: int|
                0 <= i < calls.len() ==> #[trigger] self.tick_handle(calls, i) == self.children_of(
                    calls[i].parent,
                )[calls[i].index].entity,
            forall|h: u64|
                self.tick(calls).added.contains(h) <==> self.added.contains(h) || exists|i: int|
                    0 <= i < calls.len() && #[trigger] self.tick_handle(calls, i) == h,
        decreases calls.len(),
    {
        if calls.len() > 0 {
            let front = calls.drop_last();
            let call = calls.last();
            self.lemma_unchanged_tick(front);
            let mid = self.tick(front);
            assert(mid.matches(call.parent, call.index, call.key)) by {
                assert(self.matches(
                    calls[calls.len() - 1].parent,
                    calls[calls.len() - 1].index,
                    calls[calls.len() - 1].key,
                ));
            }
            assert forall|i: int| 0 <= i < calls.len() implies #[trigger] self.tick_handle(calls, i)
                == self.children_of(calls[i].parent)[calls[i].index].entity by {
                if i < calls.len() - 1 {
                    assert(calls.take(i) =~= front.take(i));
                    assert(self.tick_handle(front, i) == self.tick_handle(calls, i));
                } else {
                    assert(calls.take(i) =~= front);
                }
            }
            let last = calls.len() - 1;
            let after = self.tick(calls);
            mid.lemma_matching_child_is_kept(call.parent, call.index, call.key);
            let kept = mid.children_of(call.parent)[call.index].entity;
            assert(after.added == mid.added.insert(kept));
            assert(calls.take(last) =~= front);
            assert(self.tick_handle(calls, last) == kept);
            assert forall|h: u64| after.added.contains(h) implies self.added.contains(h)
                || exists|i: int|
                0 <= i < calls.len() && #[trigger] self.tick_handle(calls, i) == h by {
                if h == kept {
                    assert(self.tick_handle(calls, last) == h);
                } else if !self.added.contains(h) {
                    assert(mid.added.contains(h));
                    let i = choose|i: int|
                        0 <= i < front.len() && #[trigger] self.tick_handle(front, i) == h;
                    assert(calls.take(i) =~= front.take(i));
                    assert(self.tick_handle(calls, i) == h);
                }
            }
            assert forall|h: u64|
                self.added.contains(h) || (exists|i: int|
                    0 <= i < calls.len() && #[trigger] self.tick_handle(calls, i)
                        == h) implies after.added.contains(h) by {
                if self.added.contains(h) {
                    assert(mid.added.contains(h));
                } else {
                    let i = choose|i: int|
                        0 <= i < calls.len() && #[trigger] self.tick_handle(calls, i) == h;
                    if i < last {
                        assert(calls.take(i) =~= front.take(i));
                        assert(self.tick_handle(front, i) == h);
                        assert(mid.added.contains(h));
                    }
                }
            }
        }
    }

    /// A child whose key differs from the one recorded at its position gets
    /// a node that was never handed out before, with nothing recorded below
    /// it. The node that was recorded there is destroyed with its whole
    /// subtree: none of them is recorded any more. The records of the other
    /// positions under the same parent, and those of every node outside
    /// that subtree, stay as they are.
    pub proof fn lemma_changed_key_replaces_child(self, parent: u64, index: int, key: Seq<char>)
        requires
            self.wf(),
            0 <= index < self.children_of(parent).len(),
            self.children_of(parent)[index].key != key,
            self.fresh(parent) < u64::MAX,
        ensures
            ({
                let old = self.children_of(parent)[index].entity;
                let new = self.resolved(parent, index, key);
                let after = self.resolve(parent, index, key);
                &&& new >= self.next
                &&& new != old
                &&& forall|c: u64| self.parent.contains_key(c) ==> c != new
                &&& after.children_of(new) == Seq::<Record>::empty()
                &&& after.children_of(parent) == self.children_of(parent).update(
                    index,
                    Record { key, entity: new },
                )
                &&& forall|d: u64| #[trigger]
                    in_subtree(self.parent, old, d) ==> !after.parent.contains_key(d)
                        && !after.children.contains_key(d) && after.retired(d)
                &&& forall|n: u64|
                    !in_subtree(self.parent, old, n) && n != parent ==> #[trigger] after.children_of(
                        n,
                    ) == self.children_of(n)
                &&& after.despawned == self.despawned.push(old)
                &&& after.added == self.added.insert(new)
            }),
    {
        let old = self.children_of(parent)[index].entity;
        let new = self.resolved(parent, index, key);
        let after = self.resolve(parent, index, key);
        assert(self.recorded_at(parent, index, old));
        assert forall|d: u64| #[trigger] in_subtree(self.parent, old, d) implies d < self.next && d
            != parent by {
            if d != old {
                lemma_ancestor_is_smaller(self.parent, old, d);
            }
        }
    }

    /// A node that is retired stays retired, and no child is ever resolved
    /// to it: what was destroyed does not come back.
    pub proof fn lemma_retired_for_good(self, parent: u64, index: int, key: Seq<char>, h: u64)
        requires
            self.wf(),
            0 <= index <= self.children_of(parent).len(),
            self.fresh(parent) < u64::MAX,
            self.retired(h),
        ensures
            self.resolve(parent, index, key).retired(h),
            self.resolved(parent, index, key) != h,
    {
        if self.matches(parent, index, key) {
            assert(self.recorded_at(parent, index, self.children_of(parent)[index].entity));
        }
    }

    /// A handle that is handed out for a node outside of any record was
    /// never handed out before, and no child is resolved to it later.
    pub proof fn lemma_spawned_root_is_fresh(self, parent: u64, index: int, key: Seq<char>)
        requires
            self.wf(),
            self.next < u64::MAX,
            0 <= index <= self.children_of(parent).len(),
            self.spawn_root().fresh(parent) < u64::MAX,
        ensures
            forall|c: u64| self.parent.contains_key(c) ==> c != self.next,
            self.spawn_root().wf(),
            self.spawn_root().retired(self.next),
            self.spawn_root().resolved(parent, index, key) != self.next,
    {
        self.lemma_same_records_wf(self.spawn_root());
        self.spawn_root().lemma_retired_for_good(parent, index, key, self.next);
    }

    /// Deleting a record hands no retired node out again either.
    pub proof fn lemma_retired_after_remove(self, parent: u64, entity: u64, h: u64)
        requires
            self.retired(h),
        ensures
            self.remove_mapping(parent, entity).retired(h),
    {
    }

    /// A node that a child is resolved to is recorded at the position of
    /// that child, under its key.
    pub proof fn lemma_resolved_is_recorded(self, parent: u64, index: int, key: Seq<char>)
        requires
            self.wf(),
            0 <= index <= self.children_of(parent).len(),
            self.fresh(parent) < u64::MAX,
        ensures
            self.resolve(parent, index, key).children_of(parent)[index] == (Record {
                key,
                entity: self.resolved(parent, index, key),
            }),
            self.resolve(parent, index, key).added.contains(self.resolved(parent, index, key)),
            self.resolve(parent, index, key).children_of(parent).len() == if index
                < self.children_of(parent).len() {
                self.children_of(parent).len()
            } else {
                self.children_of(parent).len() + 1
            },
    {
    }
}

/// The children declared under one parent, by position: child `j` has the
/// key `keys[j]`.
pub open spec fn siblings(parent: u64, keys: Seq<Seq<char>>) -> Seq<Declaration> {
    Seq::new(keys.len(), |j: int| Declaration { parent, index: j, key: keys[j] })
}

impl MapperState {
    /// After the children of one parent are resolved in order, each
    /// position that was declared records the declared key and the node
    /// that the child was resolved to; the positions behind them are as
    /// they were.
    pub proof fn lemma_siblings_are_recorded(self, parent: u64, keys: Seq<Seq<char>>)
        requires
            self.wf(),
            self.fresh(parent) + keys.len() < u64::MAX,
        ensures
            ({
                let after = self.tick(siblings(parent, keys));
                let before = self.children_of(parent);
                &&& after.wf()
                &&& after.children_of(parent).len() == if keys.len() < before.len() {
                    before.len()
                } else {
                    keys.len()
                }
                &&& forall|j: int|
                    0 <= j < keys.len() ==> #[trigger] after.children_of(parent)[j] == (Record {
                        key: keys[j],
                        entity: self.tick_handle(siblings(parent, keys), j),
                    })
                &&& forall|j: int|
                    keys.len() <= j < before.len() ==> #[trigger] after.children_of(parent)[j]
                        == before[j]
                &&& after.fresh(parent) <= self.fresh(parent) + keys.len()
                &&& after.next >= self.next
            }),
        decreases keys.len(),
    {
        let calls = siblings(parent, keys);
        if keys.len() > 0 {
            let front = keys.drop_last();
            let n = front.len() as int;
            self.lemma_siblings_are_recorded(parent, front);
            assert(calls.drop_last() =~= siblings(parent, front));
            let mid = self.tick(siblings(parent, front));
            mid.lemma_resolve_wf(parent, n, keys.last());
            let after = mid.resolve(parent, n, keys.last());
            assert(after == self.tick(calls));
            if !mid.matches(parent, n, keys.last()) && n < mid.children_of(parent).len() {
                let old = mid.children_of(parent)[n].entity;
                assert(mid.recorded_at(parent, n, old));
                if is_ancestor(mid.parent, old, parent) {
                    lemma_ancestor_is_smaller(mid.parent, old, parent);
                }
            }
            assert forall|j: int| 0 <= j < keys.len() implies #[trigger] after.children_of(
                parent,
            )[j] == (Record { key: keys[j], entity: self.tick_handle(calls, j) }) by {
                if j < n {
                    assert(calls.take(j) =~= siblings(parent, front).take(j));
                    assert(self.tick_handle(calls, j) == self.tick_handle(
                        siblings(parent, front),
                        j,
                    ));
                    assert(mid.children_of(parent)[j] == (Record {
                        key: front[j],
                        entity: self.tick_handle(siblings(parent, front), j),
                    }));
                } else {
                    assert(calls.take(j) =~= siblings(parent, front));
                }
            }
            assert forall|j: int|
                keys.len() <= j < self.children_of(parent).len() implies #[trigger] after.children_of(
                parent,
            )[j] == self.children_of(parent)[j] by {
                assert(mid.children_of(parent)[j] == self.children_of(parent)[j]);
            }
        }
    }

    /// Declaring the same children under one parent in two ticks in a row
    /// resolves each of them to the same node both times, and the second
    /// tick changes no record.
    pub proof fn lemma_second_tick_keeps_siblings(self, parent: u64, keys: Seq<Seq<char>>)
        requires
            self.wf(),
            self.fresh(parent) + keys.len() < u64::MAX,
        ensures
            ({
                let calls = siblings(parent, keys);
                let first = self.tick(calls);
                &&& first.tick(calls).same_records(first)
                &&& forall|j: int|
                    0 <= j < keys.len() ==> #[trigger] first.tick_handle(calls, j)
                        == self.tick_handle(calls, j)
            }),
    {
        let calls = siblings(parent, keys);
        let first = self.tick(calls);
        self.lemma_siblings_are_recorded(parent, keys);
        assert forall|i: int| 0 <= i < calls.len() implies first.matches(
            (#[trigger] calls[i]).parent,
            calls[i].index,
            calls[i].key,
        ) by {
            assert(first.children_of(parent)[i].key == keys[i]);
        }
        first.lemma_unchanged_tick(calls);
        assert forall|j: int| 0 <= j < keys.len() implies #[trigger] first.tick_handle(calls, j)
            == self.tick_handle(calls, j) by {
            assert(first.children_of(parent)[j].entity == self.tick_handle(calls, j));
        }
    }

    /// Where the key declared at each recorded position differs from the
    /// key recorded there, every declared child gets a node that was never
    /// handed out before, and every node that was recorded at a declared
    /// position is destroyed and retired.
    pub proof fn lemma_changed_siblings_are_recreated(self, parent: u64, keys: Seq<Seq<char>>)
        requires
            self.wf(),
            self.fresh(parent) + keys.len() < u64::MAX,
            forall|j: int|
                0 <= j < keys.len() && j < self.children_of(parent).len() ==> keys[j]
                    != #[trigger] self.children_of(parent)[j].key,
        ensures
            ({
                let calls = siblings(parent, keys);
                let after = self.tick(calls);
                let before = self.children_of(parent);
                let replaced = if keys.len() < before.len() {
                    keys.len() as int
                } else {
                    before.len() as int
                };
                &&& forall|j: int|
                    0 <= j < keys.len() ==> #[trigger] self.tick_handle(calls, j) == self.fresh(
                        parent,
                    ) + j
                &&& forall|j: int|
                    0 <= j < replaced ==> after.retired(#[trigger] before[j].entity)
                &&& after.despawned == self.despawned + entities_of(before).take(replaced)
                &&& keys.len() > 0 ==> after.next == self.fresh(parent) + keys.len()
            }),
        decreases keys.len(),
    {
        let calls = siblings(parent, keys);
        let before = self.children_of(parent);
        if keys.len() > 0 {
            let front = keys.drop_last();
            let n = front.len() as int;
            self.lemma_changed_siblings_are_recreated(parent, front);
            self.lemma_siblings_are_recorded(parent, front);
            assert(calls.drop_last() =~= siblings(parent, front));
            let mid = self.tick(siblings(parent, front));
            let after = mid.resolve(parent, n, keys.last());
            assert(after == self.tick(calls));
            assert(mid.fresh(parent) == self.fresh(parent) + n);
            if n < before.len() {
                assert(mid.children_of(parent)[n] == before[n]);
                assert(keys[n] != before[n].key);
                mid.lemma_changed_key_replaces_child(parent, n, keys.last());
                assert(in_subtree(mid.parent, before[n].entity, before[n].entity));
                assert(entities_of(before).take(n + 1) =~= entities_of(before).take(n).push(
                    before[n].entity,
                ));
                assert(after.despawned =~= self.despawned + entities_of(before).take(n + 1));
            } else {
                assert(entities_of(before).take(before.len() as int) =~= entities_of(before));
            }
            assert forall|j: int| 0 <= j < keys.len() implies #[trigger] self.tick_handle(calls, j)
                == self.fresh(parent) + j by {
                if j < n {
                    assert(calls.take(j) =~= siblings(parent, front).take(j));
                    assert(self.tick_handle(calls, j) == self.tick_handle(
                        siblings(parent, front),
                        j,
                    ));
                } else {
                    assert(calls.take(j) =~= siblings(parent, front));
                }
            }
            assert forall|j: int| 0 <= j < n && j < before.len() implies after.retired(
                #[trigger] before[j].entity,
            ) by {
                mid.lemma_retired_for_good(parent, n, keys.last(), before[j].entity);
            }
        } else {
            assert(entities_of(before).take(0) =~= Seq::<u64>::empty());
            assert(self.despawned + Seq::<u64>::empty() =~= self.despawned);
        }
    }

    /// Inserting a child in front of the children of a parent moves each of
    /// them one position back. Where the inserted child differs in its key
    /// from the first of them, and each of them from the one behind it,
    /// every one of the old nodes is destroyed, and every child, the
    /// inserted one and the old ones at their new positions, gets a node
    /// that was never handed out before.
    pub proof fn lemma_insert_in_front(self, parent: u64, keys: Seq<Seq<char>>)
        requires
            self.wf(),
            self.fresh(parent) + keys.len() < u64::MAX,
            keys.len() == self.children_of(parent).len() + 1,
            forall|j: int|
                0 <= j < self.children_of(parent).len() ==> keys[j + 1]
                    == #[trigger] self.children_of(parent)[j].key,
            forall|j: int| 0 <= j < keys.len() - 1 ==> #[trigger] keys[j] != keys[j + 1],
        ensures
            ({
                let calls = siblings(parent, keys);
                let after = self.tick(calls);
                let before = self.children_of(parent);
                &&& after.children_of(parent).len() == keys.len()
                &&& forall|j: int|
                    0 <= j < keys.len() ==> #[trigger] after.children_of(parent)[j] == (Record {
                        key: keys[j],
                        entity: (self.fresh(parent) + j) as u64,
                    })
                &&& forall|i: int, j: int|
                    0 <= i < before.len() && 0 <= j < keys.len() ==> #[trigger] before[i].entity
                        != #[trigger] after.children_of(parent)[j].entity
                &&& forall|i: int|
                    0 <= i < before.len() ==> after.retired(#[trigger] before[i].entity)
                &&& after.despawned == self.despawned + entities_of(before)
            }),
    {
        let calls = siblings(parent, keys);
        let after = self.tick(calls);
        let before = self.children_of(parent);
        assert forall|j: int| 0 <= j < keys.len() && j < before.len() implies keys[j]
            != #[trigger] before[j].key by {
            assert(keys[j] != keys[j + 1]);
        }
        self.lemma_changed_siblings_are_recreated(parent, keys);
        self.lemma_siblings_are_recorded(parent, keys);
        assert(entities_of(before).take(before.len() as int) =~= entities_of(before));
        assert forall|j: int| 0 <= j < keys.len() implies #[trigger] after.children_of(parent)[j]
            == (Record { key: keys[j], entity: (self.fresh(parent) + j) as u64 }) by {
            assert(self.tick_handle(calls, j) == self.fresh(parent) + j);
        }
        assert forall|i: int, j: int|
            0 <= i < before.len() && 0 <= j < keys.len() implies #[trigger] before[i].entity
            != #[trigger] after.children_of(parent)[j].entity by {
            assert(self.recorded_at(parent, i, before[i].entity));
            assert(after.children_of(parent)[j].entity == self.fresh(parent) + j);
        }
    }
}

/// What holds of a tick that declares a whole tree.
impl MapperState {
    /// Each child of `calls` can be resolved when its turn comes: its
    /// position is recorded or the next free one under its parent, and a
    /// handle is left for it.
    pub open spec fn admissible(self, calls: Seq<Declaration>) -> bool
        decreases calls.len(),
    {
        calls.len() == 0 || {
            let before = self.tick(calls.drop_last());
            let call = calls.last();
            &&& self.admissible(calls.drop_last())
            &&& 0 <= call.index <= before.children_of(call.parent).len()
            &&& before.fresh(call.parent) < u64::MAX
        }
    }

    /// `calls` declares a tree: no position is declared twice, and every
    /// child is declared under a node that an earlier child of `calls` was
    /// resolved to, or under a root: a node that was handed out and that no
    /// record holds.
    pub open spec fn declares_tree(self, calls: Seq<Declaration>) -> bool {
        &&& self.admissible(calls)
        &&& forall|i: int, j: int|
            0 <= i < j < calls.len() ==> !((#[trigger] calls[i]).parent == (#[trigger] calls[j]).parent
                && calls[i].index == calls[j].index)
        &&& forall|i: int|
            0 <= i < calls.len() ==> self.retired((#[trigger] calls[i]).parent) || exists|j: int|
                0 <= j < i && #[trigger] self.tick_handle(calls, j) == calls[i].parent
    }

    /// After the first `m` children of `calls` are resolved, each of them is
    /// recorded at its position with its key and the node it was resolved
    /// to, and every root is still a root.
    #[verifier::opaque]
    pub open spec fn recorded_so_far(self, calls: Seq<Declaration>, m: int) -> bool {
        let now = self.tick(calls.take(m));
        &&& now.wf()
        &&& forall|i: int|
            0 <= i < m ==> 0 <= (#[trigger] calls[i]).index < now.children_of(calls[i].parent).len()
                && now.children_of(calls[i].parent)[calls[i].index] == (Record {
                key: calls[i].key,
                entity: self.tick_handle(calls, i),
            })
        &&& forall|h: u64| self.retired(h) ==> #[trigger] now.retired(h)
    }

    /// Every beginning of an admissible tick is admissible.
    pub proof fn lemma_admissible_prefix(self, calls: Seq<Declaration>, m: int)
        requires
            self.admissible(calls),
            0 <= m <= calls.len(),
        ensures
            self.admissible(calls.take(m)),
        decreases calls.len(),
    {
        if m == calls.len() {
            assert(calls.take(m) =~= calls);
        } else {
            self.lemma_admissible_prefix(calls.drop_last(), m);
            assert(calls.drop_last().take(m) =~= calls.take(m));
        }
    }

    /// An admissible tick keeps the records a forest, and what was retired
    /// before it is retired after it and is not among its nodes.
    pub proof fn lemma_tick_keeps_retired(self, calls: Seq<Declaration>, h: u64)
        requires
            self.wf(),
            self.admissible(calls),
            self.retired(h),
        ensures
            self.tick(calls).wf(),
            self.tick(calls).retired(h),
            forall|i: int| 0 <= i < calls.len() ==> #[trigger] self.tick_handle(calls, i) != h,
        decreases calls.len(),
    {
        if calls.len() > 0 {
            let front = calls.drop_last();
            let call = calls.last();
            self.lemma_tick_keeps_retired(front, h);
            let mid = self.tick(front);
            mid.lemma_resolve_wf(call.parent, call.index, call.key);
            mid.lemma_retired_for_good(call.parent, call.index, call.key, h);
            assert forall|i: int| 0 <= i < calls.len() implies #[trigger] self.tick_handle(calls, i)
                != h by {
                if i < calls.len() - 1 {
                    assert(calls.take(i) =~= front.take(i));
                    assert(self.tick_handle(front, i) == self.tick_handle(calls, i));
                } else {
                    assert(calls.take(i) =~= front);
                }
            }
        }
    }

    /// Once a child is declared with another key than the one recorded at
    /// its position, no node of the subtree that was recorded there is
    /// handed out again, whatever is declared afterwards: every child
    /// resolved later gets another node than any of them.
    pub proof fn lemma_replaced_subtree_is_gone(
        self,
        parent: u64,
        index: int,
        key: Seq<char>,
        later: Seq<Declaration>,
        d: u64,
    )
        requires
            self.wf(),
            0 <= index < self.children_of(parent).len(),
            self.children_of(parent)[index].key != key,
            self.fresh(parent) < u64::MAX,
            self.resolve(parent, index, key).admissible(later),
            in_subtree(self.parent, self.children_of(parent)[index].entity, d),
        ensures
            self.resolved(parent, index, key) != d,
            self.resolve(parent, index, key).tick(later).retired(d),
            forall|i: int|
                0 <= i < later.len() ==> #[trigger] self.resolve(parent, index, key).tick_handle(
                    later,
                    i,
                ) != d,
    {
        let after = self.resolve(parent, index, key);
        self.lemma_changed_key_replaces_child(parent, index, key);
        self.lemma_resolve_wf(parent, index, key);
        after.lemma_tick_keeps_retired(later, d);
        if d != self.children_of(parent)[index].entity {
            lemma_ancestor_is_smaller(self.parent, self.children_of(parent)[index].entity, d);
        }
        assert(self.recorded_at(parent, index, self.children_of(parent)[index].entity));
    }

    /// While a tree is declared, no node under which a child was declared
    /// stands in a subtree that a later child of the same tick replaces.
    proof fn lemma_parent_outlives_replacement(
        self,
        calls: Seq<Declaration>,
        m: int,
        j: int,
        old: u64,
    )
        requires
            self.wf(),
            self.declares_tree(calls),
            0 <= j < m < calls.len(),
            self.recorded_so_far(calls, m),
            self.tick(calls.take(m)).recorded_at(calls[m].parent, calls[m].index, old),
        ensures
            !in_subtree(self.tick(calls.take(m)).parent, old, calls[j].parent),
        decreases j,
    {
        reveal(MapperState::recorded_so_far);
        let now = self.tick(calls.take(m));
        let p = calls[j].parent;
        if self.retired(p) {
            assert(now.retired(p));
        } else {
            let k = choose|k: int| 0 <= k < j && #[trigger] self.tick_handle(calls, k) == p;
            assert(now.recorded_at(calls[k].parent, calls[k].index, p));
            assert(!(calls[k].parent == calls[m].parent && calls[k].index == calls[m].index));
            if p != old && is_ancestor(now.parent, old, p) {
                self.lemma_parent_outlives_replacement(calls, m, k, old);
            }
        }
    }

    /// While a tree is declared, resolving one more child leaves the record
    /// of each child that was resolved before it as it is.
    proof fn lemma_record_survives(self, calls: Seq<Declaration>, n: int, i: int)
        requires
            self.wf(),
            self.declares_tree(calls),
            0 <= i < n < calls.len(),
            self.recorded_so_far(calls, n),
            0 <= calls[n].index <= self.tick(calls.take(n)).children_of(calls[n].parent).len(),
            self.tick(calls.take(n)).fresh(calls[n].parent) < u64::MAX,
        ensures
            ({
                let mid = self.tick(calls.take(n));
                let now = mid.resolve(calls[n].parent, calls[n].index, calls[n].key);
                &&& 0 <= calls[i].index < mid.children_of(calls[i].parent).len()
                &&& calls[i].index < now.children_of(calls[i].parent).len()
                &&& now.children_of(calls[i].parent)[calls[i].index] == (Record {
                    key: calls[i].key,
                    entity: self.tick_handle(calls, i),
                })
            }),
    {
        reveal(MapperState::recorded_so_far);
        let mid = self.tick(calls.take(n));
        let call = calls[n];
        let kept = calls[i];
        let now = mid.resolve(call.parent, call.index, call.key);
        let records = mid.children_of(call.parent);
        assert(!(kept.parent == call.parent && kept.index == call.index));
        assert(0 <= kept.index < mid.children_of(kept.parent).len());
        assert(mid.children.contains_key(kept.parent));
        if mid.matches(call.parent, call.index, call.key) {
            assert(now.children == mid.children);
        } else if call.index < records.len() {
            let old = records[call.index].entity;
            assert(mid.recorded_at(call.parent, call.index, old));
            if kept.parent == call.parent {
                assert(now.children[kept.parent] == records.update(
                    call.index,
                    Record { key: call.key, entity: mid.fresh(call.parent) as u64 },
                ));
            } else {
                self.lemma_parent_outlives_replacement(calls, n, i, old);
                assert(!mid.subtree(old).contains(kept.parent));
                assert(now.children[kept.parent] == mid.children[kept.parent]);
            }
        } else {
            if kept.parent == call.parent {
                assert(now.children[kept.parent] == records.push(
                    Record { key: call.key, entity: mid.fresh(call.parent) as u64 },
                ));
            } else {
                assert(now.children[kept.parent] == mid.children[kept.parent]);
            }
        }
    }

    /// While a tree is declared, a root stays a root and the records stay a
    /// forest when one more child is resolved.
    proof fn lemma_roots_survive(self, calls: Seq<Declaration>, n: int)
        requires
            self.wf(),
            0 <= n < calls.len(),
            self.recorded_so_far(calls, n),
            0 <= calls[n].index <= self.tick(calls.take(n)).children_of(calls[n].parent).len(),
            self.tick(calls.take(n)).fresh(calls[n].parent) < u64::MAX,
        ensures
            ({
                let mid = self.tick(calls.take(n));
                let now = mid.resolve(calls[n].parent, calls[n].index, calls[n].key);
                &&& now.wf()
                &&& forall|h: u64| self.retired(h) ==> #[trigger] now.retired(h)
            }),
    {
        reveal(MapperState::recorded_so_far);
        let mid = self.tick(calls.take(n));
        let call = calls[n];
        let now = mid.resolve(call.parent, call.index, call.key);
        mid.lemma_resolve_wf(call.parent, call.index, call.key);
        assert forall|h: u64| self.retired(h) implies #[trigger] now.retired(h) by {
            assert(mid.retired(h));
            mid.lemma_retired_for_good(call.parent, call.index, call.key, h);
        }
    }

    /// The child that is resolved last is recorded at its position.
    proof fn lemma_last_is_recorded(self, calls: Seq<Declaration>, n: int)
        requires
            self.wf(),
            0 <= n < calls.len(),
            self.recorded_so_far(calls, n),
            0 <= calls[n].index <= self.tick(calls.take(n)).children_of(calls[n].parent).len(),
            self.tick(calls.take(n)).fresh(calls[n].parent) < u64::MAX,
        ensures
            ({
                let mid = self.tick(calls.take(n));
                let now = mid.resolve(calls[n].parent, calls[n].index, calls[n].key);
                &&& calls[n].index < now.children_of(calls[n].parent).len()
                &&& now.children_of(calls[n].parent)[calls[n].index] == (Record {
                    key: calls[n].key,
                    entity: self.tick_handle(calls, n),
                })
            }),
    {
        reveal(MapperState::recorded_so_far);
        let mid = self.tick(calls.take(n));
        mid.lemma_resolved_is_recorded(calls[n].parent, calls[n].index, calls[n].key);
    }

    /// While a tree is declared, what has been resolved stays recorded.
    pub proof fn lemma_declared_children_stay(self, calls: Seq<Declaration>, m: int)
        requires
            self.wf(),
            self.declares_tree(calls),
            0 <= m <= calls.len(),
        ensures
            self.recorded_so_far(calls, m),
        decreases m,
    {
        if m == 0 {
            assert(calls.take(0) =~= Seq::<Declaration>::empty());
            assert(self.tick(calls.take(0)) == self);
            reveal(MapperState::recorded_so_far);
        } else {
            let n = m - 1;
            self.lemma_declared_children_stay(calls, n);
            self.lemma_admissible_prefix(calls, m);
            let call = calls[n];
            assert(calls.take(m).drop_last() =~= calls.take(n));
            assert(calls.take(m).last() == call);
            let mid = self.tick(calls.take(n));
            let now = mid.resolve(call.parent, call.index, call.key);
            assert(now == self.tick(calls.take(m)));
            assert(0 <= call.index <= mid.children_of(call.parent).len());
            assert(mid.fresh(call.parent) < u64::MAX);
            self.lemma_roots_survive(calls, n);
            self.lemma_last_is_recorded(calls, n);
            assert forall|i: int| 0 <= i < m implies 0 <= (#[trigger] calls[i]).index
                < now.children_of(calls[i].parent).len() && now.children_of(
                calls[i].parent,
            )[calls[i].index] == (Record { key: calls[i].key, entity: self.tick_handle(calls, i) }) by {
                if i < n {
                    self.lemma_record_survives(calls, n, i);
                }
            }
            reveal(MapperState::recorded_so_far);
        }
    }

    /// Declaring the same tree in two ticks in a row resolves every child
    /// of it to the same node both times, and the second tick changes no
    /// record: it destroys nothing and hands out no handle.
    pub proof fn lemma_second_tick_keeps_every_node(self, calls: Seq<Declaration>)
        requires
            self.wf(),
            self.declares_tree(calls),
        ensures
            ({
                let first = self.tick(calls);
                &&& first.tick(calls).same_records(first)
                &&& forall|i: int|
                    0 <= i < calls.len() ==> #[trigger] first.tick_handle(calls, i)
                        == self.tick_handle(calls, i)
            }),
    {
        let first = self.tick(calls);
        self.lemma_declared_children_stay(calls, calls.len() as int);
        reveal(MapperState::recorded_so_far);
        assert(calls.take(calls.len() as int) =~= calls);
        assert forall|i: int| 0 <= i < calls.len() implies first.matches(
            (#[trigger] calls[i]).parent,
            calls[i].index,
            calls[i].key,
        ) by {
            assert(first.children_of(calls[i].parent)[calls[i].index].key == calls[i].key);
        }
        first.lemma_unchanged_tick(calls);
        assert forall|i: int| 0 <= i < calls.len() implies #[trigger] first.tick_handle(calls, i)
            == self.tick_handle(calls, i) by {
            assert(first.children_of(calls[i].parent)[calls[i].index].entity
                == self.tick_handle(calls, i));
        }
    }
}

} // verus!
