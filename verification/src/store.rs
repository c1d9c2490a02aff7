//! The component store: a type-identifier-indexed registry of
//! generation-checked containers together with the slot allocator that owns
//! the entity identifier space. This is the one object callers interact with
//! directly.

use crate::allocator::{AllocatorView, GenerationalIndex, GenerationalIndexAllocator, SlotView};
use crate::array::{
    can_set, pair_matches, table_get, table_remove, table_set, valid_entries, EntryView,
    GenerationalIndexArray, ValidEntry,
};
use vstd::prelude::*;

verus! {

/// The table registered under `key`, or the empty table if `key` was never
/// registered — an absent table and an empty one are indistinguishable to
/// every query.
pub open spec fn table_of<V>(tables: Map<u64, Seq<Option<EntryView<V>>>>, key: u64) -> Seq<
    Option<EntryView<V>>,
> {
    if tables.dom().contains(key) {
        tables[key]
    } else {
        Seq::empty()
    }
}

/// Consistency of one table with the allocator: every occupied position
/// names an existing slot and stores a generation no newer than the slot's
/// current one.
pub open spec fn table_ok<V>(t: Seq<Option<EntryView<V>>>, a: AllocatorView) -> bool {
    forall|s: int|
        0 <= s < t.len() && (#[trigger] t[s]) is Some ==> s < a.slots.len()
            && t[s].unwrap().generation <= a.slots[s].generation
}

/// An opaque handle to one occupant of the store. It is a capability-style
/// value — copied freely, comparing structurally — and becomes permanently
/// stale the instant its slot is destroyed, even if a later allocation
/// reuses the same slot position.
#[derive(Copy, Clone, Eq, PartialEq, Structural, Debug)]
pub struct Entity(GenerationalIndex);

impl View for Entity {
    type V = GenerationalIndex;

    closed spec fn view(&self) -> GenerationalIndex {
        self.0
    }
}

/// The store's mathematical model: the allocator's state plus one table per
/// registered component-type identifier.
pub struct StoreView<V> {
    pub allocator: AllocatorView,
    pub tables: Map<u64, Seq<Option<EntryView<V>>>>,
}

/// The store's semantic invariant, stated on its model: the allocator is
/// well-formed, and no table entry carries a generation newer than the
/// allocator's current generation for its slot — so a live handle's
/// generation is never older than what its slot's entries store.
pub open spec fn store_inv<V>(sv: StoreView<V>) -> bool {
    &&& sv.allocator.wf()
    &&& forall|k: u64|
        sv.tables.dom().contains(k) ==> table_ok(#[trigger] sv.tables[k], sv.allocator)
}

/// The component store. It owns the slot allocator and a registry of
/// generation-checked containers, one per component-type identifier, created
/// lazily on first use. `V` is the component value type; a caller that
/// attaches values of several shapes chooses one `V` that carries them all
/// and one identifier per component type.
pub struct ECS<V> {
    entity_allocator: GenerationalIndexAllocator,
    keys: Vec<u64>,
    arrays: Vec<GenerationalIndexArray<V>>,
}

/// The map a key/container registry represents: each registered key, taken
/// to its container's table.
spec fn tables_of<V>(keys: Seq<u64>, arrays: Seq<GenerationalIndexArray<V>>) -> Map<
    u64,
    Seq<Option<EntryView<V>>>,
> {
    Map::new(|k: u64| keys.contains(k), |k: u64| arrays[keys.index_of(k)]@)
}

impl<V> View for ECS<V> {
    type V = StoreView<V>;

    closed spec fn view(&self) -> StoreView<V> {
        StoreView {
            allocator: self.entity_allocator@,
            tables: tables_of(self.keys@, self.arrays@),
        }
    }
}

/// Distinctness of a key sequence.
spec fn keys_unique(keys: Seq<u64>) -> bool {
    forall|j1: int, j2: int|
        0 <= j1 < j2 < keys.len() ==> #[trigger] keys[j1] != #[trigger] keys[j2]
}

/// In a registry with distinct keys, the key at position `j` is taken to the
/// container at position `j`.
proof fn lemma_registry_lookup<V>(
    keys: Seq<u64>,
    arrays: Seq<GenerationalIndexArray<V>>,
    j: int,
)
    requires
        keys.len() == arrays.len(),
        keys_unique(keys),
        0 <= j < keys.len(),
    ensures
        tables_of(keys, arrays).dom().contains(keys[j]),
        tables_of(keys, arrays)[keys[j]] == arrays[j]@,
{
    let key = keys[j];
    assert(keys.contains(key));
    let i = keys.index_of(key);
    assert(0 <= i < keys.len() && keys[i] == key);
    assert(i == j);
}

/// Registering a fresh key with container `a` adds exactly one binding.
proof fn lemma_registry_push<V>(
    keys: Seq<u64>,
    arrays: Seq<GenerationalIndexArray<V>>,
    key: u64,
    a: GenerationalIndexArray<V>,
)
    requires
        keys.len() == arrays.len(),
        keys_unique(keys),
        !keys.contains(key),
    ensures
        keys_unique(keys.push(key)),
        tables_of(keys.push(key), arrays.push(a)) == tables_of(keys, arrays).insert(key, a@),
{
    let keys1 = keys.push(key);
    let arrays1 = arrays.push(a);
    let n = keys.len() as int;
    assert(forall|m: int| 0 <= m < n ==> #[trigger] keys1[m] == keys[m]);
    assert(keys1[n] == key);
    assert forall|j1: int, j2: int|
        0 <= j1 < j2 < keys1.len() implies #[trigger] keys1[j1] != #[trigger] keys1[j2] by {
        if j2 == n {
            assert(keys[j1] != key);
        }
    }
    let m0 = tables_of(keys, arrays);
    let m1 = tables_of(keys1, arrays1);
    assert forall|k: u64| #[trigger] m1.dom().contains(k) implies m0.insert(key, a@).dom().contains(
        k,
    ) && m1[k] == m0.insert(key, a@)[k] by {
        let i1 = keys1.index_of(k);
        assert(0 <= i1 < keys1.len() && keys1[i1] == k);
        if k == key {
            assert(i1 == n);
            assert(m1[k] == a@);
        } else {
            assert(i1 < n && keys[i1] == k);
            assert(keys.contains(k));
            let i0 = keys.index_of(k);
            assert(0 <= i0 < n && keys[i0] == k);
            assert(i0 == i1);
            assert(m1[k] == arrays[i0]@);
        }
    }
    assert forall|k: u64| #[trigger] m0.insert(key, a@).dom().contains(k) implies m1.dom().contains(
        k,
    ) by {
        if k == key {
            assert(keys1[n] == k);
        } else {
            assert(m0.dom().contains(k));
            let i0 = keys.index_of(k);
            assert(0 <= i0 < n && keys[i0] == k);
            assert(keys1[i0] == k);
        }
    }
    assert(m1 =~= m0.insert(key, a@));
}

/// Replacing the container at `key`'s position rebinds exactly that key.
proof fn lemma_registry_update<V>(
    keys: Seq<u64>,
    arrays0: Seq<GenerationalIndexArray<V>>,
    arrays1: Seq<GenerationalIndexArray<V>>,
    j: int,
)
    requires
        keys.len() == arrays0.len(),
        keys_unique(keys),
        0 <= j < keys.len(),
        arrays1.len() == arrays0.len(),
        forall|m: int| 0 <= m < arrays0.len() && m != j ==> #[trigger] arrays1[m] == arrays0[m],
    ensures
        tables_of(keys, arrays1) == tables_of(keys, arrays0).insert(keys[j], arrays1[j]@),
{
    let key = keys[j];
    let m0 = tables_of(keys, arrays0);
    let m1 = tables_of(keys, arrays1);
    assert forall|k: u64| #[trigger] m1.dom().contains(k) implies m0.insert(
        key,
        arrays1[j]@,
    ).dom().contains(k) && m1[k] == m0.insert(key, arrays1[j]@)[k] by {
        let i = keys.index_of(k);
        assert(0 <= i < keys.len() && keys[i] == k);
        if k == key {
            assert(i == j);
            assert(m1[k] == arrays1[j]@);
        } else {
            assert(i != j);
            assert(m1[k] == arrays1[i]@ && m0[k] == arrays0[i]@);
        }
    }
    assert(m1 =~= m0.insert(key, arrays1[j]@));
}

impl<V> ECS<V> {
    /// The registry's structural invariant: identifiers and containers pair
    /// up, and no identifier is registered twice.
    pub closed spec fn registry_wf(&self) -> bool {
        &&& self.keys@.len() == self.arrays@.len()
        &&& keys_unique(self.keys@)
    }

    /// Well-formedness: the registry is structurally sound and the model
    /// satisfies the store invariant. Constructors establish it and every
    /// method preserves it.
    pub open spec fn wf(&self) -> bool {
        &&& self.registry_wf()
        &&& store_inv(self@)
    }

    /// Whether `entity` currently refers to an allocated, non-destroyed
    /// slot, in the allocator's authoritative judgment.
    pub open spec fn spec_is_valid(&self, entity: Entity) -> bool {
        self@.allocator.is_live(entity@)
    }

    /// The component of type `key` that `entity` refers to, if any.
    pub open spec fn spec_get_component(&self, key: u64, entity: Entity) -> Option<V> {
        table_get(table_of(self@.tables, key), entity@)
    }

    /// A fresh store: no slots, no registered component types.
    pub fn new() -> (r: ECS<V>)
        ensures
            r.wf(),
            r@.allocator.slots =~= Seq::<SlotView>::empty(),
            r@.allocator.free =~= Seq::<int>::empty(),
            r@.tables =~= Map::<u64, Seq<Option<EntryView<V>>>>::empty(),
    {
        let r = ECS {
            entity_allocator: GenerationalIndexAllocator::new(),
            keys: Vec::new(),
            arrays: Vec::new(),
        };
        proof {
            assert(r@.tables =~= Map::<u64, Seq<Option<EntryView<V>>>>::empty());
        }
        r
    }

    /// Creates a live entity, delegating to the allocator. Component tables
    /// are untouched.
    pub fn new_entity(&mut self) -> (r: Entity)
        requires
            old(self).wf(),
        ensures
            final(self).wf(),
            final(self)@.allocator == old(self)@.allocator.alloc_next(),
            r@.index == old(self)@.allocator.alloc_index(),
            r@.generation == old(self)@.allocator.alloc_generation(),
            final(self)@.tables == old(self)@.tables,
            final(self).spec_is_valid(r),
    {
        let gi = self.entity_allocator.allocate();
        proof {
            assert(self@.tables =~= old(self)@.tables);
            lemma_tables_ok_after_allocator_step(old(self)@.tables, old(self)@.allocator, self@.allocator);
        }
        Entity(gi)
    }

    /// Destroys an entity, delegating to the allocator's deallocation: a
    /// no-op on a handle that is not currently live. The handle the caller
    /// holds is permanently stale afterwards. Component tables are
    /// untouched: the entity's component values become unreachable through
    /// the validity check but persist as physical storage until overwritten
    /// or removed.
    pub fn destroy_entity(&mut self, entity: Entity)
        requires
            old(self).wf(),
        ensures
            final(self).wf(),
            final(self)@.allocator == old(self)@.allocator.dealloc_next(entity@),
            final(self)@.tables == old(self)@.tables,
    {
        self.entity_allocator.deallocate(entity.0);
        proof {
            assert(self@.tables =~= old(self)@.tables);
            lemma_tables_ok_after_allocator_step(old(self)@.tables, old(self)@.allocator, self@.allocator);
        }
    }

    /// True iff `entity` is currently live. This is the check every
    /// liveness-preconditioned operation relies on; callers that cannot
    /// otherwise guarantee a handle is current must consult it defensively.
    pub fn is_entity_valid(&self, entity: Entity) -> (r: bool)
        ensures
            r == self.spec_is_valid(entity),
    {
        self.entity_allocator.is_live(entity.0)
    }

    /// Attaches a component of type `key` to a live entity, replacing any
    /// component of that type the entity already carried, and returns a
    /// reference to the just-stored value. The type's container is created
    /// on first use. Attaching data through a handle that is not currently
    /// live is a caller-side logic error and is rejected outright by the
    /// precondition.
    pub fn set_component(&mut self, key: u64, entity: Entity, value: V) -> (r: &V)
        requires
            old(self).wf(),
            old(self).spec_is_valid(entity),
        ensures
            final(self).wf(),
            *r == value,
            final(self)@.allocator == old(self)@.allocator,
            final(self)@.tables == old(self)@.tables.insert(
                key,
                table_set(
                    table_of(old(self)@.tables, key),
                    entity@.index as int,
                    entity@.generation as nat,
                    value,
                ),
            ),
            final(self).spec_get_component(key, entity) == Some(value),
            final(self).spec_is_valid(entity),
    {
        let ghost t0 = table_of(old(self)@.tables, key);
        let j: usize = match self.find_table(key) {
            Some(found) => found,
            None => {
                let ghost keys0 = self.keys@;
                let ghost arrays0 = self.arrays@;
                let fresh: GenerationalIndexArray<V> = GenerationalIndexArray::new();
                proof {
                    lemma_registry_push(keys0, arrays0, key, fresh);
                }
                self.keys.push(key);
                self.arrays.push(fresh);
                self.keys.len() - 1
            },
        };
        proof {
            lemma_registry_lookup(self.keys@, self.arrays@, j as int);
            assert(self@.tables[key] == self.arrays@[j as int]@);
            // the entry at the entity's position, if any, is not newer than
            // the slot's generation, which the live entity's equals
            assert(table_ok(self@.tables[key], self@.allocator));
            assert(can_set(self.arrays@[j as int]@, entity@));
        }
        let ghost keys1 = self.keys@;
        let ghost arrays1 = self.arrays@;
        let arr = &mut self.arrays[j];
        arr.set(entity.0, value);
        proof {
            lemma_registry_update(keys1, arrays1, self.arrays@, j as int);
            assert(self@.tables =~= old(self)@.tables.insert(
                key,
                table_set(t0, entity@.index as int, entity@.generation as nat, value),
            ));
            // the rewritten table is still consistent with the allocator
            assert forall|k2: u64| self@.tables.dom().contains(k2) implies table_ok(
                #[trigger] self@.tables[k2],
                self@.allocator,
            ) by {
                if k2 == key {
                    lemma_table_set_ok(t0, self@.allocator, entity@, value);
                } else {
                    assert(self@.tables[k2] == old(self)@.tables[k2]);
                }
            }
        }
        match self.arrays[j].get(entity.0) {
            Some(v) => v,
            None => vstd::pervasive::unreached(),
        }
    }

    /// Reads the component of type `key` that a live entity carries, if any.
    /// Querying a handle that is not currently live is a caller-side logic
    /// error and is rejected outright by the precondition; a live entity
    /// without such a component is the normal "nothing found" outcome.
    pub fn get_component(&self, key: u64, entity: Entity) -> (r: Option<&V>)
        requires
            self.wf(),
            self.spec_is_valid(entity),
        ensures
            match r {
                Some(v) => self.spec_get_component(key, entity) == Some(*v),
                None => self.spec_get_component(key, entity) is None,
            },
    {
        match self.find_table(key) {
            Some(j) => self.arrays[j].get(entity.0),
            None => None,
        }
    }

    /// True iff a live entity carries a component of type `key`. The same
    /// liveness precondition as `get_component` applies.
    pub fn has_component(&self, key: u64, entity: Entity) -> (r: bool)
        requires
            self.wf(),
            self.spec_is_valid(entity),
        ensures
            r == (self.spec_get_component(key, entity) is Some),
    {
        self.get_component(key, entity).is_some()
    }

    /// Like `get_component`, but grants mutable access to the stored value.
    /// The entry's generation tag, every other entry, and the allocator are
    /// left unchanged. The same liveness precondition as `get_component`
    /// applies.
    pub fn get_component_mut(&mut self, key: u64, entity: Entity) -> (r: Option<&mut V>)
        requires
            old(self).wf(),
            old(self).spec_is_valid(entity),
        ensures
            match r {
                Some(p) => {
                    &&& old(self).spec_get_component(key, entity) == Some(*p)
                    &&& final(self)@.allocator == old(self)@.allocator
                    &&& final(self)@.tables == old(self)@.tables.insert(
                        key,
                        table_set(
                            table_of(old(self)@.tables, key),
                            entity@.index as int,
                            entity@.generation as nat,
                            *final(p),
                        ),
                    )
                    &&& final(self).wf()
                },
                None => {
                    &&& old(self).spec_get_component(key, entity) is None
                    &&& final(self)@.allocator == old(self)@.allocator
                    &&& final(self)@.tables == old(self)@.tables
                    &&& final(self).wf()
                },
            },
    {
        let j: usize = match self.find_table(key) {
            Some(found) => found,
            None => {
                return None;
            },
        };
        let ghost keys1 = self.keys@;
        let ghost arrays1 = self.arrays@;
        proof {
            lemma_registry_lookup(keys1, arrays1, j as int);
        }
        let arr = &mut self.arrays[j];
        let r = arr.get_mut(entity.0);
        proof {
            lemma_registry_update(
                keys1,
                arrays1,
                arrays1.update(j as int, after_borrow(*arr)),
                j as int,
            );
        }
        r
    }

    /// Removes any component of type `key` the entity's slot position holds,
    /// whatever its generation; a no-op if no such container or entry
    /// exists. Unlike the getters this does not require the handle to be
    /// live: it is safe to call on a doomed handle.
    pub fn remove_component(&mut self, key: u64, entity: Entity)
        requires
            old(self).wf(),
        ensures
            final(self).wf(),
            final(self)@.allocator == old(self)@.allocator,
            final(self)@.tables == if old(self)@.tables.dom().contains(key) {
                old(self)@.tables.insert(
                    key,
                    table_remove(old(self)@.tables[key], entity@.index as int),
                )
            } else {
                old(self)@.tables
            },
            final(self).spec_get_component(key, entity) is None,
    {
        match self.find_table(key) {
            Some(j) => {
                let ghost keys1 = self.keys@;
                let ghost arrays1 = self.arrays@;
                let arr = &mut self.arrays[j];
                arr.remove(entity.0);
                proof {
                    lemma_registry_update(keys1, arrays1, self.arrays@, j as int);
                    assert(self@.tables =~= old(self)@.tables.insert(
                        key,
                        table_remove(old(self)@.tables[key], entity@.index as int),
                    ));
                    assert forall|k2: u64| self@.tables.dom().contains(k2) implies table_ok(
                        #[trigger] self@.tables[k2],
                        self@.allocator,
                    ) by {
                        if k2 == key {
                            lemma_table_remove_ok(
                                old(self)@.tables[key],
                                self@.allocator,
                                entity@.index as int,
                            );
                        } else {
                            assert(self@.tables[k2] == old(self)@.tables[k2]);
                        }
                    }
                }
            },
            None => {},
        }
    }

    /// Enumerates every entity currently carrying a component of type `key`,
    /// with its component, in ascending slot-position order: each occupied
    /// position of the type's container whose reconstructed handle the
    /// allocator judges live. A type never attached to anything yields the
    /// empty enumeration.
    pub fn find_all_components(&self, key: u64) -> (r: Vec<(Entity, &V)>)
        requires
            self.wf(),
        ensures
            ({
                let t = table_of(self@.tables, key);
                let full = valid_entries(t, self@.allocator, t.len() as int);
                &&& r@.len() == full.len()
                &&& forall|k: int|
                    0 <= k < r@.len() ==> entity_pair_matches(#[trigger] r@[k], full[k])
            }),
    {
        match self.find_table(key) {
            Some(j) => {
                let pairs = self.arrays[j].get_all_valid(&self.entity_allocator);
                let ghost t = table_of(self@.tables, key);
                let ghost full = valid_entries(t, self@.allocator, t.len() as int);
                let mut result: Vec<(Entity, &V)> = Vec::new();
                let mut i: usize = 0;
                while i < pairs.len()
                    invariant
                        i <= pairs@.len(),
                        result@.len() == i,
                        pairs@.len() == full.len(),
                        forall|k: int|
                            0 <= k < pairs@.len() ==> pair_matches(#[trigger] pairs@[k], full[k]),
                        forall|k: int|
                            0 <= k < i ==> entity_pair_matches(#[trigger] result@[k], full[k]),
                    decreases pairs@.len() - i,
                {
                    let p = &pairs[i];
                    result.push((Entity(p.0), p.1));
                    i += 1;
                }
                result
            },
            None => Vec::new(),
        }
    }

    /// Finds the registry position of `key`'s container, if one was ever
    /// created.
    fn find_table(&self, key: u64) -> (r: Option<usize>)
        requires
            self.wf(),
        ensures
            match r {
                Some(j) => {
                    &&& j < self.arrays@.len()
                    &&& self.keys@[j as int] == key
                    &&& self@.tables.dom().contains(key)
                    &&& self@.tables[key] == self.arrays@[j as int]@
                },
                None => !self@.tables.dom().contains(key),
            },
    {
        let mut j: usize = 0;
        while j < self.keys.len()
            invariant
                self.wf(),
                j <= self.keys@.len(),
                forall|m: int| 0 <= m < j ==> self.keys@[m] != key,
            decreases self.keys@.len() - j,
        {
            if self.keys[j] == key {
                proof {
                    assert(self.keys@.contains(key));
                    let i = self.keys@.index_of(key);
                    assert(0 <= i < self.keys@.len() && self.keys@[i] == key);
                    assert(i == j);
                }
                return Some(j);
            }
            j += 1;
        }
        proof {
            assert(!self.keys@.contains(key));
        }
        None
    }
}

/// Whether an executable `(entity, value)` pair carries exactly the data of
/// one enumerated occupant.
pub open spec fn entity_pair_matches<V>(p: (Entity, &V), ve: ValidEntry<V>) -> bool {
    &&& p.0@.index == ve.index
    &&& p.0@.generation == ve.generation
    &&& *p.1 == ve.value
}

/// Clearing a position keeps a table consistent with the allocator.
proof fn lemma_table_remove_ok<V>(t: Seq<Option<EntryView<V>>>, a: AllocatorView, i: int)
    requires
        table_ok(t, a),
    ensures
        table_ok(table_remove(t, i), a),
{
    let t1 = table_remove(t, i);
    assert forall|s: int|
        0 <= s < t1.len() && (#[trigger] t1[s]) is Some implies s < a.slots.len()
            && t1[s].unwrap().generation <= a.slots[s].generation by {
        assert(t1[s] == t[s]);
    }
}

/// A write through a live handle keeps a table consistent with the
/// allocator: the written entry carries exactly the slot's current
/// generation.
proof fn lemma_table_set_ok<V>(
    t: Seq<Option<EntryView<V>>>,
    a: AllocatorView,
    idx: GenerationalIndex,
    value: V,
)
    requires
        table_ok(t, a),
        a.is_live(idx),
    ensures
        table_ok(table_set(t, idx.index as int, idx.generation as nat, value), a),
{
    let i = idx.index as int;
    let t1 = table_set(t, i, idx.generation as nat, value);
    assert forall|s: int|
        0 <= s < t1.len() && (#[trigger] t1[s]) is Some implies s < a.slots.len()
            && t1[s].unwrap().generation <= a.slots[s].generation by {
        if s != i {
            if s < t.len() {
                assert(t1[s] == t[s]);
            } else {
                assert(t1[s] is None);
            }
        }
    }
}

/// Law (component isolation across generations): set a component through a
/// live handle, destroy the entity, and let the next allocation reuse its
/// slot position; the handle of the new occupant reads no component of that
/// type — the old value never leaks forward, because the reused slot's
/// generation is strictly newer than the one stored with the value.
pub proof fn lemma_component_isolation<V>(
    a0: AllocatorView,
    t0: Seq<Option<EntryView<V>>>,
    e1: GenerationalIndex,
    value: V,
    e2: GenerationalIndex,
)
    requires
        a0.wf(),
        a0.is_live(e1),
        ({
            let a1 = a0.dealloc_next(e1);
            &&& a1.alloc_index() == e1.index as int
            &&& e2.index == e1.index
            &&& e2.generation == a1.alloc_generation()
        }),
    ensures
        table_get(table_set(t0, e1.index as int, e1.generation as nat, value), e2) is None,
{
    let a1 = a0.dealloc_next(e1);
    let i = e1.index as int;
    assert(forall|k: int|
        0 <= k < a0.free.len() ==> #[trigger] a0.free[k] != i);
    assert(a0.slots[i].generation < usize::MAX);
    assert(a1.free.len() > 0 && a1.free.last() == i);
    assert(a1.slots[i].generation == e1.generation);
    assert(e2.generation == e1.generation + 1);
    let t1 = table_set(t0, i, e1.generation as nat, value);
    assert(t1.len() >= i + 1);
    assert(t1[i] == Some(EntryView { generation: e1.generation as nat, value }));
}

/// A slot's generation never decreases across an allocator step, so every
/// table that was consistent with the allocator stays consistent after an
/// allocation or deallocation.
proof fn lemma_tables_ok_after_allocator_step<V>(
    tables: Map<u64, Seq<Option<EntryView<V>>>>,
    a0: AllocatorView,
    a1: AllocatorView,
)
    requires
        a0.wf(),
        forall|k: u64| tables.dom().contains(k) ==> table_ok(#[trigger] tables[k], a0),
        a1 == a0.alloc_next() || exists|idx: GenerationalIndex| a1 == a0.dealloc_next(idx),
    ensures
        forall|k: u64| tables.dom().contains(k) ==> table_ok(#[trigger] tables[k], a1),
{
    assert(a1.slots.len() >= a0.slots.len());
    assert forall|s: int|
        0 <= s < a0.slots.len() implies a1.slots[s].generation >= a0.slots[s].generation by {}
    assert forall|k: u64| tables.dom().contains(k) implies table_ok(#[trigger] tables[k], a1) by {
        let t = tables[k];
        assert forall|s: int|
            0 <= s < t.len() && (#[trigger] t[s]) is Some implies s < a1.slots.len()
                && t[s].unwrap().generation <= a1.slots[s].generation by {
            assert(table_ok(t, a0));
            assert(s < a0.slots.len() && t[s].unwrap().generation <= a0.slots[s].generation);
        }
    }
}

} // verus!
