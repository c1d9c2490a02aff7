//! The slot allocator: grants `(slot, generation)` handles, reclaims retired
//! ones, and is the sole authority on whether a handle is currently live.

use vstd::prelude::*;

verus! {

/// A `(slot position, generation)` handle into the allocator's slot space.
///
/// Equality is structural: both fields must match. Holding one does not keep
/// anything alive; it becomes permanently stale the instant its slot is
/// deallocated.
#[derive(Copy, Clone, Eq, PartialEq, Structural, Debug)]
pub struct GenerationalIndex {
    pub index: usize,
    pub generation: usize,
}

/// Per-slot state, as seen in specifications: whether the slot is live and
/// the generation of its current (or most recent) occupant.
pub struct SlotView {
    pub live: bool,
    pub generation: nat,
}

/// The allocator's mathematical model: one record per slot ever allocated
/// (records are never removed, only reused), plus the ordered free list of
/// slot positions available for reuse.
pub struct AllocatorView {
    pub slots: Seq<SlotView>,
    pub free: Seq<int>,
}

impl AllocatorView {
    /// Well-formedness: every free-list entry names an existing, dead slot
    /// whose generation can still be incremented, and no slot position
    /// appears in the free list twice.
    pub open spec fn wf(self) -> bool {
        &&& forall|k: int|
            0 <= k < self.free.len() ==> 0 <= #[trigger] self.free[k] < self.slots.len()
        &&& forall|k: int|
            0 <= k < self.free.len() ==> !self.slots[#[trigger] self.free[k]].live
        &&& forall|k: int|
            0 <= k < self.free.len() ==> self.slots[#[trigger] self.free[k]].generation
                < usize::MAX
        &&& forall|k1: int, k2: int|
            0 <= k1 < k2 < self.free.len() ==> #[trigger] self.free[k1] != #[trigger] self.free[k2]
    }

    /// Liveness of a handle: its slot exists, the stored generation equals
    /// the handle's generation, and the slot is marked live. This is the
    /// single source of truth for handle validity.
    pub open spec fn is_live(self, idx: GenerationalIndex) -> bool {
        &&& idx.index < self.slots.len()
        &&& self.slots[idx.index as int].generation == idx.generation
        &&& self.slots[idx.index as int].live
    }

    /// The slot position the next allocation returns: the last free-list
    /// entry if one exists, otherwise a brand-new position.
    pub open spec fn alloc_index(self) -> int {
        if self.free.len() > 0 {
            self.free.last()
        } else {
            self.slots.len() as int
        }
    }

    /// The generation the next allocation stamps: one past the reused slot's
    /// stored generation, or zero for a brand-new slot.
    pub open spec fn alloc_generation(self) -> nat {
        if self.free.len() > 0 {
            self.slots[self.free.last()].generation + 1
        } else {
            0
        }
    }

    /// The allocator state after one allocation.
    pub open spec fn alloc_next(self) -> AllocatorView {
        if self.free.len() > 0 {
            AllocatorView {
                slots: self.slots.update(
                    self.free.last(),
                    SlotView { live: true, generation: self.slots[self.free.last()].generation + 1 },
                ),
                free: self.free.drop_last(),
            }
        } else {
            AllocatorView {
                slots: self.slots.push(SlotView { live: true, generation: 0 }),
                free: self.free,
            }
        }
    }

    /// The allocator state after deallocating through `idx`: a no-op unless
    /// `idx` is live; otherwise the slot is marked dead and its position is
    /// returned to the free list (a slot whose generation counter is
    /// exhausted is retired instead of reused).
    pub open spec fn dealloc_next(self, idx: GenerationalIndex) -> AllocatorView {
        if self.is_live(idx) {
            AllocatorView {
                slots: self.slots.update(
                    idx.index as int,
                    SlotView {
                        live: false,
                        generation: self.slots[idx.index as int].generation,
                    },
                ),
                free: if self.slots[idx.index as int].generation < usize::MAX {
                    self.free.push(idx.index as int)
                } else {
                    self.free
                },
            }
        } else {
            self
        }
    }

    /// A handle that the allocator has moved past: its slot either carries a
    /// newer generation already, or still carries the handle's generation but
    /// is dead. A stale handle is never live, and every operation preserves
    /// staleness.
    pub open spec fn stale(self, idx: GenerationalIndex) -> bool {
        &&& idx.index < self.slots.len()
        &&& (self.slots[idx.index as int].generation > idx.generation || (self.slots[
            idx.index as int].generation == idx.generation && !self.slots[
            idx.index as int].live))
    }
}

/// One allocator operation, for stating laws about whole operation
/// sequences.
pub enum AllocatorOp {
    Allocate,
    Deallocate(GenerationalIndex),
}

/// The allocator state after one operation.
pub open spec fn apply_op(v: AllocatorView, op: AllocatorOp) -> AllocatorView {
    match op {
        AllocatorOp::Allocate => v.alloc_next(),
        AllocatorOp::Deallocate(idx) => v.dealloc_next(idx),
    }
}

/// The allocator state after a whole operation sequence.
pub open spec fn apply_ops(v: AllocatorView, ops: Seq<AllocatorOp>) -> AllocatorView
    decreases ops.len(),
{
    if ops.len() == 0 {
        v
    } else {
        apply_ops(apply_op(v, ops[0]), ops.drop_first())
    }
}

/// The generations that the allocations in `ops`, run from state `v`, assign
/// at slot position `p`, in allocation order.
pub open spec fn generations_assigned_at(v: AllocatorView, ops: Seq<AllocatorOp>, p: int) -> Seq<
    nat,
>
    decreases ops.len(),
{
    if ops.len() == 0 {
        Seq::empty()
    } else {
        let head = if ops[0] is Allocate && v.alloc_index() == p {
            seq![v.alloc_generation()]
        } else {
            Seq::<nat>::empty()
        };
        head + generations_assigned_at(apply_op(v, ops[0]), ops.drop_first(), p)
    }
}

/// Every operation preserves well-formedness — in particular, a slot
/// position appears in the free list at most once at any time.
pub proof fn lemma_wf_preserved(v: AllocatorView, op: AllocatorOp)
    requires
        v.wf(),
    ensures
        apply_op(v, op).wf(),
{
    match op {
        AllocatorOp::Allocate => {
            if v.free.len() > 0 {
                let v2 = v.alloc_next();
                assert(forall|k: int|
                    0 <= k < v2.free.len() ==> #[trigger] v2.free[k] == v.free[k]);
                assert(forall|k: int|
                    0 <= k < v2.free.len() ==> #[trigger] v.free[k] != v.free[
                        v.free.len() - 1
                    ]);
            }
        },
        AllocatorOp::Deallocate(idx) => {
            if v.is_live(idx) {
                assert(forall|k: int|
                    0 <= k < v.free.len() ==> #[trigger] v.free[k] != idx.index as int);
            }
        },
    }
}

/// No operation ever lowers a slot's generation, and the only operation that
/// changes it is an allocation reusing that very slot, which raises it by
/// exactly one.
pub proof fn lemma_generation_monotonic(v: AllocatorView, op: AllocatorOp, p: int)
    requires
        v.wf(),
        0 <= p < v.slots.len(),
    ensures
        p < apply_op(v, op).slots.len(),
        apply_op(v, op).slots[p].generation >= v.slots[p].generation,
        apply_op(v, op).slots[p].generation != v.slots[p].generation ==> (op is Allocate
            && v.free.len() > 0 && v.alloc_index() == p && apply_op(v, op).slots[p].generation
            == v.slots[p].generation + 1),
{
}

/// Law: run any operation sequence on a fresh allocator; then, at every slot
/// position, the generations assigned there are `0, 1, 2, ...` in allocation
/// order — the generation strictly increases each time the slot is reused.
pub proof fn lemma_generations_strictly_increase_on_reuse(ops: Seq<AllocatorOp>, p: int)
    requires
        p >= 0,
    ensures
        ({
            let gens = generations_assigned_at(
                AllocatorView { slots: Seq::empty(), free: Seq::empty() },
                ops,
                p,
            );
            forall|i: int| 0 <= i < gens.len() ==> #[trigger] gens[i] == i
        }),
{
    lemma_generations_assigned_fresh(
        AllocatorView { slots: Seq::empty(), free: Seq::empty() },
        ops,
        p,
    );
}

/// At a slot position the allocator has not created yet, the generations a
/// future operation sequence assigns are `0, 1, 2, ...`.
proof fn lemma_generations_assigned_fresh(v: AllocatorView, ops: Seq<AllocatorOp>, p: int)
    requires
        v.wf(),
        p >= v.slots.len(),
    ensures
        ({
            let gens = generations_assigned_at(v, ops, p);
            forall|i: int| 0 <= i < gens.len() ==> #[trigger] gens[i] == i
        }),
    decreases ops.len(),
{
    if ops.len() > 0 {
        let v2 = apply_op(v, ops[0]);
        let rest = ops.drop_first();
        lemma_wf_preserved(v, ops[0]);
        if ops[0] is Allocate && v.alloc_index() == p {
            assert(v.free.len() == 0 && p == v.slots.len());
            assert(v2.slots[p].generation == 0);
            lemma_generations_assigned_existing(v2, rest, p);
            let gens = generations_assigned_at(v, ops, p);
            let tail = generations_assigned_at(v2, rest, p);
            assert(forall|i: int| 0 <= i < gens.len() ==> #[trigger] gens[i] == if i == 0 {
                0nat
            } else {
                tail[i - 1]
            });
        } else {
            if ops[0] is Allocate && v.free.len() > 0 {
                assert(v.alloc_index() < v.slots.len());
            }
            assert(p >= v2.slots.len());
            lemma_generations_assigned_fresh(v2, rest, p);
            assert(generations_assigned_at(v, ops, p) =~= generations_assigned_at(v2, rest, p));
        }
    }
}

/// At an existing slot position with stored generation `g`, the generations
/// a future operation sequence assigns are `g + 1, g + 2, ...`.
proof fn lemma_generations_assigned_existing(v: AllocatorView, ops: Seq<AllocatorOp>, p: int)
    requires
        v.wf(),
        0 <= p < v.slots.len(),
    ensures
        ({
            let gens = generations_assigned_at(v, ops, p);
            forall|i: int|
                0 <= i < gens.len() ==> #[trigger] gens[i] == v.slots[p].generation + 1 + i
        }),
    decreases ops.len(),
{
    if ops.len() > 0 {
        let v2 = apply_op(v, ops[0]);
        let rest = ops.drop_first();
        lemma_generation_monotonic(v, ops[0], p);
        lemma_wf_preserved(v, ops[0]);
        lemma_generations_assigned_existing(v2, rest, p);
        let gens = generations_assigned_at(v, ops, p);
        let tail = generations_assigned_at(v2, rest, p);
        if ops[0] is Allocate && v.alloc_index() == p {
            assert(v2.slots[p].generation == v.slots[p].generation + 1);
            assert(forall|i: int| 0 <= i < gens.len() ==> #[trigger] gens[i] == if i == 0 {
                v.slots[p].generation + 1
            } else {
                tail[i - 1]
            });
        } else {
            assert(v2.slots[p].generation == v.slots[p].generation);
        }
    }
}

/// Deallocating a live handle leaves that handle stale.
pub proof fn lemma_deallocate_makes_stale(v: AllocatorView, idx: GenerationalIndex)
    requires
        v.is_live(idx),
    ensures
        v.dealloc_next(idx).stale(idx),
{
}

/// Law: once a handle is stale — in particular, once it has been
/// deallocated — it is never live again, whatever allocations and
/// deallocations follow, even ones that reuse its slot position.
pub proof fn lemma_stale_handles_never_live(
    v: AllocatorView,
    ops: Seq<AllocatorOp>,
    idx: GenerationalIndex,
)
    requires
        v.wf(),
        v.stale(idx),
    ensures
        apply_ops(v, ops).stale(idx),
        !apply_ops(v, ops).is_live(idx),
    decreases ops.len(),
{
    if ops.len() == 0 {
    } else {
        lemma_stale_preserved(v, ops[0], idx);
        lemma_wf_preserved(v, ops[0]);
        lemma_stale_handles_never_live(apply_op(v, ops[0]), ops.drop_first(), idx);
    }
}

/// Law: if deallocation succeeds on a handle, that handle is never live
/// again — not after any sequence of later allocations and deallocations,
/// even ones that reuse its slot position.
pub proof fn lemma_deallocated_handle_never_live(
    v: AllocatorView,
    idx: GenerationalIndex,
    ops: Seq<AllocatorOp>,
)
    requires
        v.wf(),
        v.is_live(idx),
    ensures
        !apply_ops(v.dealloc_next(idx), ops).is_live(idx),
{
    lemma_deallocate_makes_stale(v, idx);
    lemma_wf_preserved(v, AllocatorOp::Deallocate(idx));
    lemma_stale_handles_never_live(v.dealloc_next(idx), ops, idx);
}

/// Every single operation preserves staleness of every handle.
pub proof fn lemma_stale_preserved(v: AllocatorView, op: AllocatorOp, idx: GenerationalIndex)
    requires
        v.wf(),
        v.stale(idx),
    ensures
        apply_op(v, op).stale(idx),
{
    let v2 = apply_op(v, op);
    let i = idx.index as int;
    match op {
        AllocatorOp::Allocate => {
            if v.free.len() > 0 {
                assert(v2.slots.len() == v.slots.len());
                if v.free.last() == i {
                    assert(v2.slots[i].generation == v.slots[i].generation + 1);
                } else {
                    assert(v2.slots[i] == v.slots[i]);
                }
            } else {
                assert(v2.slots[i] == v.slots[i]);
            }
        },
        AllocatorOp::Deallocate(other) => {
            if v.is_live(other) {
                if other.index == idx.index {
                    assert(v2.slots[i].generation == v.slots[i].generation);
                    assert(!v2.slots[i].live);
                } else {
                    assert(v2.slots[i] == v.slots[i]);
                }
            }
        },
    }
}

struct AllocatorEntry {
    is_live: bool,
    generation: usize,
}

/// Owns the space of entity identifiers: grants new `(slot, generation)`
/// handles, reclaims retired ones, and judges liveness.
pub struct GenerationalIndexAllocator {
    entries: Vec<AllocatorEntry>,
    free: Vec<usize>,
}

impl View for GenerationalIndexAllocator {
    type V = AllocatorView;

    closed spec fn view(&self) -> AllocatorView {
        AllocatorView {
            slots: self.entries@.map_values(
                |e: AllocatorEntry| SlotView { live: e.is_live, generation: e.generation as nat },
            ),
            free: self.free@.map_values(|i: usize| i as int),
        }
    }
}

impl GenerationalIndexAllocator {
    /// Well-formedness of the concrete allocator, stated on its model.
    pub open spec fn wf(&self) -> bool {
        self@.wf()
    }

    /// A fresh allocator with no slots and an empty free list.
    pub fn new() -> (r: GenerationalIndexAllocator)
        ensures
            r.wf(),
            r@.slots =~= Seq::<SlotView>::empty(),
            r@.free =~= Seq::<int>::empty(),
    {
        let r = GenerationalIndexAllocator { entries: Vec::new(), free: Vec::new() };
        proof {
            assert(r@.slots =~= Seq::<SlotView>::empty());
            assert(r@.free =~= Seq::<int>::empty());
        }
        r
    }

    /// Grants a live handle: reuses the most recently retired slot position
    /// with its generation incremented by one, or appends a brand-new slot at
    /// generation zero. Never fails; grows storage as needed.
    pub fn allocate(&mut self) -> (r: GenerationalIndex)
        requires
            old(self).wf(),
        ensures
            final(self).wf(),
            final(self)@ == old(self)@.alloc_next(),
            r.index == old(self)@.alloc_index(),
            r.generation == old(self)@.alloc_generation(),
            final(self)@.is_live(r),
    {
        match self.free.pop() {
            Some(index) => {
                proof {
                    assert(old(self)@.free.len() > 0);
                    assert(old(self)@.free.last() == index as int);
                    assert(index < self.entries@.len());
                }
                let g: usize = self.entries[index].generation;
                self.entries[index] = AllocatorEntry { is_live: true, generation: g + 1 };
                proof {
                    assert(self@.slots =~= old(self)@.alloc_next().slots);
                    assert(self@.free =~= old(self)@.alloc_next().free);
                }
                GenerationalIndex { index, generation: g + 1 }
            },
            None => {
                self.entries.push(AllocatorEntry { is_live: true, generation: 0 });
                proof {
                    assert(self@.slots =~= old(self)@.alloc_next().slots);
                    assert(self@.free =~= old(self)@.alloc_next().free);
                }
                GenerationalIndex { index: self.entries.len() - 1, generation: 0 }
            },
        }
    }

    /// Retires a live handle's slot: marks it dead and returns its position
    /// to the free list for reuse. Returns `false` (a no-op) if the handle
    /// is not currently live — wrong generation, already dead, or out of
    /// range — so a second call on the same handle cannot succeed.
    pub fn deallocate(&mut self, index: GenerationalIndex) -> (r: bool)
        requires
            old(self).wf(),
        ensures
            final(self).wf(),
            r == old(self)@.is_live(index),
            final(self)@ == old(self)@.dealloc_next(index),
    {
        if self.is_live(index) {
            let g: usize = self.entries[index.index].generation;
            self.entries[index.index] = AllocatorEntry { is_live: false, generation: g };
            if g < usize::MAX {
                self.free.push(index.index);
            }
            proof {
                assert(forall|k: int|
                    0 <= k < old(self)@.free.len() ==> #[trigger] old(self)@.free[k]
                        != index.index as int);
                assert(self@.slots =~= old(self)@.dealloc_next(index).slots);
                assert(self@.free =~= old(self)@.dealloc_next(index).free);
            }
            true
        } else {
            false
        }
    }

    /// True iff the handle currently refers to an allocated, non-destroyed
    /// slot.
    pub fn is_live(&self, index: GenerationalIndex) -> (r: bool)
        ensures
            r == self@.is_live(index),
    {
        index.index < self.entries.len() && self.entries[index.index].generation
            == index.generation && self.entries[index.index].is_live
    }
}

} // verus!
