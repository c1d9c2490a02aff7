//! The generation-checked container: a sparse array mapping slot position to
//! a value of one type, tagged with the generation at which the value was
//! written. It rejects writes through handles from superseded generations.

use crate::allocator::{AllocatorView, GenerationalIndex, GenerationalIndexAllocator};
use vstd::prelude::*;

verus! {

/// One occupied container position, as seen in specifications: the stored
/// value and the generation active when it was written.
pub struct EntryView<T> {
    pub generation: nat,
    pub value: T,
}

/// The table after padding with empty positions up to length `n` (a table
/// already that long is unchanged).
pub open spec fn table_padded<T>(t: Seq<Option<EntryView<T>>>, n: int) -> Seq<
    Option<EntryView<T>>,
> {
    if t.len() >= n {
        t
    } else {
        t + Seq::new((n - t.len()) as nat, |k: int| None)
    }
}

/// The table after a write of `value` at position `i` under generation `g`.
pub open spec fn table_set<T>(t: Seq<Option<EntryView<T>>>, i: int, g: nat, value: T) -> Seq<
    Option<EntryView<T>>,
> {
    table_padded(t, i + 1).update(i, Some(EntryView { generation: g, value }))
}

/// The table after clearing position `i` (positions beyond the table are
/// already clear).
pub open spec fn table_remove<T>(t: Seq<Option<EntryView<T>>>, i: int) -> Seq<
    Option<EntryView<T>>,
> {
    if 0 <= i < t.len() {
        t.update(i, None)
    } else {
        t
    }
}

/// The component a handle reads from a table: present only if the handle's
/// position is occupied and the stored generation equals the handle's
/// exactly. This check is container-local: it does not consult the
/// allocator.
pub open spec fn table_get<T>(t: Seq<Option<EntryView<T>>>, idx: GenerationalIndex) -> Option<T> {
    if idx.index < t.len() {
        match t[idx.index as int] {
            Some(e) => if e.generation == idx.generation {
                Some(e.value)
            } else {
                None
            },
            None => None,
        }
    } else {
        None
    }
}

/// Whether a write through `idx` is permitted: the position is empty, beyond
/// the table, or occupied at a generation no newer than the handle's. A
/// write from an older generation than the stored one is a stale write and
/// is rejected.
pub open spec fn can_set<T>(t: Seq<Option<EntryView<T>>>, idx: GenerationalIndex) -> bool {
    idx.index < t.len() ==> match t[idx.index as int] {
        Some(e) => e.generation <= idx.generation,
        None => true,
    }
}

/// Whether a handle at position `i` with generation `g` would be judged live
/// by an allocator in state `a`.
pub open spec fn live_at(a: AllocatorView, i: int, g: nat) -> bool {
    &&& 0 <= i < a.slots.len()
    &&& a.slots[i].generation == g
    &&& a.slots[i].live
}

/// One element of an enumeration of a table's live occupants.
pub struct ValidEntry<T> {
    pub index: int,
    pub generation: nat,
    pub value: T,
}

/// Whether an executable `(handle, value)` pair carries exactly the data of
/// one enumerated occupant.
pub open spec fn pair_matches<T>(p: (GenerationalIndex, &T), ve: ValidEntry<T>) -> bool {
    &&& p.0.index == ve.index
    &&& p.0.generation == ve.generation
    &&& *p.1 == ve.value
}

/// The occupants of the first `n` table positions whose reconstructed handle
/// the allocator judges live, in ascending position order.
pub open spec fn valid_entries<T>(
    t: Seq<Option<EntryView<T>>>,
    a: AllocatorView,
    n: int,
) -> Seq<ValidEntry<T>>
    decreases n,
{
    if n <= 0 {
        Seq::empty()
    } else {
        let prefix = valid_entries(t, a, n - 1);
        if t[n - 1] matches Some(e) && live_at(a, n - 1, e.generation) {
            prefix.push(
                ValidEntry {
                    index: n - 1,
                    generation: t[n - 1].unwrap().generation,
                    value: t[n - 1].unwrap().value,
                },
            )
        } else {
            prefix
        }
    }
}

struct ArrayEntry<T> {
    value: T,
    generation: usize,
}

/// A sparse array of values of one type, indexed by slot position and
/// generation-checked on read and write.
pub struct GenerationalIndexArray<T>(Vec<Option<ArrayEntry<T>>>);

impl<T> View for GenerationalIndexArray<T> {
    type V = Seq<Option<EntryView<T>>>;

    closed spec fn view(&self) -> Seq<Option<EntryView<T>>> {
        self.0@.map_values(
            |e: Option<ArrayEntry<T>>|
                match e {
                    Some(a) => Some(EntryView { generation: a.generation as nat, value: a.value }),
                    None => None,
                },
        )
    }
}

impl<T> GenerationalIndexArray<T> {
    /// A fresh, fully empty container.
    pub fn new() -> (r: GenerationalIndexArray<T>)
        ensures
            r@ =~= Seq::<Option<EntryView<T>>>::empty(),
    {
        let r = GenerationalIndexArray(Vec::new());
        proof {
            assert(r@ =~= Seq::<Option<EntryView<T>>>::empty());
        }
        r
    }

    /// Stores `(value, index.generation)` at `index`'s position, growing the
    /// backing storage as needed; any prior entry at that position is
    /// replaced. A write through a handle whose generation is older than the
    /// stored one would let a stale handle supersede newer data, so such
    /// writes are rejected outright by the precondition.
    pub fn set(&mut self, index: GenerationalIndex, value: T)
        requires
            can_set(old(self)@, index),
        ensures
            final(self)@ == table_set(
                old(self)@,
                index.index as int,
                index.generation as nat,
                value,
            ),
    {
        while self.0.len() <= index.index
            invariant
                self@.len() >= old(self)@.len(),
                old(self)@.len() > index.index ==> self@ == old(self)@,
                old(self)@.len() <= index.index ==> self@.len() <= index.index + 1,
                forall|j: int| 0 <= j < old(self)@.len() ==> self@[j] == old(self)@[j],
                forall|j: int| old(self)@.len() <= j < self@.len() ==> self@[j] is None,
            decreases index.index + 1 - self.0.len(),
        {
            let ghost prev = self@;
            let ghost prev0 = self.0@;
            self.0.push(None);
            proof {
                assert forall|j: int| 0 <= j < prev.len() implies self@[j] == prev[j] by {
                    assert(self.0@[j] == prev0[j]);
                }
                assert(self@[prev.len() as int] is None);
                assert forall|j: int|
                    old(self)@.len() <= j < self@.len() implies self@[j] is None by {
                    if j < prev.len() {
                        assert(self.0@[j] == prev0[j]);
                        assert(prev[j] is None);
                    }
                }
            }
        }
        proof {
            assert(self@ =~= table_padded(old(self)@, index.index + 1));
        }
        self.0[index.index] = Some(ArrayEntry { value, generation: index.generation });
        proof {
            assert(self@ =~= table_set(
                old(self)@,
                index.index as int,
                index.generation as nat,
                value,
            ));
        }
    }

    /// Clears any entry at `index`'s position, whatever its generation:
    /// removal is idempotent and cannot regress anything, so no generation
    /// check is made.
    pub fn remove(&mut self, index: GenerationalIndex)
        ensures
            final(self)@ == table_remove(old(self)@, index.index as int),
    {
        if index.index < self.0.len() {
            self.0[index.index] = None;
            proof {
                assert(self@ =~= table_remove(old(self)@, index.index as int));
            }
        }
    }

    /// Reads the value at `index`'s position, but only if the stored
    /// generation equals `index`'s exactly; otherwise reports absence.
    pub fn get(&self, index: GenerationalIndex) -> (r: Option<&T>)
        ensures
            match r {
                Some(v) => table_get(self@, index) == Some(*v),
                None => table_get(self@, index) is None,
            },
    {
        if index.index >= self.0.len() {
            return None;
        }
        match &self.0[index.index] {
            Some(entry) => if entry.generation == index.generation {
                Some(&entry.value)
            } else {
                None
            },
            None => None,
        }
    }

    /// Like `get`, but grants mutable access to the stored value. The
    /// generation tag and every other position are left unchanged.
    pub fn get_mut(&mut self, index: GenerationalIndex) -> (r: Option<&mut T>)
        ensures
            match r {
                Some(p) => {
                    &&& table_get(old(self)@, index) == Some(*p)
                    &&& final(self)@ == old(self)@.update(
                        index.index as int,
                        Some(EntryView { generation: index.generation as nat, value: *final(p) }),
                    )
                },
                None => {
                    &&& table_get(old(self)@, index) is None
                    &&& final(self)@ == old(self)@
                },
            },
    {
        if index.index >= self.0.len() {
            return None;
        }
        let matches_generation: bool = match &self.0[index.index] {
            Some(entry) => entry.generation == index.generation,
            None => false,
        };
        if !matches_generation {
            return None;
        }
        match &mut self.0[index.index] {
            Some(entry) => Some(&mut entry.value),
            None => vstd::pervasive::unreached(),
        }
    }

    /// Scans every occupied position, reconstructs the handle from the
    /// position and the stored generation, and returns the `(handle, value)`
    /// pairs the allocator judges live, in ascending position order. This is
    /// the authoritative enumeration of the entities currently carrying this
    /// component: container-local presence combined with
    /// allocator-authoritative liveness.
    pub fn get_all_valid<'a>(&'a self, allocator: &GenerationalIndexAllocator) -> (r: Vec<
        (GenerationalIndex, &'a T),
    >)
        ensures
            r@.len() == valid_entries(self@, allocator@, self@.len() as int).len(),
            forall|k: int|
                0 <= k < r@.len() ==> pair_matches(
                    #[trigger] r@[k],
                    valid_entries(self@, allocator@, self@.len() as int)[k],
                ),
    {
        let mut result: Vec<(GenerationalIndex, &'a T)> = Vec::new();
        let mut i: usize = 0;
        while i < self.0.len()
            invariant
                i <= self.0.len(),
                result@.len() == valid_entries(self@, allocator@, i as int).len(),
                forall|k: int|
                    0 <= k < result@.len() ==> pair_matches(
                        #[trigger] result@[k],
                        valid_entries(self@, allocator@, i as int)[k],
                    ),
            decreases self.0.len() - i,
        {
            let ghost prev_res = result@;
            let ghost prefix = valid_entries(self@, allocator@, i as int);
            match &self.0[i] {
                Some(entry) => {
                    proof {
                        assert(self@[i as int] == Some(
                            EntryView { generation: entry.generation as nat, value: entry.value },
                        ));
                    }
                    let gi = GenerationalIndex { index: i, generation: entry.generation };
                    if allocator.is_live(gi) {
                        result.push((gi, &entry.value));
                        proof {
                            let ve = ValidEntry {
                                index: i as int,
                                generation: entry.generation as nat,
                                value: entry.value,
                            };
                            assert(valid_entries(self@, allocator@, i + 1) == prefix.push(ve));
                            assert forall|k: int| 0 <= k < result@.len() implies pair_matches(
                                #[trigger] result@[k],
                                valid_entries(self@, allocator@, i + 1)[k],
                            ) by {
                                if k < prev_res.len() {
                                    assert(result@[k] == prev_res[k]);
                                    assert(valid_entries(self@, allocator@, i + 1)[k]
                                        == prefix[k]);
                                } else {
                                    assert(result@[k] == (gi, &entry.value));
                                    assert(valid_entries(self@, allocator@, i + 1)[k] == ve);
                                }
                            }
                        }
                    } else {
                        proof {
                            assert(valid_entries(self@, allocator@, i + 1) == prefix);
                        }
                    }
                },
                None => {
                    proof {
                        assert(self@[i as int] is None);
                        assert(valid_entries(self@, allocator@, i + 1) == prefix);
                    }
                },
            }
            i += 1;
        }
        result
    }
}

} // verus!
