//! Slot-based arena: a stable-index container supporting allocate / free /
//! batch insert and safe disjoint dual mutable access.

use vstd::prelude::*;

verus! {

/// A pair of indices, most often read as the half-open range `[a, b)`.
#[derive(Clone, Copy, Debug)]
pub struct IdxPair {
    pub a: usize,
    pub b: usize,
}

impl IdxPair {
    pub fn new(a: usize, b: usize) -> (r: Self)
        ensures
            r.a == a,
            r.b == b,
    {
        Self { a, b }
    }

    /// Distance between `a` and `b`.
    pub fn span(&self) -> (r: usize)
        requires
            self.a <= self.b,
        ensures
            r == self.b - self.a,
    {
        self.b - self.a
    }
}

/// One storage slot of a `Heap`.
#[derive(Clone, Copy, Debug)]
pub enum HeapSlot<T> {
    /// The slot is free and may be claimed by a later allocation.
    Free,
    /// The slot is reserved for an allocation but holds no value yet.
    Allocated,
    /// The slot holds a live value.
    Occupied(T),
}

/// Stable-index arena. Externally visible indices always refer to
/// `Occupied` slots; `Allocated` is a transient window between reservation
/// (`allocate_slots`) and initialization (`insert_vec`).
pub struct Heap<T> {
    slots: Vec<HeapSlot<T>>,
}

impl<T> View for Heap<T> {
    type V = Seq<HeapSlot<T>>;

    closed spec fn view(&self) -> Seq<HeapSlot<T>> {
        self.slots@
    }
}

/// Every slot of `s` in the range `[start, end)` is free.
pub open spec fn all_free<T>(s: Seq<HeapSlot<T>>, start: int, end: int) -> bool {
    forall|k: int| start <= k < end ==> s[k] is Free
}

/// A run of `count` free slots starting at `j` fits inside `s`.
pub open spec fn fits_at<T>(s: Seq<HeapSlot<T>>, j: int, count: int) -> bool {
    j + count <= s.len() && all_free(s, j, j + count)
}

/// First-fit scan from position `from`: the least `j >= from` such that the
/// `count` slots starting at `j` all exist and are free, or `s.len()` when no
/// such run exists (the position where fresh storage would be appended).
pub open spec fn first_fit_from<T>(s: Seq<HeapSlot<T>>, count: int, from: int) -> int
    decreases s.len() - from,
{
    if from + count > s.len() {
        s.len() as int
    } else if all_free(s, from, from + count) {
        from
    } else {
        first_fit_from(s, count, from + 1)
    }
}

/// First-fit start position for a run of `count` free slots, scanning from 0.
pub open spec fn first_fit<T>(s: Seq<HeapSlot<T>>, count: int) -> int {
    first_fit_from(s, count, 0)
}

/// The values of the occupied slots of `s`, in slot order.
pub open spec fn occupied_values<T>(s: Seq<HeapSlot<T>>) -> Seq<T>
    decreases s.len(),
{
    if s.len() == 0 {
        seq![]
    } else if s.last() is Occupied {
        occupied_values(s.drop_last()).push(s.last()->0)
    } else {
        occupied_values(s.drop_last())
    }
}

/// The positions of the occupied slots of `s`, in slot order.
pub open spec fn occupied_indices<T>(s: Seq<HeapSlot<T>>) -> Seq<int>
    decreases s.len(),
{
    if s.len() == 0 {
        seq![]
    } else if s.last() is Occupied {
        occupied_indices(s.drop_last()).push(s.len() - 1)
    } else {
        occupied_indices(s.drop_last())
    }
}

/// Extending a prefix of `s` by one slot extends its occupied values and
/// positions by that slot's contribution.
proof fn lemma_occupied_snoc<T>(s: Seq<HeapSlot<T>>, i: int)
    requires
        0 <= i < s.len(),
    ensures
        occupied_values(s.subrange(0, i + 1)) == if s[i] is Occupied {
            occupied_values(s.subrange(0, i)).push(s[i]->0)
        } else {
            occupied_values(s.subrange(0, i))
        },
        occupied_indices(s.subrange(0, i + 1)) == if s[i] is Occupied {
            occupied_indices(s.subrange(0, i)).push(i)
        } else {
            occupied_indices(s.subrange(0, i))
        },
{
    assert(s.subrange(0, i + 1).drop_last() =~= s.subrange(0, i));
    assert(s.subrange(0, i + 1).last() == s[i]);
}

/// When no run of `count` free slots starts below `i`, the first-fit scan
/// from 0 and the scan from `i` agree.
proof fn lemma_first_fit_skip<T>(s: Seq<HeapSlot<T>>, count: int, i: int)
    requires
        0 <= i,
        forall|j: int| 0 <= j < i ==> !fits_at(s, j, count),
    ensures
        first_fit(s, count) == first_fit_from(s, count, i),
    decreases i,
{
    if i > 0 {
        lemma_first_fit_skip(s, count, i - 1);
        assert(!fits_at(s, i - 1, count));
    }
}

/// The first-fit scan never lands past a position where a run fits.
proof fn lemma_first_fit_le<T>(s: Seq<HeapSlot<T>>, count: int, from: int, j: int)
    requires
        0 <= from <= j,
        fits_at(s, j, count),
    ensures
        first_fit_from(s, count, from) <= j,
    decreases j - from,
{
    if from < j && !all_free(s, from, from + count) {
        lemma_first_fit_le(s, count, from + 1, j);
    }
}

/// Index reuse: after slot `i` is freed, the first-fit scan for a single
/// slot returns an index no larger than `i`, and exactly `i` when no slot
/// below `i` is free. Combined with the contract of `allocate_slots`, a
/// `free(i)` followed by `allocate_slots(1)` before any other allocation
/// may hand the index `i` back out: indices are not stable across
/// free/allocate cycles.
pub proof fn lemma_free_then_allocate_reuses<T>(s: Seq<HeapSlot<T>>, i: int)
    requires
        0 <= i < s.len(),
    ensures
        first_fit(s.update(i, HeapSlot::Free), 1) <= i,
        (forall|j: int| 0 <= j < i ==> !(s[j] is Free)) ==> first_fit(
            s.update(i, HeapSlot::Free),
            1,
        ) == i,
{
    let s2 = s.update(i, HeapSlot::<T>::Free);
    assert(fits_at(s2, i, 1));
    lemma_first_fit_le(s2, 1, 0, i);
    if forall|j: int| 0 <= j < i ==> !(s[j] is Free) {
        assert forall|j: int| 0 <= j < i implies !fits_at(s2, j, 1) by {
            assert(s2[j] == s[j]);
        }
        lemma_first_fit_skip(s2, 1, i);
    }
}

/// Collects mutable references to the occupied slots of `slice`, front to
/// back. Each slot that handed out a reference finally holds whatever is
/// last written through it; the rest of the slice is untouched.
fn collect_occupied_mut<'a, T>(slice: &'a mut [HeapSlot<T>]) -> (r: Vec<&'a mut T>)
    ensures
        r@.len() == occupied_values(old(slice)@).len(),
        forall|k: int| 0 <= k < r@.len() ==> *r@[k] == occupied_values(old(slice)@)[k],
        final(slice)@.len() == old(slice)@.len(),
        forall|i: int|
            0 <= i < old(slice)@.len() && !(old(slice)@[i] is Occupied) ==> final(slice)@[i]
                == old(slice)@[i],
        forall|i: int|
            0 <= i < old(slice)@.len() && old(slice)@[i] is Occupied ==> final(slice)@[i]
                == HeapSlot::Occupied(
                *final(r@[occupied_values(old(slice)@.subrange(0, i)).len() as int]),
            ),
    decreases old(slice)@.len(),
{
    let ghost s0 = slice@;
    let n = slice.len();
    if n == 0 {
        proof {
            assert(occupied_values(s0) =~= Seq::<T>::empty());
        }
        return Vec::new();
    }
    let (head, last) = slice.split_at_mut(n - 1);
    let ghost h0 = head@;
    let mut r = collect_occupied_mut(head);
    let ghost rs0 = r@;
    let slot = match last.first_mut() {
        Some(slot) => slot,
        None => unreached(),
    };
    match slot {
        HeapSlot::Occupied(value) => {
            r.push(value);
        }
        _ => {}
    }
    proof {
        let ni = n as int;
        assert(h0 == s0.subrange(0, ni - 1));
        lemma_occupied_snoc(s0, ni - 1);
        assert(s0.subrange(0, ni) =~= s0);
        assert forall|i: int| 0 <= i <= ni - 1 implies #[trigger] s0.subrange(0, i)
            == h0.subrange(0, i) by {
            assert(s0.subrange(0, i) =~= h0.subrange(0, i));
        }
        assert(h0.subrange(0, ni - 1) =~= h0);
        assert forall|i: int| 0 <= i < ni - 1 && s0[i] is Occupied implies occupied_values(
            s0.subrange(0, i),
        ).len() < rs0.len() by {
            lemma_occupied_snoc(h0, i);
            lemma_occupied_prefix_monotone(h0, i + 1, ni - 1);
        }
    }
    r
}

/// Occupied-value counts only grow as a prefix widens.
proof fn lemma_occupied_prefix_monotone<T>(s: Seq<HeapSlot<T>>, i: int, j: int)
    requires
        0 <= i <= j <= s.len(),
    ensures
        occupied_values(s.subrange(0, i)).len() <= occupied_values(s.subrange(0, j)).len(),
    decreases j - i,
{
    if i < j {
        lemma_occupied_prefix_monotone(s, i, j - 1);
        lemma_occupied_snoc(s, j - 1);
    }
}

impl<T> Heap<T> {
    /// Create a heap with the given capacity, all slots free.
    #[verifier::loop_isolation(false)]
    pub fn with_capacity(capacity: usize) -> (r: Self)
        ensures
            r@.len() == capacity,
            all_free(r@, 0, capacity as int),
    {
        let mut slots: Vec<HeapSlot<T>> = Vec::with_capacity(capacity);
        let mut i: usize = 0;
        while i < capacity
            invariant
                i <= capacity,
                slots@.len() == i,
                all_free(slots@, 0, i as int),
            decreases capacity - i,
        {
            slots.push(HeapSlot::Free);
            i += 1;
        }
        Heap { slots }
    }

    /// Every slot in `[start, start + count)` exists and is free.
    #[verifier::loop_isolation(false)]
    fn run_is_free(&self, start: usize, count: usize) -> (r: bool)
        requires
            start + count <= self@.len(),
        ensures
            r == all_free(self@, start as int, start as int + count as int),
    {
        let n = self.slots.len();
        let mut k: usize = 0;
        while k < count
            invariant
                k <= count,
                n == self@.len(),
                start + count <= n,
                all_free(self@, start as int, start as int + k as int),
            decreases count - k,
        {
            match &self.slots[start + k] {
                HeapSlot::Free => {}
                _ => {
                    return false;
                }
            }
            k += 1;
        }
        true
    }

    /// Reserve `count` contiguous previously-free slots and return the start
    /// index. Scans existing storage first-fit from index 0, and appends new
    /// storage at the end only when no free run fits. The returned slots are
    /// `Allocated`: reserved, not yet readable.
    #[verifier::loop_isolation(false)]
    pub fn allocate_slots(&mut self, count: usize) -> (start: usize)
        requires
            old(self)@.len() + count <= usize::MAX,
        ensures
            start == first_fit(old(self)@, count as int),
            final(self)@.len() == if start + count > old(self)@.len() {
                start + count
            } else {
                old(self)@.len() as int
            },
            forall|k: int| start <= k < start + count ==> final(self)@[k] is Allocated,
            forall|k: int|
                0 <= k < old(self)@.len() && !(start <= k < start + count) ==> final(self)@[k]
                    == old(self)@[k],
    {
        let ghost s0 = self@;
        let n = self.slots.len();
        let mut i: usize = 0;
        while i + count <= n
            invariant
                self@ == s0,
                n == s0.len(),
                i <= n,
                s0.len() + count <= usize::MAX,
                forall|j: int| 0 <= j < i ==> !fits_at(s0, j, count as int),
            decreases n - i,
        {
            if self.run_is_free(i, count) {
                proof {
                    lemma_first_fit_skip(s0, count as int, i as int);
                }
                // Mark the run as allocated.
                let mut k: usize = 0;
                while k < count
                    invariant
                        k <= count,
                        i + count <= n,
                        n == self@.len(),
                        self@.len() == s0.len(),
                        forall|j: int| i <= j < i + k ==> self@[j] is Allocated,
                        forall|j: int|
                            0 <= j < s0.len() && !(i <= j < i + k) ==> self@[j] == s0[j],
                    decreases count - k,
                {
                    self.slots[i + k] = HeapSlot::Allocated;
                    k += 1;
                }
                return i;
            }
            i += 1;
        }
        proof {
            lemma_first_fit_skip(s0, count as int, i as int);
        }
        // No free run fits: extend storage and allocate at the end.
        let start = self.slots.len();
        let mut k: usize = 0;
        while k < count
            invariant
                k <= count,
                start == s0.len(),
                s0.len() + count <= usize::MAX,
                self@.len() == s0.len() + k,
                forall|j: int| start <= j < start + k ==> self@[j] is Allocated,
                forall|j: int| 0 <= j < s0.len() ==> self@[j] == s0[j],
            decreases count - k,
        {
            self.slots.push(HeapSlot::Allocated);
            k += 1;
        }
        start
    }

    /// Reset one slot to free, whatever its prior state. Freed slots are
    /// eligible for the first-fit scan of future allocations, so indices are
    /// reused and not stable across free/allocate cycles.
    pub fn free(&mut self, slot: usize)
        requires
            slot < old(self)@.len(),
        ensures
            final(self)@ == old(self)@.update(slot as int, HeapSlot::<T>::Free),
    {
        self.slots[slot] = HeapSlot::Free;
    }

    /// Move `values` into the already-allocated slots starting at `start`,
    /// turning each target slot from `Allocated` to `Occupied`.
    #[verifier::loop_isolation(false)]
    pub fn insert_vec(&mut self, start: usize, values: Vec<T>)
        requires
            start + values@.len() <= old(self)@.len(),
            forall|k: int|
                start <= k < start + values@.len() ==> old(self)@[k] is Allocated,
        ensures
            final(self)@.len() == old(self)@.len(),
            forall|k: int|
                start <= k < start + values@.len() ==> final(self)@[k]
                    == HeapSlot::Occupied(values@[k - start]),
            forall|k: int|
                0 <= k < old(self)@.len() && !(start <= k < start + values@.len())
                    ==> final(self)@[k] == old(self)@[k],
    {
        let ghost s0 = self@;
        let ghost vs = values@;
        let n = self.slots.len();
        let count = values.len();
        let mut values = values;
        // Fill backward so each value can be popped off the end.
        let mut j = count;
        while j > 0
            invariant
                j <= count,
                values@ == vs.subrange(0, j as int),
                self@.len() == s0.len(),
                n == s0.len(),
                start + count <= n,
                forall|k: int|
                    start + j <= k < start + count ==> self@[k] == HeapSlot::Occupied(
                        vs[k - start],
                    ),
                forall|k: int|
                    0 <= k < s0.len() && !(start + j <= k < start + count) ==> self@[k] == s0[k],
            decreases j,
        {
            j -= 1;
            let value = match values.pop() {
                Some(v) => v,
                None => unreached(),
            };
            assert(value == vs[j as int]);
            assert(values@ == vs.subrange(0, j as int));
            self.slots[start + j] = HeapSlot::Occupied(value);
        }
    }

    /// Allocate a first-fit run of slots and move `values` into it at once;
    /// returns the start index of the run.
    pub fn insert_alloc_vec(&mut self, values: Vec<T>) -> (start: usize)
        requires
            old(self)@.len() + values@.len() <= usize::MAX,
        ensures
            start == first_fit(old(self)@, values@.len() as int),
            final(self)@.len() == if start + values@.len() > old(self)@.len() {
                start + values@.len()
            } else {
                old(self)@.len() as int
            },
            forall|k: int|
                start <= k < start + values@.len() ==> final(self)@[k]
                    == HeapSlot::Occupied(values@[k - start]),
            forall|k: int|
                0 <= k < old(self)@.len() && !(start <= k < start + values@.len())
                    ==> final(self)@[k] == old(self)@[k],
    {
        let start = self.allocate_slots(values.len());
        self.insert_vec(start, values);
        start
    }

    /// Immutable access to the value in an occupied slot.
    pub fn get(&self, index: usize) -> (r: &T)
        requires
            index < self@.len(),
            self@[index as int] is Occupied,
        ensures
            *r == self@[index as int]->0,
    {
        match &self.slots[index] {
            HeapSlot::Occupied(value) => value,
            _ => unreached(),
        }
    }

    /// Mutable access to the value in an occupied slot.
    pub fn get_mut(&mut self, index: usize) -> (r: &mut T)
        requires
            index < old(self)@.len(),
            old(self)@[index as int] is Occupied,
        ensures
            *r == old(self)@[index as int]->0,
            final(self)@ == old(self)@.update(index as int, HeapSlot::Occupied(*final(r))),
    {
        match &mut self.slots[index] {
            HeapSlot::Occupied(value) => value,
            _ => unreached(),
        }
    }

    /// Simultaneous mutable access to two distinct occupied slots. The
    /// backing storage is split at the larger index, so the two references
    /// are drawn from disjoint windows and writes through one are never
    /// observable through the other.
    pub fn get_mut_pair(&mut self, a: usize, b: usize) -> (r: (&mut T, &mut T))
        requires
            a != b,
            a < old(self)@.len(),
            b < old(self)@.len(),
            old(self)@[a as int] is Occupied,
            old(self)@[b as int] is Occupied,
        ensures
            *r.0 == old(self)@[a as int]->0,
            *r.1 == old(self)@[b as int]->0,
            final(self)@ == old(self)@.update(a as int, HeapSlot::Occupied(*final(r.0))).update(
                b as int,
                HeapSlot::Occupied(*final(r.1)),
            ),
    {
        let ghost s0 = self@;
        let slice = self.slots.as_mut_slice();
        if a < b {
            let (left, right) = slice.split_at_mut(b);
            let (_, left_tail) = left.split_at_mut(a);
            let slot_a = match left_tail.first_mut() {
                Some(slot) => slot,
                None => unreached(),
            };
            let slot_b = match right.first_mut() {
                Some(slot) => slot,
                None => unreached(),
            };
            let first = match slot_a {
                HeapSlot::Occupied(value) => value,
                _ => unreached(),
            };
            let second = match slot_b {
                HeapSlot::Occupied(value) => value,
                _ => unreached(),
            };
            (first, second)
        } else {
            let (left, right) = slice.split_at_mut(a);
            let (_, left_tail) = left.split_at_mut(b);
            let slot_b = match left_tail.first_mut() {
                Some(slot) => slot,
                None => unreached(),
            };
            let slot_a = match right.first_mut() {
                Some(slot) => slot,
                None => unreached(),
            };
            let first = match slot_a {
                HeapSlot::Occupied(value) => value,
                _ => unreached(),
            };
            let second = match slot_b {
                HeapSlot::Occupied(value) => value,
                _ => unreached(),
            };
            (first, second)
        }
    }

    /// Number of slots, occupied or not.
    pub fn len(&self) -> (n: usize)
        ensures
            n == self@.len(),
    {
        self.slots.len()
    }

    /// Whether the slot at `index` holds a live value.
    pub fn is_occupied(&self, index: usize) -> (r: bool)
        requires
            index < self@.len(),
        ensures
            r == (self@[index as int] is Occupied),
    {
        match &self.slots[index] {
            HeapSlot::Occupied(_) => true,
            _ => false,
        }
    }

    /// References to all occupied values, in slot order.
    #[verifier::loop_isolation(false)]
    pub fn flatten_iter(&self) -> (r: Vec<&T>)
        ensures
            r@.len() == occupied_values(self@).len(),
            forall|k: int| 0 <= k < r@.len() ==> *r@[k] == occupied_values(self@)[k],
    {
        let n = self.slots.len();
        let mut r: Vec<&T> = Vec::new();
        let mut i: usize = 0;
        while i < n
            invariant
                i <= n,
                r@.len() == occupied_values(self@.subrange(0, i as int)).len(),
                forall|k: int|
                    0 <= k < r@.len() ==> *r@[k] == occupied_values(self@.subrange(0, i as int))[k],
            decreases n - i,
        {
            proof {
                lemma_occupied_snoc(self@, i as int);
            }
            match &self.slots[i] {
                HeapSlot::Occupied(value) => r.push(value),
                _ => {}
            }
            i += 1;
        }
        proof {
            assert(self@.subrange(0, n as int) =~= self@);
        }
        r
    }

    /// Mutable references to all occupied values, in slot order. The slot
    /// a reference came from ends up holding whatever is finally written
    /// through it; every other slot is untouched.
    pub fn flatten_iter_mut(&mut self) -> (r: Vec<&mut T>)
        ensures
            r@.len() == occupied_values(old(self)@).len(),
            forall|k: int| 0 <= k < r@.len() ==> *r@[k] == occupied_values(old(self)@)[k],
            final(self)@.len() == old(self)@.len(),
            forall|i: int|
                0 <= i < old(self)@.len() && !(old(self)@[i] is Occupied) ==> final(self)@[i]
                    == old(self)@[i],
            forall|i: int|
                0 <= i < old(self)@.len() && old(self)@[i] is Occupied ==> final(self)@[i]
                    == HeapSlot::Occupied(
                    *final(r@[occupied_values(old(self)@.subrange(0, i)).len() as int]),
                ),
    {
        let slice = self.slots.as_mut_slice();
        collect_occupied_mut(slice)
    }

    /// `(original_index, dense_rank, value)` triples for all occupied values,
    /// in slot order. The dense rank is the 0-based position among only the
    /// occupied values, so downstream consumers get a gap-free index space.
    #[verifier::loop_isolation(false)]
    pub fn flatten_enumerate(&self) -> (r: Vec<(usize, usize, &T)>)
        ensures
            r@.len() == occupied_values(self@).len(),
            forall|k: int|
                0 <= k < r@.len() ==> r@[k].0 == occupied_indices(self@)[k] && r@[k].1 == k
                    && *r@[k].2 == occupied_values(self@)[k],
    {
        let n = self.slots.len();
        let mut r: Vec<(usize, usize, &T)> = Vec::new();
        let mut i: usize = 0;
        while i < n
            invariant
                i <= n,
                r@.len() == occupied_values(self@.subrange(0, i as int)).len(),
                r@.len() == occupied_indices(self@.subrange(0, i as int)).len(),
                forall|k: int|
                    0 <= k < r@.len() ==> r@[k].0 == occupied_indices(self@.subrange(0, i as int))[k]
                        && r@[k].1 == k && *r@[k].2 == occupied_values(
                        self@.subrange(0, i as int),
                    )[k],
            decreases n - i,
        {
            proof {
                lemma_occupied_snoc(self@, i as int);
            }
            match &self.slots[i] {
                HeapSlot::Occupied(value) => {
                    let rank = r.len();
                    r.push((i, rank, value));
                }
                _ => {}
            }
            i += 1;
        }
        proof {
            assert(self@.subrange(0, n as int) =~= self@);
        }
        r
    }
}

} // verus!
