//! A fixed-capacity circular buffer.
//!
//! `RingBuffer<T>` stores elements in a preallocated vector of slots and
//! cycles its read and write positions modulo the capacity. The state where
//! the read and write indices coincide is disambiguated by the occupancy of
//! the slot at that index: vacant means empty, occupied means full. No
//! separate element counter is kept.

use vstd::prelude::*;

verus! {

/// The error returned by `push` when every slot is occupied.
#[derive(Debug)]
pub struct Full;

/// The error returned by `try_new` when the requested capacity is zero.
#[derive(Debug)]
pub struct InvalidCapacity;

/// The contents after a push: the item is appended at the back when there is
/// room, and the contents are unchanged when the buffer is full.
pub open spec fn push_contents<T>(contents: Seq<T>, capacity: int, item: T) -> Seq<T> {
    if contents.len() < capacity {
        contents.push(item)
    } else {
        contents
    }
}

/// The contents after a pull: the oldest element is removed when one is
/// present, and an empty buffer stays empty.
pub open spec fn pull_contents<T>(contents: Seq<T>) -> Seq<T> {
    if contents.len() == 0 {
        contents
    } else {
        contents.drop_first()
    }
}

/// The value a pull returns: the oldest element, or nothing when the buffer
/// is empty.
pub open spec fn pull_result<T>(contents: Seq<T>) -> Option<T> {
    if contents.len() == 0 {
        None
    } else {
        Some(contents.first())
    }
}

/// The contents after pushing each element of `items` in order.
pub open spec fn push_all_contents<T>(contents: Seq<T>, capacity: int, items: Seq<T>) -> Seq<T>
    decreases items.len(),
{
    if items.len() == 0 {
        contents
    } else {
        push_all_contents(push_contents(contents, capacity, items.first()), capacity, items.drop_first())
    }
}

/// The values returned by `n` successive pulls, in order. Pulls beyond the
/// held elements return nothing and contribute nothing.
pub open spec fn pulled_values<T>(contents: Seq<T>, n: int) -> Seq<T>
    decreases n,
{
    if n <= 0 || contents.len() == 0 {
        Seq::empty()
    } else {
        seq![contents.first()] + pulled_values(pull_contents(contents), n - 1)
    }
}

/// The contents left after `n` successive pulls.
pub open spec fn contents_after_pulls<T>(contents: Seq<T>, n: int) -> Seq<T>
    decreases n,
{
    if n <= 0 {
        contents
    } else {
        contents_after_pulls(pull_contents(contents), n - 1)
    }
}

/// Pushes all land: as long as the buffer has room for every item, pushing
/// them one after the other appends them in order.
pub proof fn lemma_push_all_appends<T>(contents: Seq<T>, capacity: int, items: Seq<T>)
    requires
        contents.len() + items.len() <= capacity,
    ensures
        push_all_contents(contents, capacity, items) == contents + items,
    decreases items.len(),
{
    if items.len() == 0 {
        assert(contents + items =~= contents);
    } else {
        lemma_push_all_appends(contents.push(items.first()), capacity, items.drop_first());
        assert(contents.push(items.first()) + items.drop_first() =~= contents + items);
    }
}

/// Pulls drain from the front: `n` pulls from a buffer holding at least `n`
/// elements return exactly the first `n`, oldest first, and leave the rest.
pub proof fn lemma_pulls_take_prefix<T>(contents: Seq<T>, n: int)
    requires
        0 <= n <= contents.len(),
    ensures
        pulled_values(contents, n) == contents.take(n),
        contents_after_pulls(contents, n) == contents.skip(n),
    decreases n,
{
    if n <= 0 {
        assert(pulled_values(contents, n) =~= contents.take(n));
        assert(contents_after_pulls(contents, n) =~= contents.skip(n));
    } else {
        lemma_pulls_take_prefix(contents.drop_first(), n - 1);
        assert(seq![contents.first()] + contents.drop_first().take(n - 1) =~= contents.take(n));
        assert(contents.drop_first().skip(n - 1) =~= contents.skip(n));
    }
}

/// Filling and one more: starting from an empty buffer, each of the first
/// `capacity` pushes finds room and appends its item; the push after that
/// finds the buffer full and leaves the contents unchanged (it is rejected
/// with `Full`).
pub proof fn lemma_fill_then_reject<T>(items: Seq<T>, capacity: int, extra: T)
    requires
        1 <= capacity,
        items.len() == capacity,
    ensures
        forall|i: int|
            0 <= i < items.len() ==> #[trigger] push_all_contents(
                Seq::<T>::empty(),
                capacity,
                items.take(i),
            ).len() < capacity,
        push_all_contents(Seq::<T>::empty(), capacity, items) == items,
        push_contents(items, capacity, extra) == items,
{
    assert forall|i: int|
        0 <= i < items.len() implies #[trigger] push_all_contents(
        Seq::<T>::empty(),
        capacity,
        items.take(i),
    ).len() < capacity by {
        lemma_push_all_appends(Seq::<T>::empty(), capacity, items.take(i));
        assert(Seq::<T>::empty() + items.take(i) =~= items.take(i));
    }
    lemma_push_all_appends(Seq::<T>::empty(), capacity, items);
    assert(Seq::<T>::empty() + items =~= items);
}

/// FIFO order: pushing `items` (no more than the capacity) into an empty
/// buffer and then pulling as many times returns exactly `items`, in push
/// order, and leaves the buffer empty.
pub proof fn lemma_fifo_order<T>(items: Seq<T>, capacity: int)
    requires
        1 <= capacity,
        items.len() <= capacity,
    ensures
        push_all_contents(Seq::<T>::empty(), capacity, items) == items,
        pulled_values(items, items.len() as int) == items,
        contents_after_pulls(items, items.len() as int) == Seq::<T>::empty(),
{
    lemma_push_all_appends(Seq::<T>::empty(), capacity, items);
    assert(Seq::<T>::empty() + items =~= items);
    lemma_pulls_take_prefix(items, items.len() as int);
    assert(items.take(items.len() as int) =~= items);
    assert(items.skip(items.len() as int) =~= Seq::<T>::empty());
}

/// Round trip: pushing one item into an empty buffer and pulling right away
/// returns exactly that item and restores the empty state.
pub proof fn lemma_push_pull_round_trip<T>(capacity: int, item: T)
    requires
        1 <= capacity,
    ensures
        pull_result(push_contents(Seq::<T>::empty(), capacity, item)) == Some(item),
        pull_contents(push_contents(Seq::<T>::empty(), capacity, item)) == Seq::<T>::empty(),
{
    assert(pull_contents(push_contents(Seq::<T>::empty(), capacity, item)) =~= Seq::<T>::empty());
}

/// Wrap-around: with the buffer full of `older`, pulling `newer.len()` items
/// and pushing the elements of `newer` preserves FIFO order across the wrap:
/// the pulls return the oldest items, every push of `newer` finds room, and
/// draining the buffer afterwards returns the remaining old items followed by
/// the new ones — overall exactly `older + newer`, oldest first.
pub proof fn lemma_wrap_around<T>(older: Seq<T>, newer: Seq<T>, capacity: int)
    requires
        1 <= capacity,
        older.len() == capacity,
        newer.len() < capacity,
    ensures
        ({
            let k = newer.len() as int;
            let refilled = push_all_contents(older.skip(k), capacity, newer);
            &&& pulled_values(older, k) == older.take(k)
            &&& contents_after_pulls(older, k) == older.skip(k)
            &&& refilled == older.skip(k) + newer
            &&& pulled_values(refilled, refilled.len() as int) == older.skip(k) + newer
            &&& older.take(k) + (older.skip(k) + newer) == older + newer
        }),
{
    let k = newer.len() as int;
    lemma_pulls_take_prefix(older, k);
    lemma_push_all_appends(older.skip(k), capacity, newer);
    let refilled = older.skip(k) + newer;
    lemma_pulls_take_prefix(refilled, refilled.len() as int);
    assert(refilled.take(refilled.len() as int) =~= refilled);
    assert(older.take(k) + (older.skip(k) + newer) =~= older + newer);
}

/// A fixed-capacity FIFO queue backed by a vector of optional slots.
///
/// The logical contents are the occupied slots read cyclically from
/// `read_idx`: the element at `read_idx` is the oldest one still held.
#[derive(Debug)]
pub struct RingBuffer<T> {
    storage: Vec<Option<T>>,
    read_idx: usize,
    write_idx: usize,
}

impl<T> RingBuffer<T> {
    /// The number of slots, fixed at construction.
    pub closed spec fn capacity(self) -> int {
        self.storage@.len() as int
    }

    /// Cyclic distance from `read_idx` forward to slot `i`.
    spec fn dist(self, i: int) -> int {
        if i >= self.read_idx {
            i - self.read_idx
        } else {
            i - self.read_idx + self.capacity()
        }
    }

    /// The number of elements currently held. When the two indices differ it
    /// is their cyclic distance; when they coincide the slot at that index
    /// decides between empty and full.
    spec fn count(self) -> int {
        if self.read_idx == self.write_idx {
            if self.storage@[self.read_idx as int] is Some {
                self.capacity()
            } else {
                0
            }
        } else {
            self.dist(self.write_idx as int)
        }
    }

    /// Whether slot `i` holds a live element: it lies within the cyclic
    /// window of length `count` that starts at `read_idx`.
    spec fn slot_live(self, i: int) -> bool {
        self.dist(i) < self.count()
    }

    /// The physical slot of logical position `j` (position 0 is the oldest
    /// element): `read_idx + j`, wrapped once past the end.
    spec fn slot_of(self, j: int) -> int {
        if self.read_idx + j < self.capacity() {
            self.read_idx + j
        } else {
            self.read_idx + j - self.capacity()
        }
    }

    /// Well-formedness: at least one slot, both indices in range, and a slot
    /// is occupied exactly when it lies in the live window.
    pub closed spec fn wf(self) -> bool {
        &&& 1 <= self.capacity()
        &&& (self.read_idx as int) < self.capacity()
        &&& (self.write_idx as int) < self.capacity()
        &&& forall|i: int|
            0 <= i < self.capacity() ==> ((#[trigger] self.storage@[i]) is Some <==> self.slot_live(
                i,
            ))
    }
}

impl<T> View for RingBuffer<T> {
    type V = Seq<T>;

    /// The logical contents, oldest element first.
    closed spec fn view(&self) -> Seq<T> {
        Seq::new(self.count() as nat, |j: int| self.storage@[self.slot_of(j)]->Some_0)
    }
}

impl<T> RingBuffer<T> {
    /// Creates a buffer with `capacity` vacant slots and both indices at 0.
    ///
    /// A zero capacity is ruled out: advancing an index modulo a zero-length
    /// storage is undefined. `try_new` rejects it with an error instead.
    pub fn new(capacity: usize) -> (result: Self)
        requires
            capacity >= 1,
        ensures
            result.wf(),
            result@ == Seq::<T>::empty(),
            result.capacity() == capacity,
    {
        let mut storage: Vec<Option<T>> = Vec::new();
        let mut i: usize = 0;
        while i < capacity
            invariant
                i <= capacity,
                storage@.len() == i,
                forall|j: int| 0 <= j < i ==> storage@[j] is None,
            decreases capacity - i,
        {
            storage.push(None);
            i = i + 1;
        }
        let result = RingBuffer { storage, read_idx: 0, write_idx: 0 };
        proof {
            assert(result@ =~= Seq::<T>::empty());
        }
        result
    }

    /// Reports whether the buffer holds no element: the indices coincide and
    /// the slot there is vacant.
    pub fn is_empty(&self) -> (r: bool)
        requires
            self.wf(),
        ensures
            r == (self@.len() == 0),
    {
        self.write_idx == self.read_idx && self.storage[self.write_idx].is_none()
    }

    /// Reports whether every slot is occupied: the indices coincide and the
    /// slot there is occupied.
    pub fn is_full(&self) -> (r: bool)
        requires
            self.wf(),
        ensures
            r == (self@.len() == self.capacity()),
    {
        self.write_idx == self.read_idx && self.storage[self.write_idx].is_some()
    }

    /// The slot that follows `index` cyclically: `(index + 1) % capacity`.
    pub fn next_index(&self, index: usize) -> (r: usize)
        requires
            self.wf(),
            index < self.capacity(),
        ensures
            r == (index + 1) % (self.capacity() as int),
            r == if index + 1 < self.capacity() { index + 1 } else { 0 },
    {
        let len = self.storage.len();
        proof {
            assert(index < len);
            if index + 1 < self.capacity() {
                vstd::arithmetic::div_mod::lemma_small_mod((index + 1) as nat, self.capacity() as nat);
            } else {
                vstd::arithmetic::div_mod::lemma_mod_self_0(self.capacity());
            }
        }
        (index + 1) % len
    }

    /// Creates a buffer after validating the capacity: zero is rejected with
    /// `InvalidCapacity`, anything else yields a fresh empty buffer.
    pub fn try_new(capacity: usize) -> (result: Result<Self, InvalidCapacity>)
        ensures
            result is Ok <==> capacity >= 1,
            result matches Ok(buffer) ==> {
                &&& buffer.wf()
                &&& buffer@ == Seq::<T>::empty()
                &&& buffer.capacity() == capacity
            },
    {
        if capacity == 0 {
            Err(InvalidCapacity)
        } else {
            Ok(Self::new(capacity))
        }
    }

    /// State trichotomy: a well-formed buffer holds between zero and
    /// `capacity` elements, and since the capacity is at least one it is
    /// never both empty and full — exactly one of empty, full, or partially
    /// filled holds.
    pub proof fn lemma_state_trichotomy(self)
        requires
            self.wf(),
        ensures
            0 <= self@.len() <= self.capacity(),
            1 <= self.capacity(),
            !(self@.len() == 0 && self@.len() == self.capacity()),
            self@.len() == 0 || self@.len() == self.capacity() || 0 < self@.len()
                < self.capacity(),
    {
    }

    /// A buffer with no element is never full: in particular a freshly
    /// constructed buffer reports empty and not full.
    pub proof fn lemma_empty_is_not_full(self)
        requires
            self.wf(),
            self@.len() == 0,
        ensures
            self@.len() != self.capacity(),
    {
    }

    /// Stores `item` in the slot at `write_idx` and advances `write_idx`,
    /// unless the buffer is full, in which case it fails with `Full` and the
    /// buffer is unchanged.
    pub fn push(&mut self, item: T) -> (result: Result<(), Full>)
        requires
            old(self).wf(),
        ensures
            final(self).wf(),
            final(self).capacity() == old(self).capacity(),
            final(self)@ == push_contents(old(self)@, old(self).capacity(), item),
            result is Ok <==> old(self)@.len() < old(self).capacity(),
            result is Err ==> *final(self) == *old(self),
    {
        if self.is_full() {
            Err(Full)
        } else {
            let next_write = self.next_index(self.write_idx);
            self.storage[self.write_idx] = Some(item);
            self.write_idx = next_write;
            proof {
                let prev = *old(self);
                let c = prev.capacity();
                let k = prev.count();
                let w = prev.write_idx as int;
                let r = prev.read_idx as int;
                assert(0 <= k < c);
                assert(k > 0 ==> prev.storage@[r] is Some) by {
                    assert(prev.dist(r) == 0);
                }
                assert(self.count() == k + 1) by {
                    let wnext = self.write_idx as int;
                    if r == wnext {
                        assert(k + 1 == c);
                        assert(self.storage@[r] is Some);
                    } else {
                        assert(self.dist(wnext) == k + 1);
                    }
                }
                assert forall|i: int|
                    0 <= i < c implies (self.storage@[i] is Some <==> self.slot_live(i)) by {
                    if i != w {
                        assert(prev.slot_of(prev.dist(i)) == i);
                        assert(prev.dist(i) != k);
                    }
                }
                assert(self.wf());
                assert forall|j: int| 0 <= j < k implies self.slot_of(j) != w by {
                    assert(prev.dist(prev.slot_of(j)) == j);
                }
                assert(prev.slot_of(k) == w);
                assert(self@ =~= prev@.push(item));
            }
            Ok(())
        }
    }

    /// Removes and returns the oldest element, advancing `read_idx`; an empty
    /// buffer yields `None` and is left unchanged.
    ///
    /// When the buffer is not empty the slot at `read_idx` is provably
    /// occupied, so the extraction cannot observe a vacant slot; the runtime
    /// check it would have needed is discharged by the well-formedness
    /// invariant.
    pub fn pull(&mut self) -> (result: Option<T>)
        requires
            old(self).wf(),
        ensures
            final(self).wf(),
            final(self).capacity() == old(self).capacity(),
            final(self)@ == pull_contents(old(self)@),
            result == pull_result(old(self)@),
            result is None ==> *final(self) == *old(self),
    {
        if self.is_empty() {
            None
        } else {
            let next_read = self.next_index(self.read_idx);
            proof {
                assert(old(self).dist(old(self).read_idx as int) == 0);
            }
            let item = self.storage[self.read_idx].take().unwrap();
            self.read_idx = next_read;
            proof {
                let prev = *old(self);
                let c = prev.capacity();
                let k = prev.count();
                let r = prev.read_idx as int;
                let w = prev.write_idx as int;
                assert(0 < k <= c);
                assert(self.count() == k - 1) by {
                    let rnext = self.read_idx as int;
                    if rnext == w {
                        assert(self.storage@[w] === None) by {
                            if w != r {
                                assert(prev.dist(w) == k);
                            }
                        }
                    } else {
                        assert(self.dist(w) == k - 1);
                    }
                }
                assert forall|i: int|
                    0 <= i < c implies ((#[trigger] self.storage@[i]) is Some <==> self.slot_live(
                    i,
                )) by {
                    assert((prev.storage@[i] is Some) == prev.slot_live(i));
                    if i != r {
                        assert(self.dist(i) == prev.dist(i) - 1);
                    } else {
                        assert(self.dist(r) == c - 1);
                    }
                }
                assert(self.wf());
                assert(forall|j: int|
                    0 <= j < k - 1 ==> #[trigger] self.slot_of(j) == prev.slot_of(j + 1));
                assert(self@ =~= prev@.drop_first());
                assert(item == prev@[0]);
            }
            Some(item)
        }
    }
}

} // verus!
