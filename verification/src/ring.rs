//! The ring buffer itself: a fixed-length store of optional slots and three
//! cursors (`head`, `tail`, `count`) that together encode logical order,
//! capacity, and fill state without ambiguity between "empty" and "full".

use vstd::prelude::*;
use vstd::std_specs::cmp::PartialEqSpec;

verus! {

/// Error for operations handed an invalid capacity.
#[derive(Clone, Copy, Debug, PartialEq, Eq, Structural)]
pub enum RingError {
    /// The requested capacity was zero; a buffer always has at least one slot.
    InvalidCapacity,
}

/// A bounded ordered container with overwrite-oldest semantics on overflow.
///
/// The occupied logical elements, oldest to newest, sit at slot indices
/// `tail, tail+1, ...` (wrapping at `size`) for `count` steps; every other
/// slot is `None`. `head` is the slot the next insertion writes.
pub struct CircularBuffer<T> {
    buffer: Vec<Option<T>>,
    size: usize,
    head: usize,
    tail: usize,
    count: usize,
}

/// Wraps a sum of two indices below `size` back into `[0, size)`.
pub open spec fn wrap_index(i: int, size: int) -> int {
    if i < size {
        i
    } else {
        i - size
    }
}

impl<T> CircularBuffer<T> {
    /// Total number of slots.
    pub closed spec fn cap(&self) -> nat {
        self.size as nat
    }

    /// Slot index holding the logical element at position `i` (0 = oldest).
    closed spec fn slot_of(&self, i: int) -> int {
        wrap_index(self.tail + i, self.size as int)
    }

    /// Logical position of slot `j`, counted from `tail`.
    closed spec fn pos_of(&self, j: int) -> int {
        wrap_index(j - self.tail + self.size, self.size as int)
    }

    /// Well-formedness: the cursors are in range, `head` sits one past the
    /// newest element, and a slot is occupied exactly when its logical
    /// position falls below `count`.
    pub closed spec fn wf(&self) -> bool {
        &&& self.size >= 1
        &&& self.buffer.len() == self.size
        &&& self.head < self.size
        &&& self.tail < self.size
        &&& self.count <= self.size
        &&& self.head == self.slot_of(self.count as int)
        &&& forall|j: int|
            0 <= j < self.size ==> ((#[trigger] self.buffer[j]) is Some <==> self.pos_of(j)
                < self.count)
    }
}

impl<T> View for CircularBuffer<T> {
    type V = Seq<T>;

    /// The logical contents, oldest to newest.
    closed spec fn view(&self) -> Seq<T> {
        Seq::new(self.count as nat, |i: int| self.buffer[self.slot_of(i)].unwrap())
    }
}

/// Advances a slot index by one, wrapping at `size`.
fn next_index(i: usize, size: usize) -> (r: usize)
    requires
        i < size,
    ensures
        r == wrap_index(i + 1, size as int),
        r < size,
{
    if i + 1 == size {
        0
    } else {
        i + 1
    }
}

/// A vector of `n` empty slots.
fn none_slots<T>(n: usize) -> (r: Vec<Option<T>>)
    ensures
        r.len() == n,
        forall|j: int| 0 <= j < n ==> (#[trigger] r[j]) is None,
{
    let mut r: Vec<Option<T>> = Vec::new();
    let mut i: usize = 0;
    while i < n
        invariant
            i <= n,
            r.len() == i,
            forall|j: int| 0 <= j < i ==> (#[trigger] r[j]) is None,
        decreases n - i,
    {
        r.push(None);
        i = i + 1;
    }
    r
}

/// What one insertion does to the logical contents of a buffer with `cap`
/// slots: appends when there is room, otherwise drops the oldest element
/// first.
pub open spec fn push_view<T>(s: Seq<T>, cap: nat, x: T) -> Seq<T> {
    if s.len() < cap {
        s.push(x)
    } else {
        s.subrange(1, s.len() as int).push(x)
    }
}

impl<T> CircularBuffer<T> {
    /// Creates an empty buffer with `size` slots. A capacity of zero is a
    /// programming error and is excluded by precondition.
    pub fn new(size: usize) -> (r: Self)
        requires
            size >= 1,
        ensures
            r.wf(),
            r.cap() == size,
            r@ == Seq::<T>::empty(),
    {
        let r = CircularBuffer { buffer: none_slots(size), size, head: 0, tail: 0, count: 0 };
        proof {
            assert(r@ =~= Seq::<T>::empty());
        }
        r
    }

    /// Number of elements currently held.
    pub fn len(&self) -> (r: usize)
        ensures
            r == self@.len(),
    {
        self.count
    }

    /// Total number of slots.
    pub fn capacity(&self) -> (r: usize)
        ensures
            r == self.cap(),
    {
        self.size
    }

    /// True exactly when no element is held.
    pub fn is_empty(&self) -> (r: bool)
        ensures
            r == (self@.len() == 0),
    {
        self.count == 0
    }

    /// True exactly when every slot is occupied.
    pub fn is_full(&self) -> (r: bool)
        ensures
            r == (self@.len() == self.cap()),
    {
        self.count == self.size
    }

    /// Inserts `item` as the newest element. When the buffer is full, the
    /// oldest element is silently evicted first; the caller gets no signal
    /// that data was lost.
    pub fn push(&mut self, item: T)
        requires
            old(self).wf(),
        ensures
            final(self).wf(),
            final(self).cap() == old(self).cap(),
            final(self)@ == push_view(old(self)@, old(self).cap(), item),
    {
        let ghost s0 = *old(self);
        if self.count == self.size {
            self.tail = next_index(self.tail, self.size);
        } else {
            self.count = self.count + 1;
        }
        self.buffer[self.head] = Some(item);
        self.head = next_index(self.head, self.size);
        proof {
            if s0.count < s0.size {
                assert forall|j: int| 0 <= j < self.size implies ((#[trigger] self.buffer[j])
                    is Some <==> self.pos_of(j) < self.count) by {
                    if j != s0.head {
                        assert(self.buffer[j] == s0.buffer[j]);
                        if s0.pos_of(j) == s0.count {
                            assert(s0.slot_of(s0.pos_of(j)) == j);
                        }
                    }
                }
                assert forall|i: int| 0 <= i < self.count implies self.buffer[self.slot_of(i)]
                    == (if i < s0.count {
                    s0.buffer[s0.slot_of(i)]
                } else {
                    Some(item)
                }) by {
                    if i < s0.count {
                        assert(s0.pos_of(s0.slot_of(i)) == i);
                        assert(self.slot_of(i) != s0.head);
                    }
                }
                assert(self@ =~= push_view(s0@, s0.cap(), item));
            } else {
                assert(s0.head == s0.tail);
                assert forall|j: int| 0 <= j < self.size implies ((#[trigger] self.buffer[j])
                    is Some <==> self.pos_of(j) < self.count) by {
                    if j != s0.head {
                        assert(self.buffer[j] == s0.buffer[j]);
                        assert(s0.pos_of(j) < s0.count);
                    }
                }
                assert forall|i: int| 0 <= i < self.count implies self.buffer[self.slot_of(i)]
                    == (if i < s0.count - 1 {
                    s0.buffer[s0.slot_of(i + 1)]
                } else {
                    Some(item)
                }) by {
                    if i < s0.count - 1 {
                        assert(self.slot_of(i) == s0.slot_of(i + 1));
                        assert(s0.pos_of(s0.slot_of(i + 1)) == i + 1);
                        assert(self.slot_of(i) != s0.head);
                    } else {
                        assert(self.slot_of(i) == s0.head);
                    }
                }
                assert(self@ =~= push_view(s0@, s0.cap(), item));
            }
        }
    }

    /// Removes and returns the oldest element; returns `None`, leaving the
    /// buffer untouched, when it is empty.
    pub fn pop(&mut self) -> (r: Option<T>)
        requires
            old(self).wf(),
        ensures
            final(self).wf(),
            final(self).cap() == old(self).cap(),
            old(self)@.len() == 0 ==> r is None && *final(self) == *old(self),
            old(self)@.len() > 0 ==> r == Some(old(self)@[0]) && final(self)@ == old(self)@.subrange(
                1,
                old(self)@.len() as int,
            ),
    {
        if self.count == 0 {
            None
        } else {
            let ghost s0 = *old(self);
            proof {
                assert(s0.pos_of(s0.tail as int) == 0);
            }
            let item = self.buffer[self.tail].take();
            self.tail = next_index(self.tail, self.size);
            self.count = self.count - 1;
            proof {
                assert(s0.slot_of(0) == s0.tail);
                assert(item == Some(s0@[0]));
                assert forall|j: int| 0 <= j < self.size implies ((#[trigger] self.buffer[j])
                    is Some <==> self.pos_of(j) < self.count) by {
                    if j != s0.tail {
                        assert(self.buffer[j] == s0.buffer[j]);
                        assert(self.pos_of(j) == s0.pos_of(j) - 1);
                    } else {
                        assert(self.pos_of(j) == self.size - 1);
                    }
                }
                assert forall|i: int| 0 <= i < self.count implies self.buffer[self.slot_of(i)]
                    == s0.buffer[s0.slot_of(i + 1)] by {
                    assert(self.slot_of(i) == s0.slot_of(i + 1));
                    assert(s0.pos_of(s0.slot_of(i + 1)) == i + 1);
                    assert(self.slot_of(i) != s0.tail);
                }
                assert(self@ =~= s0@.subrange(1, s0@.len() as int));
            }
            item
        }
    }

    /// Read-only view of the oldest element; `None` when the buffer is
    /// empty.
    pub fn peek(&self) -> (r: Option<&T>)
        requires
            self.wf(),
        ensures
            self@.len() == 0 ==> r is None,
            self@.len() > 0 ==> r is Some && *r.unwrap() == self@[0],
    {
        if self.count == 0 {
            None
        } else {
            proof {
                assert(self.pos_of(self.tail as int) == 0);
                assert(self.slot_of(0) == self.tail);
            }
            self.buffer[self.tail].as_ref()
        }
    }

    /// Empties the buffer: every slot becomes free and the cursors return
    /// to zero. The capacity is unchanged.
    pub fn clear(&mut self)
        requires
            old(self).wf(),
        ensures
            final(self).wf(),
            final(self).cap() == old(self).cap(),
            final(self)@ == Seq::<T>::empty(),
    {
        self.buffer = none_slots(self.size);
        self.head = 0;
        self.tail = 0;
        self.count = 0;
        proof {
            assert(self@ =~= Seq::<T>::empty());
        }
    }

    /// Replaces the backing store with one of `new_size` slots, moving the
    /// retained elements, oldest to newest, to the front of the new store.
    ///
    /// A `new_size` of zero is rejected with `InvalidCapacity` and leaves
    /// the buffer untouched. When `new_size` is smaller than the current
    /// element count, the oldest excess elements are discarded — the same
    /// policy a full buffer applies on insertion — so the newest `new_size`
    /// elements survive.
    pub fn resize(&mut self, new_size: usize) -> (r: Result<(), RingError>)
        requires
            old(self).wf(),
        ensures
            final(self).wf(),
            new_size == 0 ==> r is Err && r == Err::<(), RingError>(RingError::InvalidCapacity)
                && *final(self) == *old(self),
            new_size >= 1 ==> r is Ok && final(self).cap() == new_size && final(self)@ == old(
                self,
            )@.skip(
                if old(self)@.len() <= new_size {
                    0
                } else {
                    old(self)@.len() - new_size as int
                },
            ),
            new_size >= old(self)@.len() && new_size >= 1 ==> final(self)@ == old(self)@,
    {
        if new_size == 0 {
            return Err(RingError::InvalidCapacity);
        }
        let ghost s0 = *old(self);
        let drop_n: usize = if self.count > new_size {
            self.count - new_size
        } else {
            0
        };
        let keep: usize = self.count - drop_n;
        let mut new_buffer: Vec<Option<T>> = none_slots(new_size);
        let mut src: usize = self.tail;
        let mut k: usize = 0;
        while k < drop_n
            invariant
                drop_n <= s0.count <= s0.size,
                s0.wf(),
                *self == s0,
                k <= drop_n,
                src == s0.slot_of(k as int),
                src < s0.size,
            decreases drop_n - k,
        {
            src = next_index(src, self.size);
            k = k + 1;
        }
        let mut j: usize = 0;
        while j < keep
            invariant
                s0.wf(),
                drop_n + keep == s0.count,
                keep <= new_size <= new_buffer.len(),
                new_buffer.len() == new_size,
                self.size == s0.size,
                self.tail == s0.tail,
                self.count == s0.count,
                self.buffer.len() == s0.buffer.len(),
                j <= keep,
                src == s0.slot_of(drop_n + j),
                src < s0.size,
                forall|m: int|
                    0 <= m < j ==> (#[trigger] new_buffer[m]) == Some(s0@[drop_n + m]),
                forall|m: int| j <= m < new_size ==> (#[trigger] new_buffer[m]) is None,
                forall|m: int|
                    drop_n + j <= m < s0.count ==> (#[trigger] self.buffer[s0.slot_of(m)])
                        == s0.buffer[s0.slot_of(m)],
            decreases keep - j,
        {
            proof {
                assert(s0.pos_of(s0.slot_of(drop_n + j)) == drop_n + j);
                assert(s0.buffer[s0.slot_of(drop_n + j)] is Some);
            }
            let item = self.buffer[src].take();
            new_buffer[j] = item;
            proof {
                assert forall|m: int|
                    drop_n + j + 1 <= m < s0.count implies (#[trigger] self.buffer[s0.slot_of(
                    m,
                )]) == s0.buffer[s0.slot_of(m)] by {
                    assert(s0.pos_of(s0.slot_of(m)) == m);
                    assert(s0.slot_of(m) != s0.slot_of(drop_n + j));
                }
            }
            src = next_index(src, self.size);
            j = j + 1;
        }
        self.buffer = new_buffer;
        self.size = new_size;
        self.tail = 0;
        self.head = if keep == new_size {
            0
        } else {
            keep
        };
        self.count = keep;
        proof {
            assert forall|j2: int| 0 <= j2 < self.size implies ((#[trigger] self.buffer[j2])
                is Some <==> self.pos_of(j2) < self.count) by {
                assert(self.pos_of(j2) == j2);
            }
            assert forall|i: int| 0 <= i < self.count implies self.buffer[self.slot_of(i)]
                == Some(s0@[drop_n + i]) by {
                assert(self.slot_of(i) == i);
            }
            assert(self@ =~= s0@.skip(drop_n as int));
        }
        Ok(())
    }

    /// Shrinks the capacity to match the number of elements held, moving
    /// them to the front of a smaller store; a no-op when the buffer is
    /// already full. An empty buffer shrinks to one slot, the smallest
    /// capacity the invariant allows.
    pub fn shrink_to_fit(&mut self)
        requires
            old(self).wf(),
        ensures
            final(self).wf(),
            final(self)@ == old(self)@,
            final(self).cap() == (if old(self)@.len() == 0 {
                1nat
            } else {
                old(self)@.len()
            }),
    {
        if self.count < self.size {
            let target: usize = if self.count == 0 {
                1
            } else {
                self.count
            };
            let _ = self.resize(target);
            proof {
                assert(self@ == old(self)@.skip(0));
                assert(old(self)@.skip(0) =~= old(self)@);
            }
        }
    }

    /// The logically occupied elements, oldest to newest, as a vector of
    /// read-only references: a finite snapshot that later mutation of the
    /// buffer cannot disturb, and that is safe to abandon early.
    pub fn iter(&self) -> (r: Vec<&T>)
        requires
            self.wf(),
        ensures
            r@.len() == self@.len(),
            forall|i: int| 0 <= i < self@.len() ==> *(#[trigger] r@[i]) == self@[i],
    {
        let mut out: Vec<&T> = Vec::new();
        let mut i: usize = 0;
        let mut idx: usize = self.tail;
        while i < self.count
            invariant
                self.wf(),
                i <= self.count,
                idx == self.slot_of(i as int),
                idx < self.size,
                out.len() == i,
                forall|m: int| 0 <= m < i ==> *(#[trigger] out[m]) == self@[m],
            decreases self.count - i,
        {
            proof {
                assert(self.pos_of(self.slot_of(i as int)) == i);
            }
            out.push(self.buffer[idx].as_ref().unwrap());
            idx = next_index(idx, self.size);
            i = i + 1;
        }
        out
    }
}

/// Whether some element of `s` compares equal to `x` under `eq_spec`: the
/// specification that `PartialEq::eq` is held to when `obeys_eq_spec` holds
/// of the type.
pub open spec fn seq_has_matching<T: PartialEq>(s: Seq<T>, x: T) -> bool {
    exists|i: int| 0 <= i < s.len() && (#[trigger] s[i].eq_spec(&x))
}

impl<T: PartialEq> CircularBuffer<T> {
    /// Whether some element of the buffer compares equal to `item`.
    ///
    /// Only the logically present elements are tested: a value that was
    /// popped leaves no stale slot behind, so a match means the element is
    /// currently held.
    pub fn contains(&self, item: &T) -> (r: bool)
        requires
            self.wf(),
        ensures
            T::obeys_eq_spec() ==> r == seq_has_matching(self@, *item),
            vstd::laws_eq::obeys_concrete_eq::<T>() ==> r == self@.contains(*item),
    {
        let mut i: usize = 0;
        let mut idx: usize = self.tail;
        while i < self.count
            invariant
                self.wf(),
                i <= self.count,
                idx == self.slot_of(i as int),
                idx < self.size,
                T::obeys_eq_spec() ==> forall|k: int|
                    0 <= k < i ==> !(#[trigger] self@[k].eq_spec(&*item)),
            decreases self.count - i,
        {
            proof {
                assert(self.pos_of(self.slot_of(i as int)) == i);
            }
            match self.buffer[idx].as_ref() {
                Some(v) => {
                    if *v == *item {
                        proof {
                            lemma_matching_concrete(self@, *item);
                            if T::obeys_eq_spec() {
                                assert(self@[i as int].eq_spec(&*item));
                            }
                        }
                        return true;
                    }
                },
                None => {
                    proof {
                        assert(false);
                    }
                },
            }
            idx = next_index(idx, self.size);
            i = i + 1;
        }
        proof {
            lemma_matching_concrete(self@, *item);
            if T::obeys_eq_spec() {
                assert(!seq_has_matching(self@, *item));
            }
        }
        false
    }
}

/// Under `obeys_concrete_eq`, a match by `eq_spec` is exactly membership by
/// structural equality.
proof fn lemma_matching_concrete<T: PartialEq>(s: Seq<T>, x: T)
    ensures
        vstd::laws_eq::obeys_concrete_eq::<T>() ==> T::obeys_eq_spec(),
        vstd::laws_eq::obeys_concrete_eq::<T>() ==> (seq_has_matching(s, x) <==> s.contains(x)),
{
    if vstd::laws_eq::obeys_concrete_eq::<T>() {
        reveal(vstd::laws_eq::obeys_concrete_eq);
        if seq_has_matching(s, x) {
            let i = choose|i: int| 0 <= i < s.len() && #[trigger] s[i].eq_spec(&x);
            assert(s[i] == x);
        }
        if s.contains(x) {
            let i = choose|i: int| 0 <= i < s.len() && #[trigger] s[i] == x;
            assert(s[i].eq_spec(&x));
        }
    }
}

// ---------------------------------------------------------------------------
// General properties of the buffer, stated over the same spec functions its
// contracts use and proved once for every input.
// ---------------------------------------------------------------------------

/// Folds `push_view` left over `xs`: the logical contents after pushing
/// every element of `xs`, in order, into a buffer that held `s`.
pub open spec fn push_all_view<T>(s: Seq<T>, cap: nat, xs: Seq<T>) -> Seq<T>
    decreases xs.len(),
{
    if xs.len() == 0 {
        s
    } else {
        push_all_view(push_view(s, cap, xs[0]), cap, xs.subrange(1, xs.len() as int))
    }
}

/// Pushing a sequence that fits in the remaining room appends it whole.
proof fn lemma_push_all_appends<T>(s: Seq<T>, cap: nat, xs: Seq<T>)
    requires
        s.len() + xs.len() <= cap,
    ensures
        push_all_view(s, cap, xs) == s + xs,
    decreases xs.len(),
{
    if xs.len() == 0 {
        assert(s + xs =~= s);
    } else {
        assert(push_view(s, cap, xs[0]) == s.push(xs[0]));
        lemma_push_all_appends(s.push(xs[0]), cap, xs.subrange(1, xs.len() as int));
        assert(s.push(xs[0]) + xs.subrange(1, xs.len() as int) =~= s + xs);
    }
}

/// First-in, first-out: pushing any sequence of at most `cap` elements into
/// an empty buffer leaves exactly that sequence as the contents, so `pop` —
/// which removes and returns position 0, the oldest — hands the elements
/// back in the exact order they were pushed.
pub proof fn lemma_fifo_order<T>(cap: nat, xs: Seq<T>)
    requires
        xs.len() <= cap,
    ensures
        push_all_view(Seq::<T>::empty(), cap, xs) == xs,
{
    lemma_push_all_appends(Seq::<T>::empty(), cap, xs);
    assert(Seq::<T>::empty() + xs =~= xs);
}

/// Pushing into a full buffer evicts exactly the oldest element: the length
/// stays at the capacity, and the result is precisely the old contents
/// without position 0, each survivor one position closer to the front, with
/// the new element at the back — so the evicted element is unrecoverable
/// from the buffer.
pub proof fn lemma_push_full_evicts<T>(s: Seq<T>, cap: nat, x: T)
    requires
        1 <= cap,
        s.len() == cap,
    ensures
        push_view(s, cap, x).len() == cap,
        push_view(s, cap, x) == s.subrange(1, s.len() as int).push(x),
        forall|i: int| 0 <= i < cap - 1 ==> push_view(s, cap, x)[i] == s[i + 1],
        push_view(s, cap, x)[cap - 1] == x,
{
}

/// A well-formed buffer never holds more than `capacity` elements, its
/// capacity is at least one, and it can never report empty and full at the
/// same time: that would take a capacity of zero, which the invariant rules
/// out.
pub proof fn lemma_fill_states<T>(b: &CircularBuffer<T>)
    requires
        b.wf(),
    ensures
        b@.len() <= b.cap(),
        b.cap() >= 1,
        !(b@.len() == 0 && b@.len() == b.cap()),
{
}

/// A just-pushed element is contained: whatever the buffer held before,
/// `push_view(s, cap, x)` has a match for `x`, so `contains(x)` answers true
/// before any eviction or pop of that element. Stated for any `x` that
/// compares equal to itself; `PartialEq` does not promise reflexivity, and
/// for a value that differs from itself under its own equality the claim
/// cannot hold.
pub proof fn lemma_contains_after_push<T: PartialEq>(s: Seq<T>, cap: nat, x: T)
    requires
        1 <= cap,
        x.eq_spec(&x),
    ensures
        seq_has_matching(push_view(s, cap, x), x),
{
    let t = push_view(s, cap, x);
    assert(t[t.len() - 1] == x);
    assert(0 <= t.len() - 1 < t.len() && t[t.len() - 1].eq_spec(&x));
}

} // verus!
