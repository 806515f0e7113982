//! A fixed-capacity, lossy ring buffer.
//!
//! The buffer keeps the most recent `capacity` elements: once it is full, each
//! new write evicts the oldest unread element. Reading is done through a
//! draining cursor that may be exhausted, or abandoned early so that the
//! remaining elements survive for a later drain. The engine keeps its state in
//! a monotonically increasing head counter and a packed tail word that encodes
//! both the drain lock and the oldest live position, addressing a slot store
//! of `capacity + 1` cells by the counters reduced modulo the store length.

use vstd::prelude::*;
use vstd::arithmetic::div_mod::{lemma_mod_bound, lemma_mod_equivalence, lemma_small_mod};

pub mod reference;
pub mod wrapping_vec;

use wrapping_vec::WrappingVec;

verus! {

/// The decoded form of the packed tail word: whether a drain is in progress,
/// and the position of the oldest element that has been neither drained nor
/// evicted.
#[derive(Copy, Clone, Debug, PartialEq, Eq, Structural)]
pub struct Tail {
    pub locked: bool,
    pub value: usize,
}

impl Tail {
    /// What a raw tail word denotes: non-negative words are unlocked positions,
    /// negative words are locked positions shifted by one so that every word,
    /// including the most negative, decodes to exactly one state.
    pub open spec fn spec_decode(raw: int) -> Tail {
        if raw >= 0 {
            Tail { locked: false, value: raw as usize }
        } else {
            Tail { locked: true, value: (-raw - 1) as usize }
        }
    }

    /// The packed word for a tail state; inverse of [`Tail::spec_decode`].
    pub open spec fn spec_encode(self) -> int {
        if !self.locked {
            self.value as int
        } else {
            -(self.value as int) - 1
        }
    }

    /// A tail state whose position is small enough to pack into one word.
    pub open spec fn encodable(self) -> bool {
        self.value <= isize::MAX
    }

    /// Unpack a raw tail word into its lock flag and position.
    pub fn decode(raw: isize) -> (t: Tail)
        ensures
            t == Tail::spec_decode(raw as int),
            t.encodable(),
    {
        if raw >= 0 {
            Tail { locked: false, value: raw as usize }
        } else {
            Tail { locked: true, value: (-(raw + 1)) as usize }
        }
    }

    /// Pack the lock flag and position into a single word.
    pub fn encode(self) -> (raw: isize)
        requires
            self.encodable(),
        ensures
            raw as int == self.spec_encode(),
    {
        if !self.locked {
            self.value as isize
        } else {
            -(self.value as isize) - 1
        }
    }

    /// The packing is lossless: decoding an encoded state gives the state back.
    pub proof fn lemma_encode_decode(self)
        requires
            self.encodable(),
        ensures
            Tail::spec_decode(self.spec_encode()) == self,
    {
    }

    /// The packing is onto: every raw word is the encoding of its decoding, so
    /// the word/state correspondence is a bijection.
    pub proof fn lemma_decode_encode(raw: isize)
        ensures
            Tail::spec_decode(raw as int).spec_encode() == raw as int,
            Tail::spec_decode(raw as int).encodable(),
    {
    }
}

/// Two positions less than one full cycle apart never address the same slot.
proof fn lemma_wrap_distinct(a: int, b: int, n: int)
    requires
        0 < n,
        a < b,
        b - a < n,
    ensures
        a % n != b % n,
{
    lemma_mod_equivalence(b, a, n);
    if b % n == a % n {
        lemma_small_mod((b - a) as nat, n as nat);
    }
}

/// How one write transforms the buffered sequence when no drain holds the
/// lock: the element is appended, and whatever the capacity cannot hold is
/// dropped from the old end.
pub open spec fn lossy_append<T>(s: Seq<T>, x: T, cap: nat) -> Seq<T> {
    if s.len() < cap {
        s.push(x)
    } else {
        s.skip(s.len() - cap + 1).push(x)
    }
}

/// The ring buffer engine: a slot store of `capacity + 1` cells, a
/// monotonically increasing head counter owned by the writer, and a packed
/// tail word carrying both the drain lock and the oldest live position.
///
/// Eviction only advances the tail: the evicted payload stays in its slot and
/// is dropped when that slot is next overwritten, so destruction of evicted
/// elements is deferred, never observable through the buffer itself.
pub struct RingBuffer<T> {
    size: usize,
    head: usize,
    tail: isize,
    data: WrappingVec<Option<T>>,
}

impl<T> RingBuffer<T> {
    /// The fixed capacity chosen at construction.
    pub closed spec fn capacity(&self) -> nat {
        self.size as nat
    }

    /// The decoded tail word.
    pub closed spec fn tail_state(&self) -> Tail {
        Tail::spec_decode(self.tail as int)
    }

    /// True exactly while a draining cursor is live.
    pub closed spec fn locked(&self) -> bool {
        self.tail_state().locked
    }

    /// Position of the oldest element that is neither drained nor evicted.
    pub closed spec fn tail_pos(&self) -> int {
        self.tail_state().value as int
    }

    /// Position the next write will fill.
    pub closed spec fn head_pos(&self) -> int {
        self.head as int
    }

    /// The number of slots, one more than the capacity, so that full and
    /// empty windows stay distinguishable.
    spec fn slot_count(&self) -> int {
        self.size as int + 1
    }

    /// The slot a monotone position addresses.
    spec fn slot_at(&self, pos: int) -> Option<T> {
        self.data@[pos % self.slot_count()]
    }

    /// The buffered, not-yet-drained elements, oldest first.
    pub closed spec fn pending(&self) -> Seq<T> {
        Seq::new(
            (self.head_pos() - self.tail_pos()) as nat,
            |k: int| self.slot_at(self.tail_pos() + k)->Some_0,
        )
    }

    /// The engine's invariant: the tail never passes the head, the window
    /// between them spans at most one position more than the capacity (the
    /// excess stands for an eviction that a drain forced to be deferred), and
    /// every slot inside the window is occupied.
    pub closed spec fn well_formed(&self) -> bool {
        &&& 1 <= self.size
        &&& self.data@.len() == self.size + 1
        &&& 0 <= self.tail_pos() <= self.head_pos()
        &&& self.head_pos() - self.tail_pos() <= self.size + 1
        &&& self.head_pos() <= isize::MAX
        &&& forall|p: int|
            self.tail_pos() <= p < self.head_pos() ==> (#[trigger] self.slot_at(p)) is Some
    }

    /// Moving the tail forward over an occupied window — toggling the lock
    /// freely, touching nothing else — keeps the engine well formed and drops
    /// exactly the passed-over elements from the front of the window.
    proof fn lemma_tail_advance(a: Self, b: Self, e: int)
        requires
            a.well_formed(),
            b.data@ == a.data@,
            b.size == a.size,
            b.head == a.head,
            0 <= e <= a.head_pos() - a.tail_pos(),
            b.tail_pos() == a.tail_pos() + e,
        ensures
            b.well_formed(),
            b.pending() == a.pending().skip(e),
    {
        assert forall|p: int| b.tail_pos() <= p < b.head_pos() implies (
        #[trigger] b.slot_at(p)) is Some by {
            assert(a.slot_at(p) is Some);
        }
        assert(b.pending() =~= a.pending().skip(e)) by {
            assert forall|k: int| 0 <= k < b.pending().len() implies b.pending()[k]
                == a.pending().skip(e)[k] by {
                assert(b.slot_at(b.tail_pos() + k) == a.slot_at(a.tail_pos() + (e + k)));
                assert(a.pending()[e + k] == a.slot_at(a.tail_pos() + (e + k))->Some_0);
            }
        }
    }

    /// Create an engine of the given positive capacity, empty and unlocked.
    pub fn new(size: usize) -> (r: RingBuffer<T>)
        requires
            1 <= size,
            size < usize::MAX,
        ensures
            r.well_formed(),
            r.capacity() == size,
            !r.locked(),
            r.head_pos() == 0,
            r.pending() == Seq::<T>::empty(),
    {
        let slots = size + 1;
        let mut cells: Vec<Option<T>> = Vec::new();
        let mut i: usize = 0;
        while i < slots
            invariant
                cells@.len() == i,
                i <= slots,
            decreases slots - i,
        {
            cells.push(None);
            i = i + 1;
        }
        let r = RingBuffer { size, head: 0, tail: 0, data: WrappingVec::from_vec(cells) };
        proof {
            assert(r.pending() =~= Seq::<T>::empty());
        }
        r
    }

    /// Store an element at the head and publish the head's increment; then, if
    /// the window has outgrown the capacity and no drain holds the lock, evict
    /// the oldest elements by advancing the tail. While a drain is live a full
    /// buffer's eviction is deferred: the window is left one past capacity and
    /// the eviction falls to the next drain or write (helping).
    pub fn write(&mut self, x: T)
        requires
            old(self).well_formed(),
            old(self).head_pos() < isize::MAX,
            old(self).locked() ==> old(self).pending().len() <= old(self).capacity(),
        ensures
            final(self).well_formed(),
            final(self).capacity() == old(self).capacity(),
            final(self).locked() == old(self).locked(),
            final(self).head_pos() == old(self).head_pos() + 1,
            !old(self).locked() ==> final(self).pending() == lossy_append(
                old(self).pending(),
                x,
                old(self).capacity(),
            ),
            old(self).locked() ==> final(self).pending() == old(self).pending().push(x)
                && final(self).tail_pos() == old(self).tail_pos(),
    {
        let ghost pre = *self;
        let t = Tail::decode(self.tail);
        let head = self.head;
        self.data.put(head, Some(x));
        self.head = head + 1;
        let mut bump: usize = 0;
        if !t.locked && head - t.value >= self.size {
            // One eviction vacates room for this write; a second one closes
            // the gap a deferred eviction left behind.
            bump = if head - t.value > self.size {
                2
            } else {
                1
            };
            self.tail = Tail { locked: false, value: t.value + bump }.encode();
        }
        proof {
            let n = pre.slot_count();
            let tv = pre.tail_pos();
            let h = pre.head_pos();
            let e = bump as int;
            lemma_mod_bound(h, n);
            assert(self.tail_pos() == tv + e);
            assert forall|p: int| self.tail_pos() <= p < self.head_pos() implies (
            #[trigger] self.slot_at(p)) is Some by {
                lemma_mod_bound(p, n);
                if p < h {
                    lemma_wrap_distinct(p, h, n);
                    assert(self.slot_at(p) == pre.slot_at(p));
                } else {
                    assert(self.slot_at(p) == Some(x));
                }
            }
            assert(self.well_formed());
            assert(self.pending() =~= pre.pending().skip(e).push(x)) by {
                assert forall|k: int| 0 <= k < self.pending().len() implies self.pending()[k]
                    == pre.pending().skip(e).push(x)[k] by {
                    let p = tv + e + k;
                    lemma_mod_bound(p, n);
                    if p < h {
                        lemma_wrap_distinct(p, h, n);
                        assert(self.slot_at(p) == pre.slot_at(p));
                        assert(pre.pending()[e + k] == pre.slot_at(p)->Some_0);
                    } else {
                        assert(self.slot_at(p) == Some(x));
                    }
                }
            }
            if pre.locked() {
                assert(pre.pending().skip(0) =~= pre.pending());
            }
        }
    }

    /// Acquire the drain lock and capture the head. If the window stands one
    /// past capacity — an eviction that an earlier drain forced to be deferred
    /// — finish that eviction on the writer's behalf before draining begins
    /// (helping), so the window fits the capacity again.
    pub fn read(&mut self) -> (iter: RingIter)
        requires
            old(self).well_formed(),
            !old(self).locked(),
        ensures
            final(self).well_formed(),
            final(self).capacity() == old(self).capacity(),
            final(self).head_pos() == old(self).head_pos(),
            final(self).locked(),
            final(self).pending() == if old(self).pending().len() > old(self).capacity() {
                old(self).pending().drop_first()
            } else {
                old(self).pending()
            },
            final(self).pending().len() <= final(self).capacity(),
            iter.lockstep(*final(self)),
            iter.cursor().locked,
            iter.fixed() == old(self).head_pos(),
            final(self).tail_pos() == iter.cursor().value,
    {
        let ghost pre = *self;
        let t = Tail::decode(self.tail);
        let mut cur = Tail { locked: true, value: t.value };
        self.tail = cur.encode();
        let head = self.head;
        if head - cur.value > self.size {
            cur = Tail { locked: true, value: cur.value + 1 };
            self.tail = cur.encode();
        }
        let iter = RingIter { fixed_head: head, current_tail: cur };
        proof {
            if pre.pending().len() > pre.capacity() {
                Self::lemma_tail_advance(pre, *self, 1);
                assert(pre.pending().skip(1) =~= pre.pending().drop_first());
            } else {
                Self::lemma_tail_advance(pre, *self, 0);
                assert(pre.pending().skip(0) =~= pre.pending());
            }
        }
        iter
    }

    /// True while a draining cursor is live, in which case beginning another
    /// drain is rejected ([`RingBuffer::read`] demands the lock be free).
    pub fn is_draining(&self) -> (r: bool)
        ensures
            r == self.locked(),
    {
        Tail::decode(self.tail).locked
    }

    /// How many elements are buffered and not yet drained.
    pub fn len(&self) -> (r: usize)
        requires
            self.well_formed(),
        ensures
            r == self.pending().len(),
    {
        let t = Tail::decode(self.tail);
        self.head - t.value
    }

    /// Whether a write may proceed right now: the head counter must still be
    /// representable, and while a drain holds the lock a buffer already past
    /// its capacity cannot take another element until the drain moves on.
    pub fn can_write(&self) -> (r: bool)
        requires
            self.well_formed(),
        ensures
            r == (self.head_pos() < isize::MAX && (self.locked() ==> self.pending().len()
                <= self.capacity())),
    {
        let t = Tail::decode(self.tail);
        self.head < (isize::MAX as usize) && (!t.locked || self.head - t.value <= self.size)
    }

    /// Drain everything in one call: begin a drain, pull every element up to
    /// the captured head, and return them oldest first. Draining leaves the
    /// buffer empty, so a second drain with no intervening write yields the
    /// empty sequence.
    pub fn drain_all(&mut self) -> (r: Vec<T>)
        requires
            old(self).well_formed(),
            !old(self).locked(),
        ensures
            final(self).well_formed(),
            final(self).capacity() == old(self).capacity(),
            final(self).head_pos() == old(self).head_pos(),
            !final(self).locked(),
            r@ == if old(self).pending().len() > old(self).capacity() {
                old(self).pending().drop_first()
            } else {
                old(self).pending()
            },
            final(self).pending() == Seq::<T>::empty(),
    {
        let ghost h0 = self.head_pos();
        let ghost cap = self.capacity();
        let mut out: Vec<T> = Vec::new();
        let mut iter = self.read();
        let ghost target = self.pending();
        proof {
            assert(out@ + self.pending() =~= target);
        }
        loop
            invariant_except_break
                self.well_formed(),
                iter.lockstep(*self),
                iter.fixed() == h0,
                self.head_pos() == h0,
                self.capacity() == cap,
                out@ + self.pending() == target,
                !iter.cursor().locked ==> !self.locked() && self.pending().len() == 0
                    && iter.cursor().value == iter.fixed(),
                iter.cursor().value <= iter.fixed(),
            ensures
                self.well_formed(),
                !self.locked(),
                self.head_pos() == h0,
                self.capacity() == cap,
                out@ == target,
                self.pending().len() == 0,
            decreases iter.fixed() - iter.cursor().value + (if iter.cursor().locked {
                1int
            } else {
                0int
            }),
        {
            match iter.next(self) {
                Some(x) => {
                    out.push(x);
                    proof {
                        assert(out@ + self.pending() =~= target);
                    }
                },
                None => {
                    proof {
                        assert(self.pending().len() == 0);
                        assert(out@ + self.pending() =~= out@);
                    }
                    break ;
                },
            }
        }
        proof {
            assert(self.pending() =~= Seq::<T>::empty());
        }
        out
    }
}

/// What a sequence of writes leaves buffered when it is replayed into an
/// empty, unlocked engine: each write applies [`lossy_append`]. This is the
/// sequence-level shadow of [`RingBuffer::write`]'s unlocked contract.
pub open spec fn replay_writes<T>(cap: nat, xs: Seq<T>) -> Seq<T>
    decreases xs.len(),
{
    if xs.len() == 0 {
        Seq::empty()
    } else {
        lossy_append(replay_writes(cap, xs.drop_last()), xs.last(), cap)
    }
}

/// FIFO within the window: after any sequence of writes into a fresh buffer
/// with no drain live, the buffer holds exactly the most recent `cap` writes
/// (all of them when there were fewer), oldest first; older writes are
/// silently gone. A drain then yields exactly that window.
pub proof fn lemma_fifo_window<T>(cap: nat, xs: Seq<T>)
    requires
        1 <= cap,
    ensures
        replay_writes(cap, xs) == if xs.len() <= cap {
            xs
        } else {
            xs.skip(xs.len() - cap)
        },
    decreases xs.len(),
{
    if xs.len() == 0 {
        assert(replay_writes(cap, xs) =~= xs);
    } else {
        let ys = xs.drop_last();
        lemma_fifo_window(cap, ys);
        let prev = replay_writes(cap, ys);
        if xs.len() <= cap {
            assert(lossy_append(prev, xs.last(), cap) =~= xs);
        } else {
            assert(lossy_append(prev, xs.last(), cap) =~= xs.skip(xs.len() - cap));
        }
    }
}

/// No loss under capacity: when no more writes than the capacity have gone in
/// since the buffer was last empty, every one of them is still buffered, in
/// order — nothing is dropped.
pub proof fn lemma_no_loss_under_capacity<T>(cap: nat, xs: Seq<T>)
    requires
        1 <= cap,
        xs.len() <= cap,
    ensures
        replay_writes(cap, xs) == xs,
{
    lemma_fifo_window(cap, xs);
}

/// Partial-drain resumability: the `k` elements a drain consumed before being
/// abandoned, followed by what remains buffered for a subsequent drain (the
/// rest), make up exactly the originally buffered sequence, in its order.
pub proof fn lemma_partial_drain_resumes<T>(s: Seq<T>, k: int)
    requires
        0 <= k <= s.len(),
    ensures
        s.take(k) + s.skip(k) == s,
{
    assert(s.take(k) + s.skip(k) =~= s);
}

/// Differential equivalence, write step: as long as the buffered sequence is
/// within capacity — which always holds for a driver that never writes during
/// a drain — the engine's write transforms it exactly as the sequential
/// reference model's write does, so the two stay in lock-step under any
/// operation sequence.
pub proof fn lemma_write_matches_reference<T>(s: Seq<T>, x: T, cap: nat)
    requires
        1 <= cap,
        s.len() <= cap,
    ensures
        lossy_append(s, x, cap) == if s.len() < cap {
            s.push(x)
        } else {
            s.drop_first().push(x)
        },
{
    if s.len() == cap {
        assert(s.skip(1) =~= s.drop_first());
        assert(lossy_append(s, x, cap) =~= s.drop_first().push(x));
    }
}

/// A draining cursor over one engine: it yields buffered elements oldest
/// first, up to the head captured when the drain began, keeping the engine's
/// packed tail in lock-step with its own position. Exhausting it, or giving it
/// up through [`RingIter::abandon`], releases the drain lock; an abandoned
/// drain leaves the unconsumed elements in place for the next drain.
pub struct RingIter {
    fixed_head: usize,
    current_tail: Tail,
}

impl RingIter {
    /// The head position captured when the drain began; draining stops there.
    pub closed spec fn fixed(&self) -> int {
        self.fixed_head as int
    }

    /// The cursor's own copy of the packed tail state.
    pub closed spec fn cursor(&self) -> Tail {
        self.current_tail
    }

    /// A live cursor agrees with its engine: the engine's tail is locked at
    /// the cursor's position, which never passes the captured head.
    pub open spec fn lockstep<T>(&self, buf: RingBuffer<T>) -> bool {
        &&& buf.well_formed()
        &&& self.cursor().locked ==> {
            &&& buf.locked()
            &&& buf.tail_pos() == self.cursor().value as int
            &&& self.cursor().value as int <= self.fixed() <= buf.head_pos()
        }
    }

    /// Pull the oldest unconsumed element, advancing the cursor and the
    /// engine's tail together. When the cursor reaches the captured head the
    /// drain is exhausted: the lock is released at that exact transition and
    /// every later call returns nothing without touching the engine.
    pub fn next<T>(&mut self, buf: &mut RingBuffer<T>) -> (r: Option<T>)
        requires
            old(self).lockstep(*old(buf)),
        ensures
            final(self).lockstep(*final(buf)),
            final(self).fixed() == old(self).fixed(),
            final(buf).capacity() == old(buf).capacity(),
            final(buf).head_pos() == old(buf).head_pos(),
            !old(self).cursor().locked ==> r is None && *final(buf) == *old(buf) && *final(self)
                == *old(self),
            final(self).cursor().value >= old(self).cursor().value,
            old(self).cursor().locked && old(self).cursor().value == old(self).fixed() ==> {
                &&& r is None
                &&& !final(self).cursor().locked
                &&& final(self).cursor().value == old(self).cursor().value
                &&& !final(buf).locked()
                &&& final(buf).tail_pos() == old(buf).tail_pos()
                &&& final(buf).pending() == old(buf).pending()
            },
            old(self).cursor().locked && old(self).cursor().value < old(self).fixed() ==> {
                &&& r == Some(old(buf).pending().first())
                &&& final(buf).pending() == old(buf).pending().drop_first()
                &&& final(buf).tail_pos() == old(buf).tail_pos() + 1
                &&& (final(self).cursor().locked <==> old(self).cursor().value + 1 < old(
                    self,
                ).fixed())
                &&& final(self).cursor().value == old(self).cursor().value + 1
                &&& final(buf).locked() == final(self).cursor().locked
            },
    {
        let ghost pre = *buf;
        if !self.current_tail.locked {
            return None;
        }
        if self.current_tail.value == self.fixed_head {
            let t = Tail { locked: false, value: self.current_tail.value };
            self.current_tail = t;
            buf.tail = t.encode();
            proof {
                RingBuffer::lemma_tail_advance(pre, *buf, 0);
                assert(pre.pending().skip(0) =~= pre.pending());
            }
            return None;
        }
        let mut slot: Option<T> = None;
        buf.data.swap_at(self.current_tail.value, &mut slot);
        let v = self.current_tail.value + 1;
        let t = Tail { locked: v != self.fixed_head, value: v };
        self.current_tail = t;
        buf.tail = t.encode();
        proof {
            let n = pre.slot_count();
            let tv = pre.tail_pos();
            lemma_mod_bound(tv, n);
            assert(slot == pre.slot_at(tv));
            assert(slot == Some(pre.pending().first()));
            assert forall|p: int| buf.tail_pos() <= p < buf.head_pos() implies (
            #[trigger] buf.slot_at(p)) is Some by {
                lemma_mod_bound(p, n);
                lemma_wrap_distinct(tv, p, n);
                assert(buf.slot_at(p) == pre.slot_at(p));
            }
            assert(buf.well_formed());
            assert(buf.pending() =~= pre.pending().drop_first()) by {
                assert forall|k: int| 0 <= k < buf.pending().len() implies buf.pending()[k]
                    == pre.pending().drop_first()[k] by {
                    let p = tv + 1 + k;
                    lemma_mod_bound(p, n);
                    lemma_wrap_distinct(tv, p, n);
                    assert(buf.slot_at(p) == pre.slot_at(p));
                    assert(pre.pending()[1 + k] == pre.slot_at(p)->Some_0);
                }
            }
        }
        slot
    }

    /// Give up the drain. If it was still live, the lock is released at the
    /// current position: everything not yet consumed stays buffered, in
    /// order, for a subsequent drain.
    pub fn abandon<T>(self, buf: &mut RingBuffer<T>)
        requires
            self.lockstep(*old(buf)),
        ensures
            final(buf).well_formed(),
            final(buf).capacity() == old(buf).capacity(),
            final(buf).head_pos() == old(buf).head_pos(),
            final(buf).tail_pos() == old(buf).tail_pos(),
            final(buf).pending() == old(buf).pending(),
            self.cursor().locked ==> !final(buf).locked(),
            !self.cursor().locked ==> *final(buf) == *old(buf),
    {
        let ghost pre = *buf;
        if self.current_tail.locked {
            let t = Tail { locked: false, value: self.current_tail.value };
            buf.tail = t.encode();
            proof {
                RingBuffer::lemma_tail_advance(pre, *buf, 0);
                assert(pre.pending().skip(0) =~= pre.pending());
            }
        }
    }
}

} // verus!
