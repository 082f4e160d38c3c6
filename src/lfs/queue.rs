//! A linked first-in-first-out queue with a permanent sentinel node, and a
//! bounded ring queue addressed by head and tail counters.
use vstd::prelude::*;
use vstd::arithmetic::div_mod::{lemma_fundamental_div_mod, lemma_mod_multiples_vanish};
use vstd::arithmetic::power2::{
    lemma2_to64, lemma_pow2_adds, lemma_pow2_pos, lemma_pow2_strictly_increases, pow2,
};
use vstd::bits::{lemma_u64_low_bits_mask_is_mod, low_bits_mask};
use vstd::multiset::Multiset;

verus! {

/// One cell of the linked queue's arena.
struct Node<T> {
    value: Option<T>,
    next: Option<usize>,
}

/// An unbounded first-in-first-out queue.
///
/// `head` names the sentinel: a valueless node whose successor holds the
/// oldest value. `tail` names the newest node, the only live node without a
/// successor. A dequeue moves `head` to the sentinel's successor, takes the
/// value out of it (it becomes the new sentinel) and releases the old
/// sentinel's cell to the free list.
pub struct LockFreeQueue<T> {
    nodes: Vec<Node<T>>,
    head: usize,
    tail: usize,
    free: Vec<usize>,
    /// Indices of the live nodes, from the sentinel to the tail.
    chain: Ghost<Seq<usize>>,
}

impl<T> View for LockFreeQueue<T> {
    type V = Seq<T>;

    /// The values in the queue, oldest first.
    closed spec fn view(&self) -> Seq<T> {
        Seq::new(
            (self.chain@.len() - 1) as nat,
            |k: int| self.nodes@[self.chain@[k + 1] as int].value->0,
        )
    }
}

impl<T> LockFreeQueue<T> {
    /// The sentinel starts a chain of links that ends at the tail, every
    /// node after the sentinel holds a value, and every released cell is
    /// empty, listed once and not live.
    pub closed spec fn wf(&self) -> bool {
        let c = self.chain@;
        let f = self.free@;
        let n = self.nodes@;
        &&& c.len() >= 1
        &&& self.head == c[0]
        &&& self.tail == c.last()
        &&& forall|k: int| 0 <= k < c.len() ==> #[trigger] c[k] < n.len()
        &&& n[c[0] as int].value is None
        &&& forall|k: int| 0 < k < c.len() ==> n[#[trigger] c[k] as int].value is Some
        &&& forall|k: int|
            0 <= k < c.len() - 1 ==> n[#[trigger] c[k] as int].next == Some(c[k + 1])
        &&& n[c.last() as int].next is None
        &&& forall|i: int, j: int| 0 <= i < j < c.len() ==> c[i] != c[j]
        &&& forall|k: int| 0 <= k < f.len() ==> #[trigger] f[k] < n.len()
        &&& forall|k: int| 0 <= k < f.len() ==> n[#[trigger] f[k] as int].value is None
        &&& forall|i: int, j: int| 0 <= i < j < f.len() ==> f[i] != f[j]
        &&& forall|i: int, j: int| 0 <= i < f.len() && 0 <= j < c.len() ==> f[i] != c[j]
    }

    /// An empty queue: head and tail both name a fresh sentinel.
    pub fn new() -> (q: Self)
        ensures
            q.wf(),
            q@ == Seq::<T>::empty(),
    {
        let mut nodes: Vec<Node<T>> = Vec::new();
        nodes.push(Node { value: None, next: None });
        let q = LockFreeQueue { nodes, head: 0, tail: 0, free: Vec::new(), chain: Ghost(Seq::empty().push(0usize)) };
        proof {
            assert(q@ =~= Seq::<T>::empty());
        }
        q
    }

    /// Appends `value` at the back of the queue. Always succeeds.
    pub fn enqueue(&mut self, value: T)
        requires
            old(self).wf(),
        ensures
            final(self).wf(),
            final(self)@ == old(self)@.push(value),
    {
        let ghost c = self.chain@;
        let ghost f0 = self.free@;
        let node = Node { value: Some(value), next: None };
        let idx: usize;
        match self.free.pop() {
            Some(i) => {
                proof {
                    assert(i == f0[f0.len() - 1]);
                }
                self.nodes.set(i, node);
                idx = i;
            },
            None => {
                idx = self.nodes.len();
                self.nodes.push(node);
            },
        }
        let ghost mid = self.nodes@;
        let t = self.tail;
        self.nodes[t].next = Some(idx);
        self.tail = idx;
        self.chain = Ghost(c.push(idx));
        proof {
            let f = self.free@;
            let n = self.nodes@;
            let c2 = c.push(idx);
            assert forall|k: int| 0 <= k < c.len() implies #[trigger] c[k] != idx by {
                if f0.len() > 0 {
                    assert(f0[f0.len() - 1] != c[k]);
                }
            }
            assert forall|k: int| 0 <= k < f.len() implies #[trigger] f[k] != idx by {
                assert(f0[k] == f[k]);
            }
            assert forall|k: int| 0 <= k < c.len() && c[k] != t implies n[#[trigger] c[k] as int]
                == old(self).nodes@[c[k] as int] by {}
            assert forall|k: int| 0 <= k < c2.len() - 1 implies n[#[trigger] c2[k] as int].next
                == Some(c2[k + 1]) by {
                if k == c.len() - 1 {
                } else {
                    assert(c[k] != c[c.len() - 1]);
                }
            }
            assert forall|k: int| 0 < k < c2.len() implies n[#[trigger] c2[k] as int].value is Some by {
                if k < c.len() {
                    assert(c[k] != c[0]);
                }
            }
            assert forall|k: int| 0 <= k < f.len() implies n[#[trigger] f[k] as int].value is None by {
                assert(f0[k] == f[k]);
            }
            assert(self@ =~= old(self)@.push(value));
        }
    }

    /// Takes the value at the front of the queue, or `None` when it is empty.
    pub fn dequeue(&mut self) -> (r: Option<T>)
        requires
            old(self).wf(),
        ensures
            final(self).wf(),
            old(self)@.len() == 0 ==> r is None && final(self)@ == old(self)@,
            old(self)@.len() > 0 ==> r == Some(old(self)@[0]) && final(self)@ == old(self)@.subrange(
                1,
                old(self)@.len() as int,
            ),
    {
        let h = self.head;
        match self.nodes[h].next {
            None => None,
            Some(nx) => {
                let ghost c = self.chain@;
                let ghost f = self.free@;
                let ghost n0 = self.nodes@;
                assert(c[1] == nx);
                let v = self.nodes[nx].value.take();
                let mut released = Node { value: None, next: None };
                self.nodes.set_and_swap(h, &mut released);
                self.free.push(h);
                self.head = nx;
                self.chain = Ghost(c.subrange(1, c.len() as int));
                proof {
                    let d = c.subrange(1, c.len() as int);
                    let n = self.nodes@;
                    assert forall|k: int| 0 <= k < d.len() && k > 0 implies n[#[trigger] d[k] as int]
                        == n0[d[k] as int] by {
                        assert(c[k + 1] != c[0]);
                        assert(c[k + 1] != c[1]);
                    }
                    assert forall|k: int| 0 <= k < d.len() implies n[#[trigger] d[k] as int].next
                        == n0[d[k] as int].next by {
                        assert(c[k + 1] != c[0]);
                    }
                    assert forall|k: int| 0 <= k < d.len() - 1 implies n[#[trigger] d[k] as int].next
                        == Some(d[k + 1]) by {
                        assert(n0[c[k + 1] as int].next == Some(c[k + 2]));
                    }
                    assert(n[d.last() as int].next is None) by {
                        assert(c.last() != c[0]);
                    }
                    let f2 = self.free@;
                    assert forall|i: int, j: int| 0 <= i < f2.len() && 0 <= j < d.len() implies f2[i]
                        != d[j] by {
                        assert(d[j] == c[j + 1]);
                        assert(c[j + 1] != c[0]);
                        if i < f.len() {
                            assert(f2[i] == f[i]);
                        }
                    }
                    assert forall|k: int| 0 <= k < f2.len() implies n[#[trigger] f2[k] as int].value is None by {
                        if k < f.len() {
                            assert(f2[k] == f[k]);
                            assert(f[k] != c[0]);
                        }
                    }
                    assert forall|i: int, j: int| 0 <= i < j < f2.len() implies f2[i] != f2[j] by {
                        if j == f.len() {
                            assert(f[i] != c[0]);
                        }
                    }
                    assert(self@ =~= old(self)@.subrange(1, old(self)@.len() as int));
                }
                v
            },
        }
    }

    /// Whether the queue holds no value: the sentinel has no successor.
    pub fn is_empty(&self) -> (r: bool)
        requires
            self.wf(),
        ensures
            r == (self@.len() == 0),
    {
        self.nodes[self.head].next.is_none()
    }
}

/// The number of values a counter can take before it wraps.
pub open spec fn counter_range() -> int {
    0x1_0000_0000_0000_0000
}

/// How far `tail` is ahead of `head`, counting around the wrap of `u64`.
pub open spec fn span(head: u64, tail: u64) -> nat {
    if tail >= head {
        (tail - head) as nat
    } else {
        (tail + counter_range() - head) as nat
    }
}

/// Whether `p` is the least power of two that is at least `n`.
pub open spec fn is_next_power_of_two(p: nat, n: nat) -> bool {
    exists|k: nat| p == #[trigger] pow2(k) && n <= p && (k == 0 || pow2((k - 1) as nat) < n)
}

/// A power of two below 2^64 divides 2^64, so positions modulo it do not
/// change when a counter wraps.
proof fn lemma_wrap_keeps_slot(x: int, k: nat)
    requires
        k < 64,
    ensures
        (x + counter_range()) % (pow2(k) as int) == x % (pow2(k) as int),
        (x - counter_range()) % (pow2(k) as int) == x % (pow2(k) as int),
{
    lemma2_to64();
    lemma_pow2_pos(k);
    lemma_pow2_adds(k, (64 - k) as nat);
    let m = pow2(k) as int;
    let a = pow2((64 - k) as nat) as int;
    assert(m * a == counter_range());
    lemma_mod_multiples_vanish(a, x, m);
    lemma_mod_multiples_vanish(-a, x, m);
    assert(m * (-a) == -counter_range()) by (nonlinear_arith)
        requires
            m * a == counter_range(),
    ;
}

/// Distinct offsets below the modulus name distinct slots.
proof fn lemma_distinct_slots(h: int, i: int, j: int, m: int)
    requires
        0 <= i < j < m,
    ensures
        (h + i) % m != (h + j) % m,
{
    lemma_fundamental_div_mod(h + i, m);
    lemma_fundamental_div_mod(h + j, m);
    let qi = (h + i) / m;
    let qj = (h + j) / m;
    if (h + i) % m == (h + j) % m {
        assert(m * (qj - qi) == j - i) by (nonlinear_arith)
            requires
                h + i == m * qi + (h + i) % m,
                h + j == m * qj + (h + j) % m,
                (h + i) % m == (h + j) % m,
        ;
        assert(false) by (nonlinear_arith)
            requires
                m * (qj - qi) == j - i,
                0 < j - i < m,
        ;
    }
}

/// A bounded first-in-first-out queue over a ring of slots.
///
/// The capacity is a power of two. `head` counts the values ever taken and
/// `tail` the values ever added, both modulo 2^64; the values present are
/// those of the counters from `head` up to `tail`, and counter `c` lives in
/// slot `c & (capacity - 1)`.
pub struct BoundedLockFreeQueue<T> {
    buffer: Vec<Option<T>>,
    capacity: usize,
    head: u64,
    tail: u64,
    /// The capacity is `2^log_capacity`.
    log_capacity: Ghost<nat>,
}

impl<T> View for BoundedLockFreeQueue<T> {
    type V = Seq<T>;

    /// The values in the queue, oldest first.
    closed spec fn view(&self) -> Seq<T> {
        Seq::new(
            span(self.head, self.tail),
            |i: int| self.buffer@[(self.head as int + i) % (self.capacity as int)]->0,
        )
    }
}

impl<T> BoundedLockFreeQueue<T> {
    /// The number of slots.
    pub closed spec fn spec_capacity(&self) -> nat {
        self.capacity as nat
    }

    /// The capacity is a power of two with one slot each, the counters are
    /// at most a capacity apart, each value present fills its slot, and
    /// every other slot is empty.
    pub closed spec fn wf(&self) -> bool {
        &&& self.log_capacity@ < 64
        &&& self.capacity as int == pow2(self.log_capacity@)
        &&& self.buffer@.len() == self.capacity
        &&& span(self.head, self.tail) <= self.capacity
        &&& forall|i: int|
            0 <= i < span(self.head, self.tail) ==> (#[trigger] self.buffer@[(self.head as int
                + i) % (self.capacity as int)]) is Some
        &&& forall|i: int|
            span(self.head, self.tail) <= i < self.capacity ==> (#[trigger] self.buffer@[(
            self.head as int + i) % (self.capacity as int)]) is None
    }

    /// An empty queue whose capacity is `capacity` rounded up to the next
    /// power of two (one for zero).
    pub fn new(capacity: usize) -> (q: Self)
        requires
            capacity <= usize::MAX / 2 + 1,
        ensures
            q.wf(),
            q@ == Seq::<T>::empty(),
            is_next_power_of_two(q.spec_capacity(), capacity as nat),
    {
        let mut cap: usize = 1;
        let ghost mut k: nat = 0;
        proof {
            lemma2_to64();
        }
        while cap < capacity
            invariant
                cap as int == pow2(k),
                cap >= 1,
                k == 0 || pow2((k - 1) as nat) < capacity,
                capacity <= usize::MAX / 2 + 1,
            decreases usize::MAX - cap,
        {
            proof {
                lemma_pow2_unfold_step(k);
            }
            cap = cap * 2;
            proof {
                k = k + 1;
            }
        }
        proof {
            if k >= 64 {
                lemma2_to64();
                if k > 64 {
                    lemma_pow2_strictly_increases(64, k);
                }
            }
        }
        let mut buffer: Vec<Option<T>> = Vec::new();
        let mut i: usize = 0;
        while i < cap
            invariant
                buffer@.len() == i,
                i <= cap,
                forall|j: int| 0 <= j < i ==> (#[trigger] buffer@[j]) is None,
            decreases cap - i,
        {
            buffer.push(None);
            i = i + 1;
        }
        let q = BoundedLockFreeQueue { buffer, capacity: cap, head: 0, tail: 0, log_capacity: Ghost(k) };
        proof {
            assert forall|j: int| 0 <= j < cap implies (#[trigger] q.buffer@[(0 + j) % (cap as int)]) is None by {
                vstd::arithmetic::div_mod::lemma_small_mod(j as nat, cap as nat);
            }
            assert(q@ =~= Seq::<T>::empty());
            assert(is_next_power_of_two(q.spec_capacity(), capacity as nat));
        }
        q
    }

    /// The slot of counter `c`: `c & (capacity - 1)`.
    fn slot_of(&self, c: u64) -> (r: usize)
        requires
            self.wf(),
        ensures
            r as int == c as int % (self.capacity as int),
            r < self.capacity,
    {
        proof {
            lemma_pow2_pos(self.log_capacity@);
        }
        let mask: u64 = (self.capacity - 1) as u64;
        proof {
            lemma_u64_low_bits_mask_is_mod(c, self.log_capacity@);
            assert(mask == low_bits_mask(self.log_capacity@) as u64);
        }
        (c & mask) as usize
    }

    /// Appends `value` at the back, or hands it back in `Err` when the queue
    /// is full.
    pub fn enqueue(&mut self, value: T) -> (r: Result<(), T>)
        requires
            old(self).wf(),
        ensures
            final(self).wf(),
            final(self).spec_capacity() == old(self).spec_capacity(),
            old(self)@.len() < old(self).spec_capacity() ==> r is Ok
                && final(self)@ == old(self)@.push(value),
            old(self)@.len() >= old(self).spec_capacity() ==> r == Err::<(), T>(value)
                && final(self)@ == old(self)@,
    {
        if self.tail.wrapping_sub(self.head) >= self.capacity as u64 {
            return Err(value);
        }
        let idx = self.slot_of(self.tail);
        let ghost h = self.head as int;
        let ghost n = span(self.head, self.tail) as int;
        let ghost m = self.capacity as int;
        let ghost k = self.log_capacity@;
        let ghost b0 = self.buffer@;
        proof {
            lemma_pow2_pos(k);
            if self.tail < self.head {
                lemma_wrap_keeps_slot(self.tail as int, k);
            }
            assert(idx as int == (h + n) % m);
        }
        self.buffer.set(idx, Some(value));
        self.tail = self.tail.wrapping_add(1);
        proof {
            assert(span(self.head, self.tail) == n + 1) by {
                lemma2_to64();
            }
            assert forall|i: int| 0 <= i < n implies self.buffer@[(h + i) % m] == #[trigger] b0[(h + i) % m] by {
                lemma_distinct_slots(h, i, n, m);
            }
            assert forall|i: int| 0 <= i < n + 1 implies (#[trigger] self.buffer@[(h + i) % m]) is Some by {
                if i < n {
                    lemma_distinct_slots(h, i, n, m);
                }
            }
            assert forall|i: int| n + 1 <= i < m implies (#[trigger] self.buffer@[(h + i) % m]) is None by {
                lemma_distinct_slots(h, n, i, m);
            }
            assert(self@ =~= old(self)@.push(value));
        }
        Ok(())
    }

    /// Takes the value at the front, or `None` when the queue is empty.
    pub fn dequeue(&mut self) -> (r: Option<T>)
        requires
            old(self).wf(),
        ensures
            final(self).wf(),
            final(self).spec_capacity() == old(self).spec_capacity(),
            old(self)@.len() == 0 ==> r is None && final(self)@ == old(self)@,
            old(self)@.len() > 0 ==> r == Some(old(self)@[0]) && final(self)@ == old(self)@.subrange(
                1,
                old(self)@.len() as int,
            ),
    {
        if self.head == self.tail {
            return None;
        }
        let idx = self.slot_of(self.head);
        let ghost h = self.head as int;
        let ghost n = span(self.head, self.tail) as int;
        let ghost m = self.capacity as int;
        let ghost k = self.log_capacity@;
        let ghost b0 = self.buffer@;
        proof {
            lemma_pow2_pos(k);
            assert(idx as int == (h + 0) % m);
        }
        let mut taken: Option<T> = None;
        self.buffer.set_and_swap(idx, &mut taken);
        self.head = self.head.wrapping_add(1);
        proof {
            lemma2_to64();
            assert(span(self.head, self.tail) == n - 1);
            assert forall|i: int| 0 <= i < n - 1 implies (self.head as int + i) % m == #[trigger] ((h + 1 + i) % m) by {
                if self.head as int != h + 1 {
                    lemma_wrap_keeps_slot(h + 1 + i, k);
                }
            }
            assert forall|i: int| 0 <= i < n - 1 implies self.buffer@[(h + 1 + i) % m] == #[trigger] b0[(h + 1
                + i) % m] by {
                lemma_distinct_slots(h, 0, i + 1, m);
            }
            assert forall|i: int| 0 <= i < n - 1 implies (#[trigger] self.buffer@[(self.head as int
                + i) % m]) is Some by {
                assert(self.buffer@[(h + 1 + i) % m] == b0[(h + 1 + i) % m]);
                assert(b0[(h + (i + 1)) % m] is Some);
            }
            assert forall|i: int| n - 1 <= i < m implies (#[trigger] self.buffer@[(self.head as int
                + i) % m]) is None by {
                if self.head as int != h + 1 {
                    lemma_wrap_keeps_slot(h + 1 + i, k);
                }
                if i == m - 1 {
                    vstd::arithmetic::div_mod::lemma_mod_add_multiples_vanish(h, m);
                    assert(h + 1 + i == m + h);
                } else {
                    lemma_distinct_slots(h, 0, i + 1, m);
                    assert(b0[(h + (i + 1)) % m] is None);
                    assert(h + 1 + i == h + (i + 1));
                }
            }
            assert forall|i: int| 0 <= i < n - 1 implies #[trigger] self@[i] == old(self)@[i + 1] by {
                assert(self.buffer@[(h + 1 + i) % m] == b0[(h + 1 + i) % m]);
                assert((h + 1 + i) == h + (i + 1));
            }
            assert(self@ =~= old(self)@.subrange(1, old(self)@.len() as int));
        }
        taken
    }

    /// Whether the queue holds no value.
    pub fn is_empty(&self) -> (r: bool)
        requires
            self.wf(),
        ensures
            r == (self@.len() == 0),
    {
        self.head == self.tail
    }

    /// Whether the queue holds as many values as it has slots.
    pub fn is_full(&self) -> (r: bool)
        requires
            self.wf(),
        ensures
            r == (self@.len() == self.spec_capacity()),
    {
        self.tail.wrapping_sub(self.head) >= self.capacity as u64
    }

    /// The number of values in the queue.
    pub fn len(&self) -> (r: usize)
        requires
            self.wf(),
        ensures
            r == self@.len(),
    {
        self.tail.wrapping_sub(self.head) as usize
    }

    /// The number of slots: a power of two.
    pub fn capacity(&self) -> (r: usize)
        requires
            self.wf(),
        ensures
            r == self.spec_capacity(),
    {
        self.capacity
    }
}

/// Doubling a power of two gives the next one.
proof fn lemma_pow2_unfold_step(k: nat)
    ensures
        pow2(k + 1) == 2 * pow2(k),
{
    vstd::arithmetic::power2::lemma_pow2_unfold(k + 1);
}

/// What a queue holding `s` holds after each value of `vs` is enqueued in
/// turn, as the `enqueue` of either queue states it one step at a time
/// when it succeeds.
pub open spec fn enqueues_onto<T>(s: Seq<T>, vs: Seq<T>) -> Seq<T>
    decreases vs.len(),
{
    if vs.len() == 0 {
        s
    } else {
        enqueues_onto(s, vs.drop_last()).push(vs.last())
    }
}

/// The values that `n` dequeues take from a queue holding `s`, in the order
/// they come, and what the queue holds afterwards, as `dequeue` states it
/// one step at a time. A dequeue on an empty queue takes nothing.
pub open spec fn dequeues<T>(s: Seq<T>, n: nat) -> (Seq<T>, Seq<T>)
    decreases n,
{
    if n == 0 || s.len() == 0 {
        (Seq::empty(), s)
    } else {
        let (taken, rest) = dequeues(s.subrange(1, s.len() as int), (n - 1) as nat);
        (Seq::empty().push(s[0]) + taken, rest)
    }
}

/// Enqueuing `vs` puts them behind what the queue held.
pub proof fn lemma_enqueues_onto_appends<T>(s: Seq<T>, vs: Seq<T>)
    ensures
        enqueues_onto(s, vs) == s + vs,
    decreases vs.len(),
{
    if vs.len() > 0 {
        lemma_enqueues_onto_appends(s, vs.drop_last());
        assert(s + vs =~= (s + vs.drop_last()).push(vs.last()));
    } else {
        assert(s + vs =~= s);
    }
}

/// Dequeuing as many times as a queue holds values takes them all, oldest
/// first.
pub proof fn lemma_dequeues_drain<T>(s: Seq<T>)
    ensures
        dequeues(s, s.len()) == (s, Seq::<T>::empty()),
    decreases s.len(),
{
    if s.len() > 0 {
        let t = s.subrange(1, s.len() as int);
        lemma_dequeues_drain(t);
        assert(Seq::empty().push(s[0]) + t =~= s);
    } else {
        assert(s =~= Seq::<T>::empty());
    }
}

/// First in, first out: after the values `vs` are enqueued on an empty
/// queue, as many dequeues return them in the order they were enqueued and
/// leave the queue empty.
pub proof fn lemma_fifo<T>(vs: Seq<T>)
    ensures
        dequeues(enqueues_onto(Seq::empty(), vs), vs.len()) == (vs, Seq::<T>::empty()),
{
    lemma_enqueues_onto_appends(Seq::empty(), vs);
    assert(Seq::<T>::empty() + vs =~= vs);
    lemma_dequeues_drain(vs);
}

/// A bounded queue holding `s` takes every value of `vs` without refusing
/// one when they fit in its capacity: before each enqueue it holds fewer
/// values than its capacity.
pub proof fn lemma_bounded_enqueues_fit<T>(s: Seq<T>, vs: Seq<T>, capacity: nat)
    requires
        s.len() + vs.len() <= capacity,
    ensures
        forall|i: int| 0 <= i < vs.len() ==> #[trigger] enqueues_onto(s, vs.take(i)).len() < capacity,
{
    assert forall|i: int| 0 <= i < vs.len() implies #[trigger] enqueues_onto(s, vs.take(i)).len()
        < capacity by {
        lemma_enqueues_onto_appends(s, vs.take(i));
    }
}

/// The values that `ops` enqueue: `Some(v)` enqueues `v`, `None` dequeues.
pub open spec fn enqueued<T>(ops: Seq<Option<T>>) -> Seq<T>
    decreases ops.len(),
{
    if ops.len() == 0 {
        Seq::empty()
    } else {
        match ops.last() {
            Some(v) => enqueued(ops.drop_last()).push(v),
            None => enqueued(ops.drop_last()),
        }
    }
}

/// Runs `ops` on an unbounded queue holding `s`, each step as `enqueue` and
/// `dequeue` state it: the values dequeued, in order, and what the queue
/// holds at the end.
pub open spec fn run_ops<T>(s: Seq<T>, ops: Seq<Option<T>>) -> (Seq<T>, Seq<T>)
    decreases ops.len(),
{
    if ops.len() == 0 {
        (Seq::empty(), s)
    } else {
        let (out, q) = run_ops(s, ops.drop_last());
        match ops.last() {
            Some(v) => (out, q.push(v)),
            None => if q.len() == 0 {
                (out, q)
            } else {
                (out.push(q[0]), q.subrange(1, q.len() as int))
            },
        }
    }
}

/// Conservation: whatever the order of enqueues and dequeues, the values
/// dequeued followed by those still held are exactly the values held at the
/// start followed by those enqueued. No value is lost, duplicated or
/// reordered.
pub proof fn lemma_conservation<T>(s: Seq<T>, ops: Seq<Option<T>>)
    ensures
        run_ops(s, ops).0 + run_ops(s, ops).1 == s + enqueued(ops),
        (run_ops(s, ops).0 + run_ops(s, ops).1).to_multiset() == (s + enqueued(ops)).to_multiset(),
    decreases ops.len(),
{
    if ops.len() == 0 {
        assert(Seq::<T>::empty() + s =~= s + Seq::<T>::empty());
    } else {
        let prev = ops.drop_last();
        lemma_conservation(s, prev);
        let (out, q) = run_ops(s, prev);
        match ops.last() {
            Some(v) => {
                assert(out + q.push(v) =~= (out + q).push(v));
                assert(s + enqueued(prev).push(v) =~= (s + enqueued(prev)).push(v));
            },
            None => {
                if q.len() > 0 {
                    assert(out.push(q[0]) + q.subrange(1, q.len() as int) =~= out + q);
                }
            },
        }
    }
}

/// Runs `ops` on a bounded queue of the given capacity holding `s`, each
/// step as `enqueue` and `dequeue` state it: the values dequeued in order,
/// the values handed back by refused enqueues in order, and what the queue
/// holds at the end.
pub open spec fn run_bounded_ops<T>(capacity: nat, s: Seq<T>, ops: Seq<Option<T>>) -> (
    Seq<T>,
    Seq<T>,
    Seq<T>,
)
    decreases ops.len(),
{
    if ops.len() == 0 {
        (Seq::empty(), Seq::empty(), s)
    } else {
        let (out, refused, q) = run_bounded_ops(capacity, s, ops.drop_last());
        match ops.last() {
            Some(v) => if q.len() < capacity {
                (out, refused, q.push(v))
            } else {
                (out, refused.push(v), q)
            },
            None => if q.len() == 0 {
                (out, refused, q)
            } else {
                (out.push(q[0]), refused, q.subrange(1, q.len() as int))
            },
        }
    }
}

/// Conservation for the bounded queue: whatever the order of enqueues and
/// dequeues, the values dequeued, those still held and those handed back
/// by refused enqueues are, counted with multiplicity, the values held at
/// the start and those enqueued.
pub proof fn lemma_bounded_conservation<T>(capacity: nat, s: Seq<T>, ops: Seq<Option<T>>)
    ensures
        ({
            let (out, refused, q) = run_bounded_ops(capacity, s, ops);
            (out + q).to_multiset().add(refused.to_multiset()) == (s + enqueued(ops)).to_multiset()
        }),
    decreases ops.len(),
{
    broadcast use vstd::seq_lib::group_to_multiset_ensures;
    if ops.len() == 0 {
        assert(Seq::<T>::empty() + s =~= s + Seq::<T>::empty());
        assert(Seq::<T>::empty().to_multiset() =~= Multiset::empty());
        assert(s.to_multiset().add(Multiset::empty()) =~= s.to_multiset());
    } else {
        let prev = ops.drop_last();
        lemma_bounded_conservation(capacity, s, prev);
        let (out, refused, q) = run_bounded_ops(capacity, s, prev);
        match ops.last() {
            Some(v) => {
                assert(s + enqueued(prev).push(v) =~= (s + enqueued(prev)).push(v));
                if q.len() < capacity {
                    assert(out + q.push(v) =~= (out + q).push(v));
                    assert((out + q).push(v).to_multiset().add(refused.to_multiset())
                        =~= (out + q).to_multiset().add(refused.to_multiset()).insert(v));
                } else {
                    assert((out + q).to_multiset().add(refused.push(v).to_multiset())
                        =~= (out + q).to_multiset().add(refused.to_multiset()).insert(v));
                }
            },
            None => {
                if q.len() > 0 {
                    assert(out.push(q[0]) + q.subrange(1, q.len() as int) =~= out + q);
                }
            },
        }
    }
}

} // verus!
