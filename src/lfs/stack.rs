//! Treiber-style stack whose nodes live in an arena and are linked by index.
use vstd::prelude::*;

verus! {

/// One cell of the arena: an occupied cell holds a value and the index of
/// the node below it; a released cell holds nothing.
struct Node<T> {
    value: Option<T>,
    next: Option<usize>,
}

/// An unbounded last-in-first-out stack.
///
/// Nodes are cells of an arena addressed by stable indices. `top` names the
/// most recently pushed node, and each node's `next` names the one pushed
/// before it. Cells released by `pop` are kept on a free list and reused by
/// later pushes, so each node is released exactly once.
pub struct LockFreeStack<T> {
    nodes: Vec<Node<T>>,
    top: Option<usize>,
    free: Vec<usize>,
    /// Indices of the live nodes, from the bottom of the stack to the top.
    chain: Ghost<Seq<usize>>,
}

impl<T> View for LockFreeStack<T> {
    type V = Seq<T>;

    /// The values on the stack, oldest first; the last one is the top.
    closed spec fn view(&self) -> Seq<T> {
        Seq::new(self.chain@.len(), |k: int| self.nodes@[self.chain@[k] as int].value->0)
    }
}

impl<T> LockFreeStack<T> {
    /// The arena links the live nodes from `top` down to a node with no
    /// successor, and every released cell is empty and listed once.
    pub closed spec fn wf(&self) -> bool {
        let c = self.chain@;
        let f = self.free@;
        let n = self.nodes@;
        &&& forall|k: int| 0 <= k < c.len() ==> #[trigger] c[k] < n.len()
        &&& forall|k: int| 0 <= k < c.len() ==> n[#[trigger] c[k] as int].value is Some
        &&& forall|k: int| 0 < k < c.len() ==> n[#[trigger] c[k] as int].next == Some(c[k - 1])
        &&& c.len() > 0 ==> n[c[0] as int].next is None
        &&& self.top == if c.len() == 0 { None::<usize> } else { Some(c.last()) }
        &&& forall|i: int, j: int| 0 <= i < j < c.len() ==> c[i] != c[j]
        &&& forall|k: int| 0 <= k < f.len() ==> #[trigger] f[k] < n.len()
        &&& forall|k: int| 0 <= k < f.len() ==> n[#[trigger] f[k] as int].value is None
        &&& forall|i: int, j: int| 0 <= i < j < f.len() ==> f[i] != f[j]
    }

    /// An empty stack.
    pub fn new() -> (s: Self)
        ensures
            s.wf(),
            s@ == Seq::<T>::empty(),
    {
        let s = LockFreeStack { nodes: Vec::new(), top: None, free: Vec::new(), chain: Ghost(Seq::empty()) };
        proof {
            assert(s@ =~= Seq::<T>::empty());
        }
        s
    }

    /// Whether the stack holds no value.
    pub fn is_empty(&self) -> (r: bool)
        requires
            self.wf(),
        ensures
            r == (self@.len() == 0),
    {
        self.top.is_none()
    }

    /// Puts `value` on top of the stack. Always succeeds.
    pub fn push(&mut self, value: T)
        requires
            old(self).wf(),
        ensures
            final(self).wf(),
            final(self)@ == old(self)@.push(value),
    {
        let ghost old_nodes = self.nodes@;
        let ghost c = self.chain@;
        let node = Node { value: Some(value), next: self.top };
        let idx: usize;
        match self.free.pop() {
            Some(i) => {
                proof {
                    assert(self.free@ == old(self).free@.drop_last());
                    assert forall|k: int| 0 <= k < c.len() implies c[k] != i by {
                        assert(old_nodes[c[k] as int].value is Some);
                    }
                }
                self.nodes.set(i, node);
                idx = i;
            },
            None => {
                idx = self.nodes.len();
                self.nodes.push(node);
            },
        }
        self.top = Some(idx);
        self.chain = Ghost(c.push(idx));
        proof {
            let f = self.free@;
            let n = self.nodes@;
            assert forall|k: int| 0 <= k < f.len() implies #[trigger] f[k] != idx by {
                assert(old(self).free@[k] == f[k]);
            }
            assert forall|k: int| 0 <= k < c.len() implies #[trigger] c[k] != idx by {
                assert(old_nodes[c[k] as int].value is Some);
            }
            assert(self@ =~= old(self)@.push(value)) by {
                assert forall|k: int| 0 <= k < c.len() implies n[c[k] as int] == old_nodes[c[k] as int] by {
                    assert(c[k] != idx);
                }
            }
        }
    }

    /// Takes the value on top of the stack, or `None` when it is empty.
    pub fn pop(&mut self) -> (r: Option<T>)
        requires
            old(self).wf(),
        ensures
            final(self).wf(),
            old(self)@.len() == 0 ==> r is None && final(self)@ == old(self)@,
            old(self)@.len() > 0 ==> r == Some(old(self)@.last()) && final(self)@
                == old(self)@.drop_last(),
    {
        match self.top {
            None => None,
            Some(t) => {
                let ghost old_nodes = self.nodes@;
                let ghost c = self.chain@;
                let ghost f = self.free@;
                let mut node = Node { value: None, next: None };
                self.nodes.set_and_swap(t, &mut node);
                self.top = node.next;
                self.free.push(t);
                self.chain = Ghost(c.drop_last());
                proof {
                    assert forall|k: int| 0 <= k < f.len() implies #[trigger] f[k] != t by {
                        assert(old_nodes[f[k] as int].value is None);
                    }
                    let d = c.drop_last();
                    assert forall|k: int| 0 <= k < d.len() implies self.nodes@[#[trigger] d[k] as int]
                        == old_nodes[d[k] as int] by {
                        assert(d[k] == c[k]);
                        assert(c[k] != c[c.len() - 1]);
                    }
                    assert(self@ =~= old(self)@.drop_last());
                }
                node.value
            },
        }
    }
}

/// What a stack holding `s` holds after each value of `vs` is pushed in
/// turn, as `push` states it one step at a time.
pub open spec fn pushes_onto<T>(s: Seq<T>, vs: Seq<T>) -> Seq<T>
    decreases vs.len(),
{
    if vs.len() == 0 {
        s
    } else {
        pushes_onto(s, vs.drop_last()).push(vs.last())
    }
}

/// The values that `n` pops take from a stack holding `s`, in the order
/// they come, and what the stack holds afterwards, as `pop` states it one
/// step at a time. A pop on an empty stack takes nothing.
pub open spec fn pops<T>(s: Seq<T>, n: nat) -> (Seq<T>, Seq<T>)
    decreases n,
{
    if n == 0 || s.len() == 0 {
        (Seq::empty(), s)
    } else {
        let (taken, rest) = pops(s.drop_last(), (n - 1) as nat);
        (Seq::empty().push(s.last()) + taken, rest)
    }
}

/// Pushing `vs` onto a stack puts them above what it held.
pub proof fn lemma_pushes_onto_appends<T>(s: Seq<T>, vs: Seq<T>)
    ensures
        pushes_onto(s, vs) == s + vs,
    decreases vs.len(),
{
    if vs.len() > 0 {
        lemma_pushes_onto_appends(s, vs.drop_last());
        assert(s + vs =~= (s + vs.drop_last()).push(vs.last()));
    } else {
        assert(s + vs =~= s);
    }
}

/// Last in, first out: after the values `vs` are pushed onto a stack
/// holding `s`, as many pops return them newest first and leave `s`.
pub proof fn lemma_lifo<T>(s: Seq<T>, vs: Seq<T>)
    ensures
        pops(pushes_onto(s, vs), vs.len()) == (vs.reverse(), s),
    decreases vs.len(),
{
    lemma_pushes_onto_appends(s, vs);
    if vs.len() > 0 {
        let w = vs.drop_last();
        lemma_lifo(s, w);
        lemma_pushes_onto_appends(s, w);
        assert((s + vs).drop_last() =~= s + w);
        assert((s + vs).last() == vs.last());
        assert(Seq::empty().push(vs.last()) + w.reverse() =~= vs.reverse()) by {
            assert forall|i: int| 0 <= i < vs.len() implies #[trigger] vs.reverse()[i] == (
            Seq::empty().push(vs.last()) + w.reverse())[i] by {
                if i > 0 {
                    assert(w.reverse()[i - 1] == w[w.len() - 1 - (i - 1)]);
                }
            }
        }
    } else {
        assert(vs.reverse() =~= Seq::<T>::empty());
        assert(s + vs =~= s);
    }
}

} // verus!
