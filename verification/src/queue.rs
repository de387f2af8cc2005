//! First-in-first-out queues.
//!
//! `LinkedListQueue` keeps its nodes in an arena and links them by index, so
//! the chain from front to rear is plain data rather than shared pointers;
//! popped nodes stay in the arena. `ArrayQueue` is a bounded ring buffer over
//! a fixed array, wrapping its indices by remainder.

use vstd::arithmetic::div_mod::{
    lemma_add_mod_noop_right, lemma_mod_division_less_than_divisor, lemma_mod_self_0,
    lemma_small_mod, lemma_sub_mod_noop,
};
use vstd::prelude::*;

verus! {

/// One arena node: an element and the index of the node behind it.
#[derive(Clone, Copy)]
pub struct ListNode<T> {
    elem: T,
    next: Option<usize>,
}

impl<T> ListNode<T> {
    /// The element the node carries.
    pub closed spec fn spec_elem(self) -> T {
        self.elem
    }

    /// The arena index of the node linked after this one.
    pub closed spec fn spec_next(self) -> Option<usize> {
        self.next
    }

    /// Creates an unlinked node.
    pub fn new(elem: T) -> (node: Self)
        ensures
            node.spec_elem() == elem,
            node.spec_next() is None,
    {
        ListNode { elem, next: None }
    }
}

impl<T: Copy> ListNode<T> {
    /// A copy of the node carrying the element.
    pub fn elem_value(&self) -> (elem: T)
        ensures
            elem == self.spec_elem(),
    {
        self.elem
    }

    /// The arena index the node links to, if any.
    pub fn next_index(&self) -> (next: Option<usize>)
        ensures
            next == self.spec_next(),
    {
        self.next
    }

    /// The same element, linked to the node at `next`.
    pub fn linked(node: Self, next: usize) -> (linked: Self)
        ensures
            linked.spec_elem() == node.spec_elem(),
            linked.spec_next() == Some(next),
    {
        ListNode { elem: node.elem, next: Some(next) }
    }
}

/// Neighbouring positions of the chain hold increasing arena indices.
pub open spec fn chain_increasing(chain: Seq<usize>) -> bool {
    forall|x1: int, x2: int|
        #![trigger chain[x1], chain[x2]]
        0 <= x1 && x2 == x1 + 1 && x2 < chain.len() ==> chain[x1] < chain[x2]
}

/// Chain indices are strictly increasing, so they are pairwise distinct.
pub(crate) proof fn lemma_chain_strictly_increasing(chain: Seq<usize>, c1: int, c2: int)
    requires
        chain_increasing(chain),
        0 <= c1 < c2 < chain.len(),
    ensures
        chain[c1] < chain[c2],
    decreases c2 - c1,
{
    if c1 + 1 < c2 {
        lemma_chain_strictly_increasing(chain, c1, c2 - 1);
    }
}

/// A strictly increasing chain of arena indices grows at least as fast as
/// its positions.
pub(crate) proof fn lemma_chain_indices_lower_bound(chain: Seq<usize>, c: int)
    requires
        chain_increasing(chain),
        0 <= c < chain.len(),
    ensures
        chain[c] >= c,
    decreases c,
{
    if c > 0 {
        lemma_chain_indices_lower_bound(chain, c - 1);
    }
}

/// A queue over an arena of nodes linked front to rear by index.
pub struct LinkedListQueue<T> {
    nodes: Vec<ListNode<T>>,
    front: Option<usize>,
    rear: Option<usize>,
    que_size: usize,
    chain: Ghost<Seq<usize>>,
}

impl<T> View for LinkedListQueue<T> {
    type V = Seq<T>;

    closed spec fn view(&self) -> Seq<T> {
        self.chain@.map_values(|i: usize| self.nodes@[i as int].spec_elem())
    }
}

impl<T: Copy> LinkedListQueue<T> {
    /// Internal soundness: the ghost chain lists the live nodes from front
    /// to rear, in strictly increasing arena order, and the `next` links of
    /// the arena agree with it.
    pub closed spec fn wf(self) -> bool {
        let chain = self.chain@;
        &&& chain.len() == self.que_size as int
        &&& forall|c: int| 0 <= c < chain.len() ==> (#[trigger] chain[c]) < self.nodes@.len()
        &&& chain_increasing(chain)
        &&& forall|c: int|
            0 <= c < chain.len() ==> (#[trigger] self.nodes@[chain[c] as int].spec_next()) == (
            if c < chain.len() - 1 {
                Some(chain[c + 1])
            } else {
                None
            })
        &&& self.front == (if chain.len() > 0 {
            Some(chain[0])
        } else {
            None::<usize>
        })
        &&& self.rear == (if chain.len() > 0 {
            Some(chain[chain.len() - 1])
        } else {
            None::<usize>
        })
    }

    /// Creates an empty queue.
    pub fn new() -> (queue: Self)
        ensures
            queue.wf(),
            queue@ == Seq::<T>::empty(),
    {
        let queue = LinkedListQueue {
            nodes: Vec::new(),
            front: None,
            rear: None,
            que_size: 0,
            chain: Ghost(Seq::empty()),
        };
        proof {
            assert(queue@ =~= Seq::<T>::empty());
        }
        queue
    }

    /// How many elements wait in the queue.
    pub fn size(&self) -> (n: usize)
        requires
            self.wf(),
        ensures
            n == self@.len(),
    {
        self.que_size
    }

    /// Whether the queue holds no element.
    pub fn is_empty(&self) -> (empty: bool)
        requires
            self.wf(),
        ensures
            empty == (self@.len() == 0),
    {
        self.que_size == 0
    }

    /// Enqueues an element at the rear.
    pub fn push(&mut self, elem: T)
        requires
            old(self).wf(),
        ensures
            final(self).wf(),
            final(self)@ == old(self)@.push(elem),
    {
        let ghost chain: Seq<usize> = self.chain@;
        let ghost len: int = chain.len() as int;
        let idx = self.nodes.len();
        self.nodes.push(ListNode { elem, next: None });
        match self.rear {
            Some(r) => {
                let old_node = self.nodes[r];
                self.nodes[r] = ListNode { elem: old_node.elem, next: Some(idx) };
            },
            None => {
                self.front = Some(idx);
            },
        }
        self.rear = Some(idx);
        proof {
            // The arena length is a machine word, so the chain — and with it
            // the size — cannot reach the word's maximum.
            assert(self.nodes.len() == self.nodes@.len());
            if len > 0 {
                lemma_chain_indices_lower_bound(chain, len - 1);
            }
        }
        self.que_size = self.que_size + 1;
        self.chain = Ghost(chain.push(idx));
        proof {
            let chain2 = self.chain@;
            let nodes2 = self.nodes@;
            assert forall|c1: int, c2: int|
                #![trigger chain2[c1], chain2[c2]]
                0 <= c1 && c2 == c1 + 1 && c2 < chain2.len() implies chain2[c1] < chain2[c2] by {}
            assert forall|c: int|
                0 <= c < chain2.len() implies (#[trigger] nodes2[chain2[c] as int].spec_next()) == (
            if c < chain2.len() - 1 {
                Some(chain2[c + 1])
            } else {
                None::<usize>
            }) by {
                if c < len - 1 {
                    lemma_chain_strictly_increasing(chain, c, len - 1);
                    assert(nodes2[chain[c] as int] == old(self).nodes@[chain[c] as int]);
                }
            }
            assert(final(self).wf());
            assert forall|c: int| 0 <= c < chain2.len() implies self@[c] == old(self)@.push(
                elem,
            )[c] by {
                if c < len {
                    assert(nodes2[chain[c] as int].spec_elem() == old(self).nodes@[chain[
                        c] as int].spec_elem());
                }
            }
            assert(self@ =~= old(self)@.push(elem));
        }
    }

    /// Dequeues the front element, or nothing when the queue is empty.
    pub fn pop(&mut self) -> (elem: Option<T>)
        requires
            old(self).wf(),
        ensures
            final(self).wf(),
            match elem {
                Some(v) => old(self)@.len() > 0 && v == old(self)@[0] && final(self)@ == old(
                    self,
                )@.subrange(1, old(self)@.len() as int),
                None => old(self)@.len() == 0 && *final(self) == *old(self),
            },
    {
        let ghost chain: Seq<usize> = self.chain@;
        match self.front {
            None => None,
            Some(f) => {
                let node = self.nodes[f];
                match node.next {
                    Some(nx) => {
                        self.front = Some(nx);
                    },
                    None => {
                        self.front = None;
                        self.rear = None;
                    },
                }
                self.que_size = self.que_size - 1;
                self.chain = Ghost(chain.subrange(1, chain.len() as int));
                proof {
                    let chain2 = self.chain@;
                    let nodes2 = self.nodes@;
                    assert forall|c: int|
                        0 <= c < chain2.len() implies (#[trigger] nodes2[chain2[
                        c] as int].spec_next()) == (if c < chain2.len() - 1 {
                        Some(chain2[c + 1])
                    } else {
                        None::<usize>
                    }) by {
                        assert(chain2[c] == chain[c + 1]);
                        assert(nodes2[chain[c + 1] as int].spec_next() == (if c + 1 < chain.len()
                            - 1 {
                            Some(chain[c + 2])
                        } else {
                            None::<usize>
                        }));
                    }
                    assert(nodes2[chain[0] as int].spec_next() == (if chain.len() > 1 {
                        Some(chain[1])
                    } else {
                        None::<usize>
                    }));
                    assert(final(self).wf());
                    assert(self@ =~= old(self)@.subrange(1, old(self)@.len() as int));
                }
                Some(node.elem)
            },
        }
    }

    /// The front element, without dequeueing it.
    pub fn peek(&self) -> (elem: Option<T>)
        requires
            self.wf(),
        ensures
            match elem {
                Some(v) => self@.len() > 0 && v == self@[0],
                None => self@.len() == 0,
            },
    {
        match self.front {
            Some(f) => {
                let node = self.nodes[f];
                Some(node.elem)
            },
            None => None,
        }
    }

    /// The queued elements as a plain array, front first.
    pub fn to_array(&self) -> (arr: Vec<T>)
        requires
            self.wf(),
        ensures
            arr@ == self@,
    {
        let mut arr: Vec<T> = Vec::new();
        let mut cur: Option<usize> = self.front;
        let mut done = false;
        let ghost mut pos: int = 0;
        while !done
            invariant
                self.wf(),
                0 <= pos <= self@.len(),
                arr@ == self@.subrange(0, pos),
                !done ==> cur == (if pos < self@.len() {
                    Some(self.chain@[pos])
                } else {
                    None::<usize>
                }),
                !done && pos < self@.len() ==> cur is Some,
                done ==> pos == self@.len(),
            decreases self@.len() - pos + (if done {
                0int
            } else {
                1int
            }),
        {
            match cur {
                Some(i) => {
                    proof {
                        assert(i == self.chain@[pos]);
                        assert(self.nodes@[self.chain@[pos] as int].spec_next() == (if pos
                            < self.chain@.len() - 1 {
                            Some(self.chain@[pos + 1])
                        } else {
                            None::<usize>
                        }));
                    }
                    let node = self.nodes[i];
                    arr.push(node.elem);
                    cur = node.next;
                    proof {
                        pos = pos + 1;
                        assert(arr@ =~= self@.subrange(0, pos));
                    }
                },
                None => {
                    done = true;
                },
            }
        }
        proof {
            assert(self@.subrange(0, self@.len() as int) =~= self@);
        }
        arr
    }
}

/// The cell that the element `t` places behind `front` occupies in a ring of
/// `capacity` cells.
pub open spec fn ring_index(front: int, t: int, capacity: int) -> int {
    (front + t) % capacity
}

proof fn lemma_ring_range(front: int, t: int, capacity: int)
    requires
        capacity > 0,
    ensures
        0 <= ring_index(front, t, capacity) < capacity,
{
    lemma_mod_division_less_than_divisor(front + t, capacity);
}

/// Distinct offsets within one revolution land in distinct cells.
proof fn lemma_ring_distinct(front: int, t1: int, t2: int, capacity: int)
    requires
        0 <= front < capacity,
        0 <= t1 < capacity,
        0 <= t2 < capacity,
        t1 != t2,
    ensures
        ring_index(front, t1, capacity) != ring_index(front, t2, capacity),
{
    lemma_small_mod(front as nat, capacity as nat);
    lemma_sub_mod_noop(front + t1, front, capacity);
    lemma_small_mod(t1 as nat, capacity as nat);
    lemma_sub_mod_noop(front + t2, front, capacity);
    lemma_small_mod(t2 as nat, capacity as nat);
}

/// Advancing the front by one cell shifts every offset by one.
proof fn lemma_ring_shift(front: int, t: int, capacity: int)
    requires
        0 <= front < capacity,
        0 <= t,
    ensures
        ring_index((front + 1) % capacity, t, capacity) == ring_index(front, t + 1, capacity),
{
    lemma_add_mod_noop_right(t, front + 1, capacity);
}

/// Stepping the front pointer wraps it at the capacity.
proof fn lemma_ring_step(front: int, capacity: int)
    requires
        0 <= front < capacity,
    ensures
        (front + 1) % capacity == (if front + 1 == capacity {
            0int
        } else {
            front + 1
        }),
{
    if front + 1 == capacity {
        lemma_mod_self_0(capacity);
    } else {
        lemma_small_mod((front + 1) as nat, capacity as nat);
    }
}

/// A bounded queue over a ring of cells: the front pointer and the size pick
/// out the occupied arc, and indices wrap by remainder.
pub struct ArrayQueue<T> {
    elems: Vec<Option<T>>,
    front: usize,
    que_size: usize,
    que_capacity: usize,
}

impl<T> View for ArrayQueue<T> {
    type V = Seq<T>;

    closed spec fn view(&self) -> Seq<T> {
        Seq::new(
            self.que_size as nat,
            |t: int|
                self.elems@[ring_index(
                    self.front as int,
                    t,
                    self.que_capacity as int,
                )]->Some_0,
        )
    }
}

impl<T: Copy> ArrayQueue<T> {
    /// How many elements fit at once.
    pub closed spec fn spec_capacity(self) -> usize {
        self.que_capacity
    }

    /// Internal soundness: the ring matches the capacity, the front pointer
    /// lies inside it, the occupied arc fits, and every cell of the arc is
    /// filled. A zero-capacity queue is allowed and is simply always full.
    pub closed spec fn wf(self) -> bool {
        &&& self.elems@.len() == self.que_capacity as int
        &&& self.que_capacity <= usize::MAX / 2
        &&& (self.que_capacity > 0 ==> self.front < self.que_capacity)
        &&& (self.que_capacity == 0 ==> self.front == 0)
        &&& self.que_size <= self.que_capacity
        &&& forall|t: int|
            0 <= t < self.que_size ==> (#[trigger] self.elems@[ring_index(
                self.front as int,
                t,
                self.que_capacity as int,
            )]) is Some
    }

    /// Creates an empty queue of the given capacity.
    pub fn new(capacity: usize) -> (queue: Self)
        requires
            capacity <= usize::MAX / 2,
        ensures
            queue.wf(),
            queue@ == Seq::<T>::empty(),
            queue.spec_capacity() == capacity,
    {
        let mut elems: Vec<Option<T>> = Vec::new();
        let mut i: usize = 0;
        while i < capacity
            invariant
                i <= capacity,
                elems@.len() == i as int,
            decreases capacity - i,
        {
            elems.push(None);
            i += 1;
        }
        let queue = ArrayQueue { elems, front: 0, que_size: 0, que_capacity: capacity };
        proof {
            assert(queue@ =~= Seq::<T>::empty());
        }
        queue
    }

    /// How many elements wait in the queue.
    pub fn size(&self) -> (n: usize)
        requires
            self.wf(),
        ensures
            n == self@.len(),
    {
        self.que_size
    }

    /// How many elements fit at once.
    pub fn capacity(&self) -> (n: usize)
        requires
            self.wf(),
        ensures
            n == self.spec_capacity(),
    {
        self.que_capacity
    }

    /// Whether the queue holds no element.
    pub fn is_empty(&self) -> (empty: bool)
        requires
            self.wf(),
        ensures
            empty == (self@.len() == 0),
    {
        self.que_size == 0
    }

    /// Enqueues an element at the rear, or reports a full queue by returning
    /// false and leaving it unchanged.
    pub fn push(&mut self, elem: T) -> (enqueued: bool)
        requires
            old(self).wf(),
        ensures
            final(self).wf(),
            final(self).spec_capacity() == old(self).spec_capacity(),
            enqueued == (old(self)@.len() < old(self).spec_capacity()),
            enqueued ==> final(self)@ == old(self)@.push(elem),
            !enqueued ==> *final(self) == *old(self),
    {
        if self.que_size == self.que_capacity {
            return false;
        }
        let rear = (self.front + self.que_size) % self.que_capacity;
        proof {
            lemma_ring_range(self.front as int, self.que_size as int, self.que_capacity as int);
        }
        self.elems[rear] = Some(elem);
        self.que_size = self.que_size + 1;
        proof {
            let front = self.front as int;
            let capacity = self.que_capacity as int;
            assert forall|t: int| 0 <= t < self.que_size implies (#[trigger] self.elems@[ring_index(
                front,
                t,
                capacity,
            )]) is Some by {
                lemma_ring_range(front, t, capacity);
                if t < self.que_size - 1 {
                    lemma_ring_distinct(front, t, self.que_size - 1, capacity);
                }
            }
            assert(self@ =~= old(self)@.push(elem)) by {
                assert forall|t: int| 0 <= t < self.que_size implies self@[t] == old(self)@.push(
                    elem,
                )[t] by {
                    lemma_ring_range(front, t, capacity);
                    if t < self.que_size - 1 {
                        lemma_ring_distinct(front, t, self.que_size - 1, capacity);
                    }
                }
            }
        }
        true
    }

    /// Dequeues the front element and advances the front pointer, wrapping
    /// at the capacity; an empty queue returns nothing and stays unchanged.
    pub fn pop(&mut self) -> (elem: Option<T>)
        requires
            old(self).wf(),
        ensures
            final(self).wf(),
            final(self).spec_capacity() == old(self).spec_capacity(),
            match elem {
                Some(v) => old(self)@.len() > 0 && v == old(self)@[0] && final(self)@ == old(
                    self,
                )@.subrange(1, old(self)@.len() as int),
                None => old(self)@.len() == 0 && *final(self) == *old(self),
            },
    {
        if self.que_size == 0 {
            return None;
        }
        proof {
            lemma_small_mod(self.front as nat, self.que_capacity as nat);
            assert(self.elems@[ring_index(self.front as int, 0, self.que_capacity as int)]
                is Some);
            assert(ring_index(self.front as int, 0, self.que_capacity as int)
                == self.front as int);
        }
        let slot = self.elems[self.front];
        let value = match slot {
            Some(v) => v,
            None => {
                proof {
                    assert(false);
                }
                return None;
            },
        };
        proof {
            lemma_ring_step(self.front as int, self.que_capacity as int);
        }
        self.front = if self.front + 1 == self.que_capacity {
            0
        } else {
            self.front + 1
        };
        self.que_size = self.que_size - 1;
        proof {
            let old_front = old(self).front as int;
            let capacity = self.que_capacity as int;
            assert forall|t: int| 0 <= t < self.que_size implies (#[trigger] self.elems@[ring_index(
                self.front as int,
                t,
                capacity,
            )]) is Some && self@[t] == old(self)@.subrange(1, old(self)@.len() as int)[t] by {
                lemma_ring_shift(old_front, t, capacity);
            }
            assert(self@ =~= old(self)@.subrange(1, old(self)@.len() as int));
        }
        Some(value)
    }

    /// The front element, without dequeueing it; an empty queue returns
    /// nothing.
    pub fn peek(&self) -> (elem: Option<T>)
        requires
            self.wf(),
        ensures
            match elem {
                Some(v) => self@.len() > 0 && v == self@[0],
                None => self@.len() == 0,
            },
    {
        if self.que_size == 0 {
            return None;
        }
        proof {
            lemma_small_mod(self.front as nat, self.que_capacity as nat);
            assert(self.elems@[ring_index(self.front as int, 0, self.que_capacity as int)]
                is Some);
            assert(ring_index(self.front as int, 0, self.que_capacity as int)
                == self.front as int);
        }
        match self.elems[self.front] {
            Some(v) => Some(v),
            None => {
                proof {
                    assert(false);
                }
                None
            },
        }
    }

    /// The queued elements as a plain array, front first.
    pub fn to_array(&self) -> (arr: Vec<T>)
        requires
            self.wf(),
        ensures
            arr@ == self@,
    {
        let mut arr: Vec<T> = Vec::new();
        let mut t: usize = 0;
        while t < self.que_size
            invariant
                self.wf(),
                t <= self.que_size,
                arr@ == self@.subrange(0, t as int),
            decreases self.que_size - t,
        {
            let idx = (self.front + t) % self.que_capacity;
            proof {
                lemma_ring_range(self.front as int, t as int, self.que_capacity as int);
                assert(self.elems@[ring_index(self.front as int, t as int, self.que_capacity
                    as int)] is Some);
                assert(idx as int == ring_index(self.front as int, t as int, self.que_capacity
                    as int));
            }
            match self.elems[idx] {
                Some(v) => arr.push(v),
                None => {
                    proof {
                        assert(false);
                    }
                },
            }
            t += 1;
            proof {
                assert(arr@ =~= self@.subrange(0, t as int));
            }
        }
        proof {
            assert(self@.subrange(0, self@.len() as int) =~= self@);
        }
        arr
    }
}

} // verus!
