//! Last-in-first-out stacks.
//!
//! `LinkedListStack` keeps its nodes in an arena and links them by index, the
//! top node pointing down towards the bottom; popped nodes stay in the arena.
//! `ArrayStack` simply grows and shrinks at the tail of a dynamic array.

use crate::queue::{chain_increasing, lemma_chain_indices_lower_bound, ListNode};
use vstd::prelude::*;

verus! {

/// A stack over an arena of nodes linked by index from the top downwards.
pub struct LinkedListStack<T> {
    nodes: Vec<ListNode<T>>,
    stack_peek: Option<usize>,
    stack_size: usize,
    chain: Ghost<Seq<usize>>,
}

impl<T> View for LinkedListStack<T> {
    type V = Seq<T>;

    closed spec fn view(&self) -> Seq<T> {
        self.chain@.map_values(|i: usize| self.nodes@[i as int].spec_elem())
    }
}

impl<T: Copy> LinkedListStack<T> {
    /// Internal soundness: the ghost chain lists the live nodes from bottom
    /// to top, in strictly increasing arena order, and each node's link
    /// points at the node below it.
    pub closed spec fn wf(self) -> bool {
        let chain = self.chain@;
        &&& chain.len() == self.stack_size as int
        &&& forall|c: int| 0 <= c < chain.len() ==> (#[trigger] chain[c]) < self.nodes@.len()
        &&& chain_increasing(chain)
        &&& forall|c: int|
            0 <= c < chain.len() ==> (#[trigger] self.nodes@[chain[c] as int].spec_next()) == (
            if c > 0 {
                Some(chain[c - 1])
            } else {
                None
            })
        &&& self.stack_peek == (if chain.len() > 0 {
            Some(chain[chain.len() - 1])
        } else {
            None::<usize>
        })
    }

    /// Creates an empty stack.
    pub fn new() -> (stack: Self)
        ensures
            stack.wf(),
            stack@ == Seq::<T>::empty(),
    {
        let stack = LinkedListStack {
            nodes: Vec::new(),
            stack_peek: None,
            stack_size: 0,
            chain: Ghost(Seq::empty()),
        };
        proof {
            assert(stack@ =~= Seq::<T>::empty());
        }
        stack
    }

    /// How many elements the stack holds.
    pub fn size(&self) -> (n: usize)
        requires
            self.wf(),
        ensures
            n == self@.len(),
    {
        self.stack_size
    }

    /// Whether the stack holds no element.
    pub fn is_empty(&self) -> (empty: bool)
        requires
            self.wf(),
        ensures
            empty == (self@.len() == 0),
    {
        self.stack_size == 0
    }

    /// Pushes an element onto the top.
    pub fn push(&mut self, elem: T)
        requires
            old(self).wf(),
        ensures
            final(self).wf(),
            final(self)@ == old(self)@.push(elem),
    {
        let ghost chain: Seq<usize> = self.chain@;
        let ghost len: int = chain.len() as int;
        let idx = self.nodes.len();
        self.nodes.push(ListNode::new(elem));
        match self.stack_peek {
            Some(top) => {
                let old_node = self.nodes[idx];
                self.nodes[idx] = ListNode::linked(old_node, top);
            },
            None => (),
        }
        self.stack_peek = Some(idx);
        proof {
            assert(self.nodes.len() == self.nodes@.len());
            if len > 0 {
                lemma_chain_indices_lower_bound(chain, len - 1);
            }
        }
        self.stack_size = self.stack_size + 1;
        self.chain = Ghost(chain.push(idx));
        proof {
            let chain2 = self.chain@;
            let nodes2 = self.nodes@;
            assert forall|c1: int, c2: int|
                #![trigger chain2[c1], chain2[c2]]
                0 <= c1 && c2 == c1 + 1 && c2 < chain2.len() implies chain2[c1] < chain2[c2] by {}
            assert forall|c: int|
                0 <= c < chain2.len() implies (#[trigger] nodes2[chain2[c] as int].spec_next()) == (
            if c > 0 {
                Some(chain2[c - 1])
            } else {
                None::<usize>
            }) by {
                if c < len {
                    assert(nodes2[chain[c] as int] == old(self).nodes@[chain[c] as int]);
                }
            }
            assert(final(self).wf());
            assert forall|c: int| 0 <= c < chain2.len() implies self@[c] == old(self)@.push(
                elem,
            )[c] by {
                if c < len {
                    assert(nodes2[chain[c] as int].spec_elem() == old(self).nodes@[chain[
                        c] as int].spec_elem());
                }
            }
            assert(self@ =~= old(self)@.push(elem));
        }
    }

    /// Pops the top element, or nothing when the stack is empty.
    pub fn pop(&mut self) -> (elem: Option<T>)
        requires
            old(self).wf(),
        ensures
            final(self).wf(),
            match elem {
                Some(v) => old(self)@.len() > 0 && v == old(self)@.last() && final(self)@ == old(
                    self,
                )@.drop_last(),
                None => old(self)@.len() == 0 && *final(self) == *old(self),
            },
    {
        let ghost chain: Seq<usize> = self.chain@;
        match self.stack_peek {
            None => None,
            Some(top) => {
                let node = self.nodes[top];
                self.stack_peek = node.next_index();
                self.stack_size = self.stack_size - 1;
                self.chain = Ghost(chain.drop_last());
                proof {
                    let chain2 = self.chain@;
                    assert(chain2 =~= chain.subrange(0, chain.len() - 1));
                    assert(final(self).wf());
                    assert(self@ =~= old(self)@.drop_last());
                }
                Some(node.elem_value())
            },
        }
    }

    /// The top element, without popping it; an empty stack yields nothing.
    pub fn peek(&self) -> (elem: Option<T>)
        requires
            self.wf(),
        ensures
            match elem {
                Some(v) => self@.len() > 0 && v == self@.last(),
                None => self@.len() == 0,
            },
    {
        match self.stack_peek {
            Some(top) => {
                let node = self.nodes[top];
                Some(node.elem_value())
            },
            None => None,
        }
    }

    /// The stacked elements as a plain array, bottom first.
    pub fn to_array(&self) -> (arr: Vec<T>)
        requires
            self.wf(),
        ensures
            arr@ == self@,
    {
        let mut arr: Vec<T> = Vec::new();
        let mut cur: Option<usize> = self.stack_peek;
        let mut done = false;
        let ghost mut seen: int = 0;
        while !done
            invariant
                self.wf(),
                0 <= seen <= self@.len(),
                arr@ == self@.subrange(self@.len() - seen, self@.len() as int),
                !done ==> cur == (if seen < self@.len() {
                    Some(self.chain@[self@.len() - 1 - seen])
                } else {
                    None::<usize>
                }),
                done ==> seen == self@.len(),
            decreases self@.len() - seen + (if done {
                0int
            } else {
                1int
            }),
        {
            match cur {
                Some(i) => {
                    proof {
                        let c = self@.len() - 1 - seen;
                        assert(i == self.chain@[c]);
                        assert(self.nodes@[self.chain@[c] as int].spec_next() == (if c > 0 {
                            Some(self.chain@[c - 1])
                        } else {
                            None::<usize>
                        }));
                    }
                    let node = self.nodes[i];
                    arr.insert(0, node.elem_value());
                    cur = node.next_index();
                    proof {
                        seen = seen + 1;
                        assert(arr@ =~= self@.subrange(self@.len() - seen, self@.len() as int));
                    }
                },
                None => {
                    done = true;
                },
            }
        }
        proof {
            assert(self@.subrange(0, self@.len() as int) =~= self@);
        }
        arr
    }
}

/// A stack backed directly by a dynamic array; the tail is the top.
pub struct ArrayStack<T> {
    stack: Vec<T>,
}

impl<T> View for ArrayStack<T> {
    type V = Seq<T>;

    closed spec fn view(&self) -> Seq<T> {
        self.stack@
    }
}

impl<T: Clone> ArrayStack<T> {
    /// Creates an empty stack.
    pub fn new() -> (stack: ArrayStack<T>)
        ensures
            stack@ == Seq::<T>::empty(),
    {
        ArrayStack::<T> { stack: Vec::<T>::new() }
    }

    /// How many elements the stack holds.
    pub fn size(&self) -> (n: usize)
        ensures
            n == self@.len(),
    {
        self.stack.len()
    }

    /// Whether the stack holds no element.
    pub fn is_empty(&self) -> (empty: bool)
        ensures
            empty == (self@.len() == 0),
    {
        self.stack.len() == 0
    }

    /// Pushes an element onto the top.
    pub fn push(&mut self, elem: T)
        ensures
            final(self)@ == old(self)@.push(elem),
    {
        self.stack.push(elem);
    }

    /// Pops the top element, or nothing when the stack is empty.
    pub fn pop(&mut self) -> (elem: Option<T>)
        ensures
            match elem {
                Some(v) => old(self)@.len() > 0 && v == old(self)@.last() && final(self)@ == old(
                    self,
                )@.drop_last(),
                None => old(self)@.len() == 0 && final(self)@ == old(self)@,
            },
    {
        let popped = self.stack.pop();
        proof {
            if old(self)@.len() > 0 {
                assert(self@ =~= old(self)@.drop_last());
            }
        }
        popped
    }

    /// The top element, without popping it; an empty stack yields nothing.
    pub fn peek(&self) -> (elem: Option<&T>)
        ensures
            match elem {
                Some(v) => self@.len() > 0 && *v == self@.last(),
                None => self@.len() == 0,
            },
    {
        if self.stack.len() == 0 {
            return None;
        }
        Some(&self.stack[self.stack.len() - 1])
    }

    /// The stacked elements as a plain array, bottom first.
    pub fn to_array(&self) -> (arr: &Vec<T>)
        ensures
            arr@ == self@,
    {
        &self.stack
    }
}

} // verus!
