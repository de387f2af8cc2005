//! A growable list of 32-bit integers backed by a fixed array that doubles
//! when it fills. Out-of-range indices are reported through an error value
//! rather than aborting.

use vstd::prelude::*;

verus! {

/// Why a list operation was refused.
#[derive(Clone, Copy, Debug, PartialEq, Eq, Structural)]
pub enum ListError {
    IndexOutOfBounds,
}

/// A dynamic array: `size` elements live in the prefix of a backing array of
/// `capacity` cells, and the backing array doubles whenever it is full.
pub struct MyList {
    arr: Vec<i32>,
    capacity: usize,
    size: usize,
    extend_ratio: usize,
}

impl View for MyList {
    type V = Seq<i32>;

    closed spec fn view(&self) -> Seq<i32> {
        self.arr@.subrange(0, self.size as int)
    }
}

impl MyList {
    /// How many elements fit before the next growth.
    pub closed spec fn spec_capacity(self) -> usize {
        self.capacity
    }

    /// Internal soundness: the backing array matches the capacity and the
    /// element count fits inside it.
    pub closed spec fn wf(self) -> bool {
        &&& self.arr@.len() == self.capacity as int
        &&& self.size <= self.capacity
        &&& self.capacity >= 1
        &&& self.extend_ratio == 2usize
    }

    /// Creates an empty list with the given initial capacity.
    pub fn new(capacity: usize) -> (list: Self)
        requires
            capacity >= 1,
        ensures
            list.wf(),
            list@ == Seq::<i32>::empty(),
            list.spec_capacity() == capacity,
    {
        let mut arr: Vec<i32> = Vec::new();
        let mut i: usize = 0;
        while i < capacity
            invariant
                i <= capacity,
                arr@.len() == i as int,
            decreases capacity - i,
        {
            arr.push(0);
            i += 1;
        }
        let list = MyList { arr, capacity, size: 0, extend_ratio: 2 };
        proof {
            assert(list@ =~= Seq::<i32>::empty());
        }
        list
    }

    /// How many elements the list holds.
    pub fn size(&self) -> (n: usize)
        requires
            self.wf(),
        ensures
            n == self@.len(),
    {
        self.size
    }

    /// The element at `index`, or an error when the index is out of range.
    pub fn get(&self, index: usize) -> (result: Result<i32, ListError>)
        requires
            self.wf(),
        ensures
            match result {
                Ok(v) => index < self@.len() && v == self@[index as int],
                Err(e) => index >= self@.len() && e == ListError::IndexOutOfBounds,
            },
    {
        if index >= self.size {
            return Err(ListError::IndexOutOfBounds);
        }
        Ok(self.arr[index])
    }

    /// Overwrites the element at `index`, or reports an error when the index
    /// is out of range, leaving the list unchanged.
    pub fn set(&mut self, index: usize, num: i32) -> (result: Result<(), ListError>)
        requires
            old(self).wf(),
        ensures
            final(self).wf(),
            final(self).spec_capacity() == old(self).spec_capacity(),
            match result {
                Ok(()) => index < old(self)@.len() && final(self)@ == old(self)@.update(
                    index as int,
                    num,
                ),
                Err(e) => index >= old(self)@.len() && e == ListError::IndexOutOfBounds
                    && final(self)@ == old(self)@,
            },
    {
        if index >= self.size {
            return Err(ListError::IndexOutOfBounds);
        }
        self.arr[index] = num;
        proof {
            assert(self@ =~= old(self)@.update(index as int, num));
        }
        Ok(())
    }

    /// Appends an element at the tail, doubling the capacity first when the
    /// list is full.
    pub fn add(&mut self, num: i32)
        requires
            old(self).wf(),
            old(self).spec_capacity() <= usize::MAX / 2,
        ensures
            final(self).wf(),
            final(self)@ == old(self)@.push(num),
            final(self).spec_capacity() as int == (if old(self)@.len() == old(
                self,
            ).spec_capacity() as int {
                2 * old(self).spec_capacity() as int
            } else {
                old(self).spec_capacity() as int
            }),
    {
        if self.size == self.capacity {
            self.extend_capacity();
        }
        proof {
            assert(old(self)@.len() == old(self).size as int);
            assert(self@.len() == self.size as int);
            assert(self.size == old(self).size);
        }
        let ghost pre: Seq<i32> = self@;
        self.arr[self.size] = num;
        self.size = self.size + 1;
        proof {
            assert(self@ =~= pre.push(num));
        }
    }

    /// Inserts an element before the one at `index`, shifting that one and
    /// all later elements back by one place; doubles the capacity first when
    /// the list is full. An index at or past the tail is an error that leaves
    /// the list unchanged.
    pub fn insert(&mut self, index: usize, num: i32) -> (result: Result<(), ListError>)
        requires
            old(self).wf(),
            old(self).spec_capacity() <= usize::MAX / 2,
        ensures
            final(self).wf(),
            match result {
                Ok(()) => index < old(self)@.len() && final(self)@ == old(self)@.insert(
                    index as int,
                    num,
                ) && final(self).spec_capacity() as int == (if old(self)@.len() == old(
                    self,
                ).spec_capacity() as int {
                    2 * old(self).spec_capacity() as int
                } else {
                    old(self).spec_capacity() as int
                }),
                Err(e) => index >= old(self)@.len() && e == ListError::IndexOutOfBounds
                    && final(self)@ == old(self)@ && final(self).spec_capacity() == old(
                    self,
                ).spec_capacity(),
            },
    {
        if index >= self.size {
            return Err(ListError::IndexOutOfBounds);
        }
        if self.size == self.capacity {
            self.extend_capacity();
        }
        proof {
            assert(old(self)@.len() == old(self).size as int);
            assert(self@.len() == self.size as int);
            assert(self.size == old(self).size);
        }
        let ghost pre: Seq<i32> = self@;
        let ghost pre_arr: Seq<i32> = self.arr@;
        let mut j: usize = self.size;
        while j > index
            invariant
                self.wf(),
                index < self.size,
                index <= j <= self.size,
                self.size < self.arr@.len(),
                self.arr@.len() == pre_arr.len(),
                pre == pre_arr.subrange(0, self.size as int),
                pre.len() == self.size as int,
                forall|t: int| 0 <= t <= j ==> self.arr@[t] == pre_arr[t],
                forall|t: int| j < t <= self.size ==> self.arr@[t] == pre_arr[t - 1],
            decreases j,
        {
            let shifted = self.arr[j - 1];
            self.arr[j] = shifted;
            j -= 1;
        }
        self.arr[index] = num;
        self.size = self.size + 1;
        proof {
            assert(self@ =~= pre.insert(index as int, num));
        }
        Ok(())
    }

    /// Removes and returns the element at `index`, shifting all later
    /// elements forward by one place. An index at or past the tail is an
    /// error that leaves the list unchanged.
    pub fn remove(&mut self, index: usize) -> (result: Result<i32, ListError>)
        requires
            old(self).wf(),
        ensures
            final(self).wf(),
            final(self).spec_capacity() == old(self).spec_capacity(),
            match result {
                Ok(v) => index < old(self)@.len() && v == old(self)@[index as int] && final(self)@
                    == old(self)@.remove(index as int),
                Err(e) => index >= old(self)@.len() && e == ListError::IndexOutOfBounds
                    && final(self)@ == old(self)@,
            },
    {
        if index >= self.size {
            return Err(ListError::IndexOutOfBounds);
        }
        let num = self.arr[index];
        let ghost pre: Seq<i32> = self@;
        let ghost pre_arr: Seq<i32> = self.arr@;
        let mut j: usize = index;
        while j + 1 < self.size
            invariant
                self.wf(),
                index <= j < self.size,
                self.size == old(self).size,
                self.size <= self.arr@.len(),
                self.arr@.len() == pre_arr.len(),
                pre == pre_arr.subrange(0, self.size as int),
                pre.len() == self.size as int,
                forall|t: int| 0 <= t < index ==> self.arr@[t] == pre_arr[t],
                forall|t: int| index <= t < j ==> self.arr@[t] == pre_arr[t + 1],
                forall|t: int| j <= t < self.arr@.len() ==> self.arr@[t] == pre_arr[t],
            decreases self.size - j,
        {
            let shifted = self.arr[j + 1];
            self.arr[j] = shifted;
            j += 1;
        }
        self.size = self.size - 1;
        proof {
            assert(self@ =~= pre.remove(index as int));
        }
        Ok(num)
    }

    /// Doubles the capacity, keeping every element in place.
    pub fn extend_capacity(&mut self)
        requires
            old(self).wf(),
            old(self).spec_capacity() <= usize::MAX / 2,
        ensures
            final(self).wf(),
            final(self)@ == old(self)@,
            final(self).spec_capacity() == 2 * old(self).spec_capacity(),
    {
        let new_capacity = self.capacity * 2;
        let ghost pre: Seq<i32> = self@;
        self.arr.resize(new_capacity, 0);
        self.capacity = new_capacity;
        proof {
            assert(self@ =~= pre);
        }
    }

    /// The elements as a plain array, in list order.
    pub fn to_array(&mut self) -> (arr: Vec<i32>)
        requires
            old(self).wf(),
        ensures
            *final(self) == *old(self),
            arr@ == old(self)@,
    {
        let mut arr: Vec<i32> = Vec::new();
        let mut i: usize = 0;
        while i < self.size
            invariant
                i <= self.size,
                self.size <= self.arr@.len(),
                arr@ =~= self.arr@.subrange(0, i as int),
            decreases self.size - i,
        {
            arr.push(self.arr[i]);
            i += 1;
            proof {
                assert(arr@ =~= self.arr@.subrange(0, i as int));
            }
        }
        arr
    }
}

} // verus!
