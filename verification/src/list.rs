//! An ordered, immutable, non-empty list and the position handles into it.
//!
//! A [`List`] owns its items for as long as it lives. An [`ItemRef`] is a
//! position in one list together with a shared borrow of that list, so
//! that a neighbour is found by index arithmetic instead of by copying.

use vstd::prelude::*;

verus! {

/// A fixed sequence of items, never empty.
#[derive(Debug)]
pub struct List<T> {
    items: Vec<T>,
}

/// A position in a list, always inside it.
#[derive(Debug)]
pub struct ItemRef<'a, T> {
    index: usize,
    list: &'a List<T>,
}

/// An item with the items directly before and after it.
#[derive(Debug)]
pub struct Neighbors<'a, T> {
    pub item: &'a T,
    pub prev: Option<&'a T>,
    pub next: Option<&'a T>,
}

/// The two ends of a list.
#[derive(Debug)]
pub struct ListEnds<'a, T> {
    pub first: &'a T,
    pub last: &'a T,
}

impl<T> View for List<T> {
    type V = Seq<T>;

    closed spec fn view(&self) -> Seq<T> {
        self.items@
    }
}

impl<T> List<T> {
    #[verifier::type_invariant]
    spec fn nonempty(&self) -> bool {
        self.items@.len() > 0
    }

    /// Takes ownership of `items`, which are kept in the order given.
    pub fn new(items: Vec<T>) -> (list: Self)
        requires
            items@.len() > 0,
        ensures
            list@ == items@,
    {
        Self { items }
    }

    /// The number of items, which is never zero.
    pub fn len(&self) -> (n: usize)
        ensures
            n == self@.len(),
            n > 0,
    {
        proof {
            use_type_invariant(self);
        }
        self.items.len()
    }

    /// The item at position 0.
    pub fn first(&self) -> (item: &T)
        ensures
            self@.len() > 0,
            *item == self@[0],
    {
        proof {
            use_type_invariant(self);
        }
        &self.items[0]
    }

    /// The item at the highest position.
    pub fn last(&self) -> (item: &T)
        ensures
            self@.len() > 0,
            *item == self@[self@.len() - 1],
    {
        proof {
            use_type_invariant(self);
        }
        &self.items[self.items.len() - 1]
    }

    /// A handle on position 0.
    pub fn first_ref(&self) -> (item: ItemRef<'_, T>)
        ensures
            item.seq() == self@,
            item.position() == 0,
    {
        proof {
            use_type_invariant(self);
        }
        ItemRef { index: 0, list: self }
    }

    /// A handle on the highest position.
    pub fn last_ref(&self) -> (item: ItemRef<'_, T>)
        ensures
            item.seq() == self@,
            item.position() == self@.len() - 1,
    {
        proof {
            use_type_invariant(self);
        }
        ItemRef { index: self.items.len() - 1, list: self }
    }

    /// Both ends at once.
    pub fn list_ends(&self) -> (ends: ListEnds<'_, T>)
        ensures
            self@.len() > 0,
            *ends.first == self@[0],
            *ends.last == self@[self@.len() - 1],
    {
        let first = self.first();
        let last = self.last();
        ListEnds { first, last }
    }

    /// A handle on position `index`, where the list has one.
    pub fn get_ref(&self, index: usize) -> (item: Option<ItemRef<'_, T>>)
        ensures
            item is Some <==> index < self@.len(),
            item is Some ==> item->0.seq() == self@ && item->0.position() == index,
    {
        if index < self.items.len() {
            Some(ItemRef { index, list: self })
        } else {
            None
        }
    }

    /// A handle on every position, in ascending order.
    pub fn refs(&self) -> (all: Vec<ItemRef<'_, T>>)
        ensures
            all@.len() == self@.len(),
            forall|i: int|
                0 <= i < all@.len() ==> (#[trigger] all@[i]).position() == i && all@[i].seq()
                    == self@,
    {
        let mut all: Vec<ItemRef<'_, T>> = Vec::new();
        let mut index: usize = 0;
        while index < self.items.len()
            invariant
                index <= self.items@.len(),
                all@.len() == index,
                forall|i: int|
                    0 <= i < all@.len() ==> (#[trigger] all@[i]).position() == i && all@[i].seq()
                        == self@,
            decreases self.items@.len() - index,
        {
            all.push(ItemRef { index, list: self });
            index += 1;
        }
        all
    }
}

impl<'a, T> ItemRef<'a, T> {
    #[verifier::type_invariant]
    spec fn in_bounds(&self) -> bool {
        self.index < self.list.items@.len()
    }

    /// The position that this handle stands at.
    pub closed spec fn position(&self) -> int {
        self.index as int
    }

    /// The contents of the list that this handle points into.
    pub closed spec fn seq(&self) -> Seq<T> {
        self.list.items@
    }

    /// The item at this position.
    pub fn get(&self) -> (item: &'a T)
        ensures
            0 <= self.position() < self.seq().len(),
            *item == self.seq()[self.position()],
    {
        proof {
            use_type_invariant(self);
        }
        &self.list.items[self.index]
    }

    /// The item one position earlier, if this is not position 0.
    pub fn prev(&self) -> (item: Option<&'a T>)
        ensures
            item == prev_of(self.seq(), self.position()),
    {
        proof {
            use_type_invariant(self);
        }
        if self.index == 0 {
            None
        } else {
            Some(&self.list.items[self.index - 1])
        }
    }

    /// The item one position later, if this is not the last position.
    pub fn next(&self) -> (item: Option<&'a T>)
        ensures
            item == next_of(self.seq(), self.position()),
    {
        proof {
            use_type_invariant(self);
        }
        let len: usize = self.list.items.len();
        if self.index + 1 < len {
            Some(&self.list.items[self.index + 1])
        } else {
            None
        }
    }

    /// A handle one position earlier, if this is not position 0.
    pub fn prev_ref(&self) -> (item: Option<ItemRef<'a, T>>)
        ensures
            item is Some <==> self.position() > 0,
            item is Some ==> item->0.seq() == self.seq() && item->0.position() == self.position()
                - 1,
    {
        proof {
            use_type_invariant(self);
        }
        if self.index == 0 {
            None
        } else {
            Some(ItemRef { index: self.index - 1, list: self.list })
        }
    }

    /// A handle one position later, if this is not the last position.
    pub fn next_ref(&self) -> (item: Option<ItemRef<'a, T>>)
        ensures
            item is Some <==> self.position() + 1 < self.seq().len(),
            item is Some ==> item->0.seq() == self.seq() && item->0.position() == self.position()
                + 1,
    {
        proof {
            use_type_invariant(self);
        }
        let len: usize = self.list.items.len();
        if self.index + 1 < len {
            Some(ItemRef { index: self.index + 1, list: self.list })
        } else {
            None
        }
    }

    /// The item here together with both of its neighbours.
    pub fn neighbors(&self) -> (around: Neighbors<'a, T>)
        ensures
            0 <= self.position() < self.seq().len(),
            *around.item == self.seq()[self.position()],
            around.prev == prev_of(self.seq(), self.position()),
            around.next == next_of(self.seq(), self.position()),
    {
        let item = self.get();
        let prev = self.prev();
        let next = self.next();
        Neighbors { item, prev, next }
    }

    /// The position, as a number.
    pub fn index(&self) -> (index: usize)
        ensures
            index == self.position(),
            index < self.seq().len(),
    {
        proof {
            use_type_invariant(self);
        }
        self.index
    }

    /// The list that this handle points into.
    pub fn list(&self) -> (list: &'a List<T>)
        ensures
            list@ == self.seq(),
    {
        self.list
    }
}

/// The item before position `at` of `items`, if there is one.
pub open spec fn prev_of<T>(items: Seq<T>, at: int) -> Option<&'static T> {
    if 0 < at <= items.len() {
        Some(&items[at - 1])
    } else {
        None
    }
}

/// The item after position `at` of `items`, if there is one.
pub open spec fn next_of<T>(items: Seq<T>, at: int) -> Option<&'static T> {
    if 0 <= at + 1 < items.len() {
        Some(&items[at + 1])
    } else {
        None
    }
}

/// The neighbours of a place are the items one place away from it: the
/// item before place `at` is the item at `at - 1`, and there is none before
/// place 0; the item after it is the item at `at + 1`, and there is none
/// after the last place.
pub proof fn lemma_neighbors_are_adjacent<T>(items: Seq<T>, at: int)
    requires
        0 <= at < items.len(),
    ensures
        at > 0 ==> prev_of(items, at) == Some(&items[at - 1]),
        at == 0 ==> prev_of(items, at) is None,
        at + 1 < items.len() ==> next_of(items, at) == Some(&items[at + 1]),
        at + 1 == items.len() ==> next_of(items, at) is None,
{
}

} // verus!
