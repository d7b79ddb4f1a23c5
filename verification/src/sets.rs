//! Duplicate-free vectors used as finite sets.
//!
//! Frame numbers, swap slots and shared-memory references are attributed at
//! most once, so every collection in this crate is a set.  The sets are kept
//! as vectors without duplicates; their mathematical model is `Set<T>`.

use vstd::prelude::*;

verus! {

/// An element type that can be stored in a [`VecSet`]: copyable, with an
/// executable equality test that agrees with spec-level equality.
pub trait SetElem: Sized + Copy {
    fn elem_eq(a: &Self, b: &Self) -> (r: bool)
        ensures
            r == (*a == *b),
    ;
}

impl SetElem for u64 {
    fn elem_eq(a: &Self, b: &Self) -> (r: bool)
        ensures
            r == (*a == *b),
    {
        *a == *b
    }
}

impl SetElem for i32 {
    fn elem_eq(a: &Self, b: &Self) -> (r: bool)
        ensures
            r == (*a == *b),
    {
        *a == *b
    }
}

impl SetElem for usize {
    fn elem_eq(a: &Self, b: &Self) -> (r: bool)
        ensures
            r == (*a == *b),
    {
        *a == *b
    }
}

/// One swapped-out page: the swap area it lives in and its offset there.
/// An opaque key; two pages are the same page exactly when both fields agree.
#[derive(Clone, Copy, PartialEq, Eq, Structural, Debug)]
pub struct SwapSlot {
    pub swap_type: u64,
    pub offset: u64,
}

impl SetElem for SwapSlot {
    fn elem_eq(a: &Self, b: &Self) -> (r: bool)
        ensures
            r == (*a == *b),
    {
        a.swap_type == b.swap_type && a.offset == b.offset
    }
}

/// A finite set, stored as a vector without duplicates.
pub struct VecSet<T: SetElem> {
    elems: Vec<T>,
}

/// The set of physical frame numbers backing some memory.
pub type FrameSet = VecSet<u64>;

/// The set of swap slots backing swapped-out pages.
pub type SlotSet = VecSet<SwapSlot>;

/// A set of indices into the shared-memory inventory.
pub type IdxSet = VecSet<usize>;

impl<T: SetElem> View for VecSet<T> {
    type V = Set<T>;

    closed spec fn view(&self) -> Set<T> {
        self.elems@.to_set()
    }
}

impl<T: SetElem> VecSet<T> {
    #[verifier::type_invariant]
    spec fn wf(&self) -> bool {
        self.elems@.no_duplicates()
    }

    pub fn new() -> (r: Self)
        ensures
            r@ == Set::<T>::empty(),
    {
        let r = VecSet { elems: Vec::new() };
        proof {
            assert(r@ =~= Set::<T>::empty());
        }
        r
    }

    /// Number of elements; the vector holds no duplicates, so its length is
    /// the set's cardinality.
    pub fn len(&self) -> (r: usize)
        ensures
            r == self@.len(),
            self@.finite(),
    {
        proof {
            use_type_invariant(self);
            self.elems@.unique_seq_to_set();
        }
        self.elems.len()
    }

    pub fn contains(&self, x: &T) -> (r: bool)
        ensures
            r == self@.contains(*x),
    {
        let n = self.elems.len();
        for i in 0..n
            invariant
                n == self.elems@.len(),
                forall|j: int| 0 <= j < i ==> self.elems@[j] != *x,
        {
            if T::elem_eq(&self.elems[i], x) {
                return true;
            }
        }
        false
    }

    pub fn insert(&mut self, x: T)
        ensures
            final(self)@ == old(self)@.insert(x),
    {
        proof {
            use_type_invariant(&*self);
        }
        if !self.contains(&x) {
            // `Vec::push` may unwind, which the type-invariant check refuses
            // on a field; swap the vector out, grow it, and swap it back.
            let mut grown: Vec<T> = Vec::new();
            core::mem::swap(&mut grown, &mut self.elems);
            grown.push(x);
            core::mem::swap(&mut grown, &mut self.elems);
            proof {
                old(self).elems@.lemma_push_to_set_commute(x);
                assert(final(self)@ =~= old(self)@.insert(x));
            }
        } else {
            proof {
                assert(final(self)@ =~= old(self)@.insert(x));
            }
        }
    }

    /// Adds every element of `other`, making `self` the union of the two.
    pub fn union_with(&mut self, other: &VecSet<T>)
        ensures
            final(self)@ == old(self)@.union(other@),
    {
        proof {
            use_type_invariant(other);
        }
        let n = other.elems.len();
        for i in 0..n
            invariant
                n == other.elems@.len(),
                self@ == old(self)@.union(other.elems@.take(i as int).to_set()),
        {
            proof {
                assert(other.elems@.take(i + 1) =~= other.elems@.take(i as int).push(
                    other.elems@[i as int],
                ));
                other.elems@.take(i as int).lemma_push_to_set_commute(other.elems@[i as int]);
                assert(other.elems@.take(i + 1).to_set() =~= other.elems@.take(
                    i as int,
                ).to_set().insert(other.elems@[i as int]));
                assert(old(self)@.union(other.elems@.take(i + 1).to_set()) =~= old(
                    self,
                )@.union(other.elems@.take(i as int).to_set()).insert(other.elems@[i as int]));
            }
            self.insert(other.elems[i]);
        }
        proof {
            assert(other.elems@.take(n as int) =~= other.elems@);
            assert(final(self)@ =~= old(self)@.union(other@));
        }
    }

    /// Cardinality of `self` minus `other`: how many elements of `self` are
    /// in no other set.
    pub fn diff_count(&self, other: &VecSet<T>) -> (r: usize)
        ensures
            r == self@.difference(other@).len(),
    {
        proof {
            use_type_invariant(self);
        }
        let n = self.elems.len();
        let mut count: usize = 0;
        proof {
            assert(self.elems@.take(0).to_set() =~= Set::<T>::empty());
            assert(Set::<T>::empty().difference(other@) =~= Set::<T>::empty());
        }
        for i in 0..n
            invariant
                n == self.elems@.len(),
                self.elems@.no_duplicates(),
                count == self.elems@.take(i as int).to_set().difference(other@).len(),
                count <= i,
        {
            proof {
                assert(self.elems@.take(i + 1) =~= self.elems@.take(i as int).push(
                    self.elems@[i as int],
                ));
                self.elems@.take(i as int).lemma_push_to_set_commute(self.elems@[i as int]);
                assert(self.elems@.take(i + 1).to_set() =~= self.elems@.take(
                    i as int,
                ).to_set().insert(self.elems@[i as int]));
                self.elems@.take(i as int).unique_seq_to_set();
                assert(!self.elems@.take(i as int).contains(self.elems@[i as int])) by {
                    if self.elems@.take(i as int).contains(self.elems@[i as int]) {
                        let j = choose|j: int|
                            0 <= j < i && self.elems@.take(i as int)[j] == self.elems@[i as int];
                        assert(self.elems@[j] == self.elems@[i as int]);
                    }
                }
            }
            let ghost prev = self.elems@.take(i as int).to_set().difference(other@);
            let ghost next = self.elems@.take(i + 1).to_set().difference(other@);
            if !other.contains(&self.elems[i]) {
                proof {
                    assert(next =~= prev.insert(self.elems@[i as int]));
                    assert(!prev.contains(self.elems@[i as int]));
                    assert(self.elems@.take(i as int).no_duplicates());
                    self.elems@.take(i as int).unique_seq_to_set();
                    vstd::set_lib::lemma_len_subset(prev, self.elems@.take(i as int).to_set());
                }
                count = count + 1;
            } else {
                proof {
                    assert(next =~= prev);
                }
            }
        }
        proof {
            assert(self.elems@.take(n as int) =~= self.elems@);
        }
        count
    }

    /// Every value of this type models a finite set.
    pub broadcast proof fn lemma_finite(s: &VecSet<T>)
        ensures
            #[trigger] s@.finite(),
    {
        broadcast use vstd::seq_lib::seq_to_set_is_finite;

    }

    /// The elements, in their storage order (duplicate-free).
    pub fn as_vec(&self) -> (r: &Vec<T>)
        ensures
            r@.to_set() == self@,
            r@.no_duplicates(),
            r@.len() == self@.len(),
    {
        proof {
            use_type_invariant(self);
            self.elems@.unique_seq_to_set();
        }
        &self.elems
    }
}

} // verus!
