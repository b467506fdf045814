//! Sets by their capabilities, and the operations that need no more than
//! those capabilities.

use crate::avl_tree::AVLTree;
use crate::binary_search_tree::{keys, lemma_ordered_count, BSTOps};
use crate::order::Ordered;
use vstd::prelude::*;

verus! {

/// Something that holds a finite set of elements.
pub trait Elements<T> {
    /// The elements.
    spec fn elements(&self) -> Set<T>;

    /// What the holder must satisfy before and after every operation; it
    /// implies that the elements are finitely many.
    spec fn valid(&self) -> bool;

    /// A valid holder has finitely many elements.
    proof fn valid_is_finite(&self)
        requires
            self.valid(),
        ensures
            self.elements().finite(),
    ;
}

/// Making an empty set.
pub trait CreateSet<T>: Elements<T> + Sized {
    fn create_set() -> (set: Self)
        ensures
            set.valid(),
            set.elements() == Set::<T>::empty(),
    ;
}

/// Asking whether an element is there.
pub trait Contains<T>: Elements<T> {
    fn contains(&self, data: &T) -> (found: bool)
        requires
            self.valid(),
        ensures
            found == self.elements().contains(*data),
    ;
}

/// Putting an element in.
pub trait Insert<T>: Elements<T> {
    fn insert(&mut self, data: &T)
        requires
            old(self).valid(),
            old(self).elements().len() < usize::MAX,
        ensures
            final(self).valid(),
            final(self).elements() == old(self).elements().insert(*data),
    ;
}

/// Asking whether anything is there.
pub trait IsEmpty<T>: Elements<T> {
    fn is_empty(&self) -> (none: bool)
        requires
            self.valid(),
        ensures
            none == (self.elements() == Set::<T>::empty()),
    ;
}

/// Listing the elements.
pub trait GetAllElements<T>: Elements<T> {
    fn get_all_elements(&self) -> (all: Vec<T>)
        requires
            self.valid(),
        ensures
            forall|k: T| all@.contains(k) <==> self.elements().contains(k),
    ;
}

/// A set with all five capabilities, and the set algebra built on them.
pub trait SetOps<T: Copy>:
    CreateSet<T> + Contains<T> + Insert<T> + IsEmpty<T> + GetAllElements<T> + Sized {
    /// The elements that are in both sets.
    fn intersect<V: Contains<T>>(set_a: &Self, set_b: &V) -> (both: Self)
        requires
            set_a.valid(),
            set_b.valid(),
        ensures
            both.valid(),
            both.elements() == set_a.elements().intersect(set_b.elements()),
    {
        let all = set_a.get_all_elements();
        let mut both = Self::create_set();
        let mut i: usize = 0;
        while i < all.len()
            invariant
                i <= all@.len(),
                set_a.valid(),
                set_b.valid(),
                both.valid(),
                both.elements().finite(),
                both.elements().len() <= i,
                forall|k: T| all@.contains(k) <==> set_a.elements().contains(k),
                forall|k: T|
                    both.elements().contains(k) <==> set_b.elements().contains(k) && exists|j: int|
                        0 <= j < i && all@[j] == k,
            decreases all@.len() - i,
        {
            let data = all[i];
            let ghost before = both.elements();
            if set_b.contains(&data) {
                both.insert(&data);
                proof {
                    vstd::set::axiom_set_insert_len(before, data);
                    vstd::set::axiom_set_insert_finite(before, data);
                }
            }
            proof {
                assert forall|k: T|
                    both.elements().contains(k) <==> set_b.elements().contains(k) && exists|j: int|
                        0 <= j < i + 1 && all@[j] == k by {
                    if before.contains(k) {
                        let j = choose|j: int| 0 <= j < i && all@[j] == k;
                        assert(0 <= j < i + 1 && all@[j] == k);
                    }
                    if set_b.elements().contains(k) && exists|j: int|
                        0 <= j < i + 1 && all@[j] == k {
                        let j = choose|j: int| 0 <= j < i + 1 && all@[j] == k;
                        if j < i {
                            assert(before.contains(k));
                        }
                    }
                    if k == data {
                        assert(all@[i as int] == k);
                    }
                }
            }
            i = i + 1;
        }
        proof {
            assert forall|k: T|
                both.elements().contains(k) <==> set_a.elements().intersect(
                    set_b.elements(),
                ).contains(k) by {
                if both.elements().contains(k) {
                    let j = choose|j: int| 0 <= j < i && all@[j] == k;
                    assert(all@.contains(k));
                }
                if set_a.elements().contains(k) && set_b.elements().contains(k) {
                    assert(all@.contains(k));
                    let j = choose|j: int| 0 <= j < all@.len() && all@[j] == k;
                    assert(0 <= j < i && all@[j] == k);
                }
            }
            assert(both.elements() =~= set_a.elements().intersect(set_b.elements()));
        }
        both
    }

    /// The elements that `f` says yes to.
    fn subset<F: Fn(&T) -> bool>(&self, f: &F) -> (chosen: Self)
        requires
            self.valid(),
            forall|k: T| #[trigger] f.requires((&k,)),
        ensures
            chosen.valid(),
            chosen.elements().subset_of(self.elements()),
            forall|k: T| #[trigger] chosen.elements().contains(k) ==> f.ensures((&k,), true),
            forall|k: T|
                self.elements().contains(k) && !(#[trigger] chosen.elements().contains(k)) ==> f.ensures(
                    (&k,),
                    false,
                ),
    {
        let all = self.get_all_elements();
        let mut chosen = Self::create_set();
        let mut i: usize = 0;
        while i < all.len()
            invariant
                i <= all@.len(),
                self.valid(),
                chosen.valid(),
                chosen.elements().finite(),
                chosen.elements().len() <= i,
                forall|k: T| #[trigger] f.requires((&k,)),
                forall|k: T| all@.contains(k) <==> self.elements().contains(k),
                forall|k: T|
                    #[trigger] chosen.elements().contains(k) ==> f.ensures((&k,), true)
                        && all@.contains(k),
                forall|j: int|
                    0 <= j < i && !chosen.elements().contains(#[trigger] all@[j]) ==> f.ensures(
                        (&all@[j],),
                        false,
                    ),
            decreases all@.len() - i,
        {
            let data = all[i];
            let ghost before = chosen.elements();
            assert(all@.contains(data));
            let yes = f(&data);
            if yes {
                chosen.insert(&data);
                proof {
                    vstd::set::axiom_set_insert_len(before, data);
                    vstd::set::axiom_set_insert_finite(before, data);
                }
            }
            proof {
                assert(f.ensures((&data,), yes));
                assert forall|k: T| #[trigger] chosen.elements().contains(k) implies f.ensures(
                    (&k,),
                    true,
                ) && all@.contains(k) by {
                    if k != data {
                        assert(before.contains(k));
                    }
                }
                assert forall|j: int|
                    0 <= j < i + 1 && !chosen.elements().contains(
                        #[trigger] all@[j],
                    ) implies f.ensures((&all@[j],), false) by {
                    if j < i {
                        assert(!before.contains(all@[j]));
                    }
                }
            }
            i = i + 1;
        }
        proof {
            assert forall|k: T| #[trigger] chosen.elements().contains(k) implies self.elements().contains(
                k,
            ) by {
                assert(all@.contains(k));
            }
            assert forall|k: T|
                self.elements().contains(k) && !(#[trigger] chosen.elements().contains(
                    k,
                )) implies f.ensures((&k,), false) by {
                assert(all@.contains(k));
                let j = choose|j: int| 0 <= j < all@.len() && all@[j] == k;
                assert(!chosen.elements().contains(all@[j]));
            }
        }
        chosen
    }
}

impl<T: Ordered> Elements<T> for AVLTree<T> {
    open spec fn elements(&self) -> Set<T> {
        keys(self.tree())
    }

    open spec fn valid(&self) -> bool {
        BSTOps::valid(self)
    }

    proof fn valid_is_finite(&self) {
        lemma_ordered_count(self.tree());
    }
}

impl<T: Ordered> CreateSet<T> for AVLTree<T> {
    fn create_set() -> (set: Self) {
        AVLTree::new()
    }
}

impl<T: Ordered> Contains<T> for AVLTree<T> {
    fn contains(&self, data: &T) -> (found: bool) {
        BSTOps::contains(self, data)
    }
}

impl<T: Ordered> Insert<T> for AVLTree<T> {
    fn insert(&mut self, data: &T) {
        proof {
            lemma_ordered_count(self.tree());
        }
        BSTOps::insert(self, data);
    }
}

impl<T: Ordered> IsEmpty<T> for AVLTree<T> {
    fn is_empty(&self) -> (none: bool) {
        AVLTree::is_empty(self)
    }
}

impl<T: Ordered> GetAllElements<T> for AVLTree<T> {
    fn get_all_elements(&self) -> (all: Vec<T>) {
        self.get_all_sorted()
    }
}

impl<T: Ordered> SetOps<T> for AVLTree<T> {

}

} // verus!
