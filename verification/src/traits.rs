//! The union-find abstraction: any partition structure that can insert
//! elements, look up a class representative, and merge two classes.

use vstd::prelude::*;

verus! {

/// A disjoint-set structure over elements of type `T`.  `Rep` is the type of
/// class-representative handles the structure hands out; a handle stands for
/// the class identified by `Self::rep_id` at the moment it was produced.
pub trait UnionFind<T>: Sized {
    type Rep: PartialEq;

    /// Well-formedness of the structure; every operation preserves it.
    spec fn inv(&self) -> bool;

    /// Whether `e` has been inserted.
    spec fn contains(&self, e: T) -> bool;

    /// The identity of the class `e` currently belongs to: two elements are
    /// equivalent exactly when their `class_of` values agree.
    spec fn class_of(&self, e: T) -> int;

    /// The class identity a handle names.
    spec fn rep_id(r: Self::Rep) -> int;

    /// The handle belongs to this structure's current state.
    spec fn rep_valid(&self, r: Self::Rep) -> bool;

    /// The handle still names the root of a class.
    spec fn rep_root(&self, r: Self::Rep) -> bool;

    /// Returns `None` exactly when `elem` was never inserted; otherwise a
    /// handle on the current root of `elem`'s class.  Pure read.
    fn find(&self, elem: &T) -> (r: Option<Self::Rep>)
        requires
            self.inv(),
        ensures
            match r {
                Option::None => !self.contains(*elem),
                Option::Some(rep) => {
                    &&& self.contains(*elem)
                    &&& self.rep_valid(rep)
                    &&& self.rep_root(rep)
                    &&& Self::rep_id(rep) == self.class_of(*elem)
                },
            },
    ;

    /// Merges `rep2`'s class into `rep1`'s: afterwards everything that was
    /// in either class answers `rep1`'s identity, nothing else moves, and
    /// `rep1` — which is returned — still names a root.  Both handles must
    /// name current roots; two handles on the same root change nothing.
    fn union(&mut self, rep1: Self::Rep, rep2: Self::Rep) -> (r: Self::Rep)
        requires
            old(self).inv(),
            old(self).rep_valid(rep1),
            old(self).rep_root(rep1),
            old(self).rep_valid(rep2),
            old(self).rep_root(rep2),
        ensures
            final(self).inv(),
            r == rep1,
            final(self).rep_valid(rep1),
            final(self).rep_root(rep1),
            forall|x: T| #[trigger] final(self).contains(x) <==> old(self).contains(x),
            forall|x: T|
                old(self).contains(x) ==> #[trigger] final(self).class_of(x) == (if old(self).class_of(x) == Self::rep_id(rep2) {
                    Self::rep_id(rep1)
                } else {
                    old(self).class_of(x)
                }),
    ;

    /// Inserts `elem`: already-present elements change nothing; a fresh one
    /// becomes a singleton class of its own.  Returns a handle on the root
    /// of `elem`'s class.  Existing classes and root handles are untouched.
    fn insert(&mut self, elem: T) -> (rep: Self::Rep)
        requires
            old(self).inv(),
        ensures
            final(self).inv(),
            final(self).contains(elem),
            final(self).rep_valid(rep),
            final(self).rep_root(rep),
            Self::rep_id(rep) == final(self).class_of(elem),
            forall|x: T| #[trigger] final(self).contains(x) <==> (old(self).contains(x) || x
                == elem),
            forall|x: T|
                old(self).contains(x) ==> #[trigger] final(self).class_of(x) == old(self).class_of(x),
            forall|r2: Self::Rep|
                old(self).rep_valid(r2) ==> #[trigger] final(self).rep_valid(r2),
            forall|r2: Self::Rep|
                old(self).rep_valid(r2) && old(self).rep_root(r2) ==> #[trigger] final(self).rep_root(r2),
    ;

    /// Inserts `elem` and merges its class into the one rooted at `rep`;
    /// `rep` stays the combined root and is returned.
    fn insert_union(&mut self, rep: Self::Rep, elem: T) -> (r: Self::Rep)
        requires
            old(self).inv(),
            old(self).rep_valid(rep),
            old(self).rep_root(rep),
        ensures
            final(self).inv(),
            r == rep,
            final(self).rep_valid(rep),
            final(self).rep_root(rep),
            final(self).contains(elem),
            final(self).class_of(elem) == Self::rep_id(rep),
    {
        let rep2 = self.insert(elem);
        self.union(rep, rep2)
    }

    /// Inserts both elements and merges `elem2`'s class into `elem1`'s; the
    /// returned handle names the combined root.
    fn insert2_union(&mut self, elem1: T, elem2: T) -> (r: Self::Rep)
        requires
            old(self).inv(),
        ensures
            final(self).inv(),
            final(self).contains(elem1),
            final(self).contains(elem2),
            final(self).rep_valid(r),
            final(self).rep_root(r),
            final(self).class_of(elem1) == Self::rep_id(r),
            final(self).class_of(elem2) == Self::rep_id(r),
    {
        let rep1 = self.insert(elem1);
        let rep2 = self.insert(elem2);
        self.union(rep1, rep2)
    }
}

} // verus!
