//! The disjoint-set store, its representative handles, and the scope
//! discipline that brands both with a fresh invariant lifetime.

use core::marker::PhantomData;
use vstd::prelude::*;

use crate::traits::UnionFind;

verus! {

/// Follows the parent chain from slot `i` for at most `fuel` steps and
/// returns the slot it ends on.  On a well-formed store (see
/// [`DisjointSets::inv`]) the chain reaches a parentless slot — the root of
/// `i`'s equivalence tree — before the fuel runs out, so the result is that
/// root.
pub(crate) open spec fn chase(p: Seq<Option<usize>>, i: int, fuel: nat) -> int
    decreases fuel,
{
    if fuel == 0 {
        i
    } else if 0 <= i < p.len() {
        match p[i] {
            Option::None => i,
            Option::Some(j) => chase(p, j as int, (fuel - 1) as nat),
        }
    } else {
        i
    }
}

/// Slot `i` is a root: it is allocated and has no parent.
pub(crate) open spec fn slot_is_root(p: Seq<Option<usize>>, i: int) -> bool {
    &&& 0 <= i < p.len()
    &&& p[i] is None
}

/// Every parent pointer stays inside the arena.
pub(crate) open spec fn parents_in_bounds(p: Seq<Option<usize>>) -> bool {
    forall|i: int|
        0 <= i < p.len() ==> (#[trigger] p[i] matches Option::Some(j) ==> (j as int) < p.len())
}

/// Every slot's parent chain reaches a root within `fuel` steps.
pub(crate) open spec fn all_reach_root(p: Seq<Option<usize>>, fuel: nat) -> bool {
    forall|i: int| 0 <= i < p.len() ==> slot_is_root(p, #[trigger] chase(p, i, fuel))
}

/// A disjoint-set (union-find) store over `u64` elements, branded with the
/// invariant scope lifetime `'id`.  Obtain one through [`scoped`] or
/// [`DisjointSets::new`]; the handles it yields are branded with the same
/// lifetime and are rejected at compile time by any other store.
pub struct DisjointSets<'id> {
    /// Arena of parent pointers: `None` marks a root slot.
    parents: Vec<Option<usize>>,
    /// `elems[s]` is the element that owns slot `s`; elements are distinct.
    elems: Vec<u64>,
    /// Ghost bound on the length of every parent chain.
    fuel: Ghost<nat>,
    _marker: PhantomData<&'id mut &'id ()>,
}

/// An equivalence-class representative: the slot that was the root of some
/// element's tree at the moment it was computed.  A later `union` may demote
/// it, so a handle is a snapshot, not a durable identity.  The `'id` brand
/// restricts a handle to the one store that produced it.
#[derive(Copy, Clone, Debug, Eq, PartialEq)]
pub struct RootRep<'id> {
    addr: usize,
    _marker: PhantomData<&'id mut &'id ()>,
}

impl<'id> RootRep<'id> {
    /// The slot this handle points at.
    pub closed spec fn id(self) -> int {
        self.addr as int
    }
}

impl<'id> DisjointSets<'id> {
    /// Number of allocated slots.
    pub closed spec fn slot_count(self) -> nat {
        self.parents@.len()
    }

    /// Number of distinct elements inserted so far.
    pub closed spec fn elem_count(self) -> nat {
        self.elems@.len()
    }

    /// Whether `e` has been inserted into this store.
    pub closed spec fn contains(self, e: u64) -> bool {
        self.elems@.contains(e)
    }

    /// The slot allocated for element `e` (meaningful only when
    /// `self.contains(e)`).
    pub closed spec fn slot_of(self, e: u64) -> int {
        choose|s: int| 0 <= s < self.elems@.len() && self.elems@[s] == e
    }

    /// The root of the tree that slot `i` currently belongs to.
    pub closed spec fn root_of_slot(self, i: int) -> int {
        chase(self.parents@, i, self.fuel@)
    }

    /// Slot `i` is currently a root.
    pub closed spec fn is_root_slot(self, i: int) -> bool {
        slot_is_root(self.parents@, i)
    }

    /// The root slot of `e`'s equivalence class: two elements are equivalent
    /// exactly when their `rep_of` values agree.
    pub open spec fn rep_of(self, e: u64) -> int {
        self.root_of_slot(self.slot_of(e))
    }

    /// The handle `r` points into this store's arena.
    pub open spec fn rep_valid(self, r: RootRep<'id>) -> bool {
        0 <= r.id() < self.slot_count()
    }

    /// The handle `r` points at a slot that is currently a root.
    pub open spec fn rep_root(self, r: RootRep<'id>) -> bool {
        self.is_root_slot(r.id())
    }

    /// Well-formedness: parent pointers stay in bounds, every chain reaches
    /// a root within the ghost fuel, each slot is owned by exactly one
    /// element, and no element owns two slots.
    pub closed spec fn inv(self) -> bool {
        &&& self.parents@.len() == self.elems@.len()
        &&& parents_in_bounds(self.parents@)
        &&& all_reach_root(self.parents@, self.fuel@)
        &&& forall|s1: int, s2: int|
            0 <= s1 < self.elems@.len() && 0 <= s2 < self.elems@.len() && s1 != s2
                ==> #[trigger] self.elems@[s1] != #[trigger] self.elems@[s2]
    }

    /// How `insert(e)` relates the store before (`self`) to the store after
    /// (`post`) and to the handle it returns.  Inserting a present element
    /// changes nothing; inserting a fresh one allocates exactly one new root
    /// slot for it and leaves every existing class untouched.
    pub open spec fn insert_post(self, post: Self, e: u64, rep: RootRep<'id>) -> bool {
        &&& post.inv()
        &&& post.contains(e)
        &&& post.rep_valid(rep)
        &&& post.rep_root(rep)
        &&& rep.id() == post.rep_of(e)
        &&& if self.contains(e) {
            post == self
        } else {
            &&& post.slot_count() == self.slot_count() + 1
            &&& post.elem_count() == self.elem_count() + 1
            &&& post.rep_of(e) == self.slot_count()
            &&& (forall|x: u64| #[trigger] post.contains(x) <==> (self.contains(x) || x == e))
            &&& (forall|x: u64| self.contains(x) ==> #[trigger] post.slot_of(x) == self.slot_of(x))
            &&& (forall|x: u64| self.contains(x) ==> #[trigger] post.rep_of(x) == self.rep_of(x))
            &&& (forall|i: int|
                0 <= i < self.slot_count() ==> (#[trigger] post.is_root_slot(i)
                    <==> self.is_root_slot(i)))
            &&& (forall|i: int|
                0 <= i < self.slot_count() ==> #[trigger] post.root_of_slot(i)
                    == self.root_of_slot(i))
            &&& post.is_root_slot(self.slot_count() as int)
        }
    }

    /// How `union(rep1, rep2)` relates the store before (`self`) to the
    /// store after (`post`), where `r1` and `r2` are the two handles' slots.
    /// Every chain that resolved to `r2` resolves to `r1` afterwards, and
    /// nothing else moves; when both handles name the same root the store is
    /// unchanged.
    pub open spec fn union_post(self, post: Self, r1: int, r2: int) -> bool {
        &&& post.inv()
        &&& post.slot_count() == self.slot_count()
        &&& post.elem_count() == self.elem_count()
        &&& (forall|x: u64| #[trigger] post.contains(x) <==> self.contains(x))
        &&& (forall|x: u64| self.contains(x) ==> #[trigger] post.slot_of(x) == self.slot_of(x))
        &&& (forall|x: u64|
            self.contains(x) ==> #[trigger] post.rep_of(x) == (if self.rep_of(x) == r2 {
                r1
            } else {
                self.rep_of(x)
            }))
        &&& (forall|i: int|
            0 <= i < self.slot_count() ==> #[trigger] post.root_of_slot(i) == (if self.root_of_slot(
                i,
            ) == r2 {
                r1
            } else {
                self.root_of_slot(i)
            }))
        &&& (forall|i: int|
            0 <= i < self.slot_count() ==> (#[trigger] post.is_root_slot(i) <==> (
            self.is_root_slot(i) && (i != r2 || r1 == r2))))
    }

    /// The set of slots that currently serve as the root of some
    /// inserted element's class: one member per group, so its size is the
    /// number of groups `groups()` would produce.
    pub open spec fn classes(self) -> Set<int> {
        Set::new(|rt: int| exists|x: u64| #[trigger] self.contains(x) && self.rep_of(x) == rt)
    }

    /// A store no element has been inserted into yet.
    pub open spec fn is_empty_store(self) -> bool {
        &&& self.inv()
        &&& self.slot_count() == 0
        &&& self.elem_count() == 0
        &&& forall|e: u64| !self.contains(e)
    }
}

/// Appending a fresh root slot does not move any existing slot's chain.
proof fn lemma_chase_push(p: Seq<Option<usize>>, i: int, fuel: nat)
    requires
        parents_in_bounds(p),
        0 <= i < p.len(),
    ensures
        chase(p.push(Option::None), i, fuel) == chase(p, i, fuel),
    decreases fuel,
{
    if fuel > 0 {
        match p[i] {
            Option::None => {},
            Option::Some(j) => {
                lemma_chase_push(p, j as int, (fuel - 1) as nat);
            },
        }
    }
}

/// Re-parenting root `r2` under root `r1` sends every chain that ended on
/// `r2` to `r1` instead, leaves every other chain where it was, and still
/// lets every chain reach a root with one more step of fuel.
proof fn lemma_chase_union(p: Seq<Option<usize>>, r1: int, r2: int, i: int, fuel: nat)
    requires
        p.len() <= usize::MAX,
        parents_in_bounds(p),
        slot_is_root(p, r1),
        slot_is_root(p, r2),
        r1 != r2,
        0 <= i < p.len(),
        slot_is_root(p, chase(p, i, fuel)),
    ensures
        chase(p.update(r2, Option::Some(r1 as usize)), i, fuel + 1) == (if chase(p, i, fuel)
            == r2 {
            r1
        } else {
            chase(p, i, fuel)
        }),
        slot_is_root(
            p.update(r2, Option::Some(r1 as usize)),
            chase(p.update(r2, Option::Some(r1 as usize)), i, fuel + 1),
        ),
    decreases fuel,
{
    let p2 = p.update(r2, Option::Some(r1 as usize));
    if i == r2 {
        assert(p2[i] == Option::Some(r1 as usize));
        assert(chase(p2, i, fuel + 1) == chase(p2, r1, fuel));
        assert(chase(p2, r1, fuel) == r1);
        assert(chase(p, i, fuel) == i);
    } else {
        assert(p2[i] == p[i]);
        match p[i] {
            Option::None => {
                assert(chase(p, i, fuel) == i);
                assert(chase(p2, i, fuel + 1) == i);
            },
            Option::Some(j) => {
                assert(fuel != 0) by {
                    if fuel == 0 {
                        assert(chase(p, i, fuel) == i);
                    }
                }
                assert(chase(p, i, fuel) == chase(p, j as int, (fuel - 1) as nat));
                assert(chase(p2, i, fuel + 1) == chase(p2, j as int, fuel));
                lemma_chase_union(p, r1, r2, j as int, (fuel - 1) as nat);
            },
        }
    }
}

impl<'id> DisjointSets<'id> {
    /// Each slot stores a distinct element, so a slot index is recovered
    /// from the element it stores.
    proof fn lemma_slot_of_index(self, j: int)
        requires
            self.inv(),
            0 <= j < self.elems@.len(),
        ensures
            self.slot_of(self.elems@[j]) == j,
            self.contains(self.elems@[j]),
    {
        let e = self.elems@[j];
        assert(0 <= j < self.elems@.len() && self.elems@[j] == e);
        let s0 = self.slot_of(e);
        assert(0 <= s0 < self.elems@.len() && self.elems@[s0] == e);
    }

    /// Walks the parent chain from slot `s` up to the root of its tree.
    fn root_slot(&self, s: usize) -> (r: usize)
        requires
            self.inv(),
            (s as int) < self.slot_count(),
        ensures
            (r as int) == self.root_of_slot(s as int),
            self.is_root_slot(r as int),
    {
        let mut cur: usize = s;
        let ghost mut remaining: nat = self.fuel@;
        proof {
            assert(slot_is_root(self.parents@, chase(self.parents@, s as int, self.fuel@)));
        }
        while self.parents[cur].is_some()
            invariant
                self.inv(),
                (cur as int) < self.slot_count(),
                chase(self.parents@, cur as int, remaining) == self.root_of_slot(s as int),
                slot_is_root(self.parents@, chase(self.parents@, cur as int, remaining)),
            decreases remaining,
        {
            proof {
                assert(remaining != 0) by {
                    if remaining == 0 {
                        assert(chase(self.parents@, cur as int, remaining) == cur as int);
                    }
                }
            }
            let next = self.parents[cur].unwrap();
            proof {
                assert(chase(self.parents@, cur as int, remaining) == chase(
                    self.parents@,
                    next as int,
                    (remaining - 1) as nat,
                ));
                remaining = (remaining - 1) as nat;
            }
            cur = next;
        }
        proof {
            assert(chase(self.parents@, cur as int, remaining) == cur as int);
        }
        cur
    }

    /// Looks `elem` up.  Returns `None` exactly when `elem` was never
    /// inserted; otherwise returns a handle on the current root of `elem`'s
    /// equivalence tree.  Pure read: the store is not changed.
    pub fn find(&self, elem: &u64) -> (r: Option<RootRep<'id>>)
        requires
            self.inv(),
        ensures
            match r {
                Option::None => !self.contains(*elem),
                Option::Some(rep) => {
                    &&& self.contains(*elem)
                    &&& self.rep_valid(rep)
                    &&& self.rep_root(rep)
                    &&& rep.id() == self.rep_of(*elem)
                },
            },
    {
        let n = self.elems.len();
        let mut k: usize = 0;
        let mut slot: usize = n;
        while k < n
            invariant
                self.inv(),
                n == self.elems@.len(),
                k <= n,
                slot <= n,
                slot == n ==> forall|j: int| 0 <= j < k ==> #[trigger] self.elems@[j] != *elem,
                slot < n ==> self.elems@[slot as int] == *elem,
            decreases n - k,
        {
            if self.elems[k] == *elem {
                slot = k;
            }
            k += 1;
        }
        if slot == n {
            assert(!self.elems@.contains(*elem));
            None
        } else {
            proof {
                self.lemma_slot_of_index(slot as int);
            }
            let root = self.root_slot(slot);
            Some(RootRep { addr: root, _marker: PhantomData })
        }
    }

    /// Inserts `elem`.  If it is already present, nothing changes and the
    /// handle of its current root is returned; otherwise one new slot is
    /// allocated and `elem` becomes a singleton class rooted there.
    pub fn insert(&mut self, elem: u64) -> (rep: RootRep<'id>)
        requires
            old(self).inv(),
        ensures
            final(self).inv(),
            old(self).insert_post(*final(self), elem, rep),
    {
        let found = self.find(&elem);
        match found {
            Option::Some(rep) => rep,
            Option::None => {
                let addr = self.parents.len();
                self.parents.push(None);
                self.elems.push(elem);
                proof {
                    let pre = *old(self);
                    let p = pre.parents@;
                    let p2 = self.parents@;
                    assert(p2 == p.push(Option::None));
                    assert(self.elems@ == pre.elems@.push(elem));
                    assert(self.fuel@ == pre.fuel@);
                    assert forall|i: int|
                        0 <= i < p2.len() implies (#[trigger] p2[i] matches Option::Some(j) ==> (
                    j as int) < p2.len()) by {
                        if i < p.len() {
                            assert(p2[i] == p[i]);
                        } else {
                            assert(p2[i] == Option::None::<usize>);
                        }
                    }
                    assert forall|i: int|
                        0 <= i < p2.len() implies slot_is_root(
                        p2,
                        #[trigger] chase(p2, i, self.fuel@),
                    ) by {
                        if i < p.len() {
                            lemma_chase_push(p, i, pre.fuel@);
                            assert(slot_is_root(p, chase(p, i, pre.fuel@)));
                        } else {
                            assert(chase(p2, i, self.fuel@) == i);
                        }
                    }
                    assert(!pre.elems@.contains(elem));
                    assert forall|s1: int, s2: int|
                        0 <= s1 < self.elems@.len() && 0 <= s2 < self.elems@.len() && s1
                            != s2 implies #[trigger] self.elems@[s1] != #[trigger] self.elems@[s2] by {
                        if s1 == pre.elems@.len() && s2 < pre.elems@.len() {
                            assert(pre.elems@.contains(pre.elems@[s2]));
                        } else if s2 == pre.elems@.len() && s1 < pre.elems@.len() {
                            assert(pre.elems@.contains(pre.elems@[s1]));
                        }
                    }
                    assert(self.inv());
                    assert(self.elems@[addr as int] == elem);
                    self.lemma_slot_of_index(addr as int);
                    assert(chase(p2, addr as int, self.fuel@) == addr as int);
                    assert forall|x: u64| #[trigger]
                        self.contains(x) <==> (pre.contains(x) || x == elem) by {
                        if self.contains(x) {
                            let s = choose|s: int|
                                0 <= s < self.elems@.len() && self.elems@[s] == x;
                            if s < pre.elems@.len() {
                                assert(pre.elems@[s] == x);
                            }
                        }
                        if pre.contains(x) {
                            let s = choose|s: int| 0 <= s < pre.elems@.len() && pre.elems@[s] == x;
                            assert(self.elems@[s] == x);
                        }
                    }
                    assert forall|x: u64| pre.contains(x) implies #[trigger] self.slot_of(x)
                        == pre.slot_of(x) by {
                        let s = pre.slot_of(x);
                        assert(0 <= s < pre.elems@.len() && pre.elems@[s] == x);
                        assert(self.elems@[s] == x);
                        self.lemma_slot_of_index(s);
                    }
                    assert forall|i: int|
                        0 <= i < pre.slot_count() implies #[trigger] self.root_of_slot(i)
                        == pre.root_of_slot(i) by {
                        lemma_chase_push(p, i, pre.fuel@);
                    }
                    assert forall|x: u64| pre.contains(x) implies #[trigger] self.rep_of(x)
                        == pre.rep_of(x) by {
                        let s = pre.slot_of(x);
                        assert(0 <= s < pre.elems@.len() && pre.elems@[s] == x);
                        assert(self.slot_of(x) == s);
                        assert(self.root_of_slot(s) == pre.root_of_slot(s));
                    }
                    assert forall|i: int|
                        0 <= i < pre.slot_count() implies (#[trigger] self.is_root_slot(i)
                        <==> pre.is_root_slot(i)) by {
                        assert(p2[i] == p[i]);
                    }
                }
                RootRep { addr, _marker: PhantomData }
            },
        }
    }

    /// Merges the class rooted at `rep2` into the class rooted at `rep1`:
    /// `rep1`'s slot becomes (or remains) the root of the combined class and
    /// `rep1` is returned.  Both handles must name current roots of this
    /// store; handles naming the same root leave the store unchanged.
    pub fn union(&mut self, rep1: RootRep<'id>, rep2: RootRep<'id>) -> (r: RootRep<'id>)
        requires
            old(self).inv(),
            old(self).rep_valid(rep1),
            old(self).rep_root(rep1),
            old(self).rep_valid(rep2),
            old(self).rep_root(rep2),
        ensures
            final(self).inv(),
            old(self).union_post(*final(self), rep1.id(), rep2.id()),
            r == rep1,
    {
        if rep1.addr != rep2.addr {
            let n = self.parents.len();
            self.parents.set(rep2.addr, Some(rep1.addr));
            self.fuel = Ghost(self.fuel@ + 1);
            proof {
                let pre = *old(self);
                let p = pre.parents@;
                let p2 = self.parents@;
                let r1 = rep1.addr as int;
                let r2 = rep2.addr as int;
                assert(p2 == p.update(r2, Option::Some(rep1.addr)));
                assert(p.len() == n);
                assert(self.elems@ == pre.elems@);
                assert(self.fuel@ == pre.fuel@ + 1);
                assert forall|i: int|
                    0 <= i < p2.len() implies (#[trigger] p2[i] matches Option::Some(j) ==> (
                j as int) < p2.len()) by {
                    if i != r2 {
                        assert(p2[i] == p[i]);
                    }
                }
                assert forall|i: int|
                    0 <= i < p2.len() implies slot_is_root(
                    p2,
                    #[trigger] chase(p2, i, self.fuel@),
                ) by {
                    lemma_chase_union(p, r1, r2, i, pre.fuel@);
                }
                assert(self.inv());
                assert forall|i: int|
                    0 <= i < pre.slot_count() implies #[trigger] self.root_of_slot(i) == (
                if pre.root_of_slot(i) == r2 {
                    r1
                } else {
                    pre.root_of_slot(i)
                }) by {
                    lemma_chase_union(p, r1, r2, i, pre.fuel@);
                }
                assert forall|x: u64| pre.contains(x) implies #[trigger] self.rep_of(x) == (
                if pre.rep_of(x) == r2 {
                    r1
                } else {
                    pre.rep_of(x)
                }) by {
                    let s = pre.slot_of(x);
                    assert(0 <= s < pre.elems@.len() && pre.elems@[s] == x);
                }
                assert forall|i: int|
                    0 <= i < pre.slot_count() implies (#[trigger] self.is_root_slot(i) <==> (
                pre.is_root_slot(i) && (i != r2 || r1 == r2))) by {
                    if i != r2 {
                        assert(p2[i] == p[i]);
                    }
                }
            }
        }
        rep1
    }

    /// Inserts `elem` and merges its class into the class rooted at `rep`,
    /// which stays the combined root and is returned.
    pub fn insert_union(&mut self, rep: RootRep<'id>, elem: u64) -> (r: RootRep<'id>)
        requires
            old(self).inv(),
            old(self).rep_valid(rep),
            old(self).rep_root(rep),
        ensures
            final(self).inv(),
            r == rep,
            final(self).rep_valid(rep),
            final(self).rep_root(rep),
            final(self).contains(elem),
            final(self).rep_of(elem) == rep.id(),
            exists|mid: DisjointSets<'id>, rep2: RootRep<'id>|
                #[trigger] old(self).insert_post(mid, elem, rep2) && mid.union_post(
                    *final(self),
                    rep.id(),
                    rep2.id(),
                ),
    {
        let rep2 = self.insert(elem);
        let ghost mid = *self;
        proof {
            assert(mid.rep_valid(rep) && mid.rep_root(rep));
        }
        let r = self.union(rep, rep2);
        proof {
            assert(old(self).insert_post(mid, elem, rep2) && mid.union_post(
                *self,
                rep.id(),
                rep2.id(),
            ));
        }
        r
    }

    /// Inserts both elements and merges `elem2`'s class into `elem1`'s;
    /// the returned handle names the combined root (`elem1`'s).
    pub fn insert2_union(&mut self, elem1: u64, elem2: u64) -> (r: RootRep<'id>)
        requires
            old(self).inv(),
        ensures
            final(self).inv(),
            final(self).contains(elem1),
            final(self).contains(elem2),
            final(self).rep_valid(r),
            final(self).rep_root(r),
            final(self).rep_of(elem1) == r.id(),
            final(self).rep_of(elem2) == r.id(),
            exists|mid1: DisjointSets<'id>, mid2: DisjointSets<'id>, rb: RootRep<'id>|
                old(self).insert_post(mid1, elem1, r) && #[trigger] mid1.insert_post(
                    mid2,
                    elem2,
                    rb,
                ) && mid2.union_post(*final(self), r.id(), rb.id()),
    {
        let ra = self.insert(elem1);
        let ghost mid1 = *self;
        let rb = self.insert(elem2);
        let ghost mid2 = *self;
        proof {
            assert(mid2.rep_valid(ra) && mid2.rep_root(ra));
            assert(mid2.rep_of(elem1) == ra.id());
        }
        let r = self.union(ra, rb);
        proof {
            assert(old(self).insert_post(mid1, elem1, ra) && mid1.insert_post(mid2, elem2, rb)
                && mid2.union_post(*self, ra.id(), rb.id()));
        }
        r
    }

    /// Consumes the store and materializes the partition it holds: one group
    /// per current root, each group listing every element whose chain ends on
    /// that root.  Together the groups carry every inserted element exactly
    /// once (no duplicates, no omissions), a group never mixes two classes,
    /// two groups never share a class, and no group is empty.  Group order
    /// and the order inside a group are unspecified.
    #[verifier::rlimit(50)]
    pub fn groups(self) -> (gs: Vec<Vec<u64>>)
        requires
            self.inv(),
        ensures
            forall|g: int, i: int|
                0 <= g < gs@.len() && 0 <= i < gs@[g]@.len() ==> self.contains(
                    #[trigger] gs@[g]@[i],
                ),
            forall|e: u64| #[trigger]
                self.contains(e) ==> exists|g: int, i: int|
                    0 <= g < gs@.len() && 0 <= i < gs@[g]@.len() && gs@[g]@[i] == e,
            forall|g: int, i1: int, i2: int|
                0 <= g < gs@.len() && 0 <= i1 < gs@[g]@.len() && 0 <= i2 < gs@[g]@.len() && i1 != i2
                    ==> #[trigger] gs@[g]@[i1] != #[trigger] gs@[g]@[i2],
            forall|g: int, i1: int, i2: int|
                0 <= g < gs@.len() && 0 <= i1 < gs@[g]@.len() && 0 <= i2 < gs@[g]@.len()
                    ==> self.rep_of(#[trigger] gs@[g]@[i1]) == self.rep_of(#[trigger] gs@[g]@[i2]),
            forall|g1: int, i1: int, g2: int, i2: int|
                0 <= g1 < gs@.len() && 0 <= i1 < gs@[g1]@.len() && 0 <= g2 < gs@.len() && 0 <= i2
                    < gs@[g2]@.len() && g1 != g2 ==> self.rep_of(#[trigger] gs@[g1]@[i1])
                    != self.rep_of(#[trigger] gs@[g2]@[i2]),
            forall|g: int| 0 <= g < gs@.len() ==> gs@[g]@.len() > 0,
            forall|rt: int| #[trigger]
                self.classes().contains(rt) <==> exists|g: int, i: int|
                    0 <= g < gs@.len() && 0 <= i < gs@[g]@.len() && self.rep_of(
                        #[trigger] gs@[g]@[i],
                    ) == rt,
    {
        let n = self.elems.len();
        let mut gs: Vec<Vec<u64>> = Vec::new();
        let mut roots: Vec<usize> = Vec::new();
        let ghost mut gsrcs: Seq<Seq<int>> = Seq::empty();
        let mut k: usize = 0;
        while k < n
            invariant
                self.inv(),
                n == self.elems@.len(),
                n == self.parents@.len(),
                k <= n,
                gs@.len() == roots@.len(),
                gsrcs.len() == gs@.len(),
                forall|g1: int, g2: int|
                    0 <= g1 < roots@.len() && 0 <= g2 < roots@.len() && g1 != g2
                        ==> #[trigger] roots@[g1] != #[trigger] roots@[g2],
                forall|g: int|
                    0 <= g < roots@.len() ==> exists|j: int|
                        0 <= j < k && self.root_of_slot(j) == #[trigger] roots@[g] as int,
                forall|j: int|
                    0 <= j < k ==> exists|g: int|
                        0 <= g < roots@.len() && roots@[g] as int == #[trigger] self.root_of_slot(
                            j,
                        ),
                forall|g: int| 0 <= g < gs@.len() ==> #[trigger] gsrcs[g].len() == gs@[g]@.len(),
                forall|g: int, i: int|
                    0 <= g < gs@.len() && 0 <= i < gs@[g]@.len() ==> 0 <= #[trigger] gsrcs[g][i] < n
                        && gs@[g]@[i] == self.elems@[gsrcs[g][i]] && self.root_of_slot(gsrcs[g][i])
                        == roots@[g] as int,
                forall|g: int, j: int|
                    0 <= g < gs@.len() && 0 <= j < n && #[trigger] self.root_of_slot(j)
                        == #[trigger] roots@[g] as int ==> gs@[g]@.contains(self.elems@[j]),
                forall|g: int, i1: int, i2: int|
                    0 <= g < gs@.len() && 0 <= i1 < gs@[g]@.len() && 0 <= i2 < gs@[g]@.len() && i1
                        != i2 ==> #[trigger] gs@[g]@[i1] != #[trigger] gs@[g]@[i2],
                forall|g: int| 0 <= g < gs@.len() ==> gs@[g]@.len() > 0,
            decreases n - k,
        {
            let r = self.root_slot(k);
            let m = roots.len();
            let mut g: usize = 0;
            let mut found: usize = m;
            while g < m
                invariant
                    m == roots@.len(),
                    g <= m,
                    found <= m,
                    found == m ==> forall|t: int| 0 <= t < g ==> #[trigger] roots@[t] != r,
                    found < m ==> roots@[found as int] == r,
                decreases m - g,
            {
                if roots[g] == r {
                    found = g;
                }
                g += 1;
            }
            if found == m {
                let mut grp: Vec<u64> = Vec::new();
                let ghost mut srcs: Seq<int> = Seq::empty();
                let mut j: usize = 0;
                while j < n
                    invariant
                        self.inv(),
                        n == self.elems@.len(),
                        n == self.parents@.len(),
                        j <= n,
                        (k as int) < n,
                        (r as int) == self.root_of_slot(k as int),
                        srcs.len() == grp@.len(),
                        forall|i: int|
                            0 <= i < grp@.len() ==> 0 <= #[trigger] srcs[i] < j && grp@[i]
                                == self.elems@[srcs[i]] && self.root_of_slot(srcs[i]) == r as int,
                        forall|j2: int|
                            0 <= j2 < j && #[trigger] self.root_of_slot(j2) == r as int
                                ==> grp@.contains(self.elems@[j2]),
                        forall|i1: int, i2: int|
                            0 <= i1 < grp@.len() && 0 <= i2 < grp@.len() && i1 != i2
                                ==> #[trigger] grp@[i1] != #[trigger] grp@[i2],
                    decreases n - j,
                {
                    let rj = self.root_slot(j);
                    let ghost gpre = grp@;
                    let ghost spre = srcs;
                    if rj == r {
                        let e = self.elems[j];
                        grp.push(e);
                        proof {
                            srcs = srcs.push(j as int);
                        }
                    }
                    proof {
                        assert forall|i: int| 0 <= i < grp@.len() implies 0 <= #[trigger] srcs[i]
                            < j + 1 && grp@[i] == self.elems@[srcs[i]] && self.root_of_slot(srcs[i])
                            == r as int by {
                            if i < gpre.len() {
                                assert(grp@[i] == gpre[i] && srcs[i] == spre[i]);
                            } else {
                                assert(srcs[i] == j as int);
                                assert(grp@[i] == self.elems@[j as int]);
                            }
                        }
                        assert forall|j2: int|
                            0 <= j2 < j + 1 && #[trigger] self.root_of_slot(j2)
                                == r as int implies grp@.contains(self.elems@[j2]) by {
                            if j2 < j {
                                assert(gpre.contains(self.elems@[j2]));
                                let i = choose|i: int|
                                    0 <= i < gpre.len() && gpre[i] == self.elems@[j2];
                                assert(grp@[i] == self.elems@[j2]);
                            } else {
                                assert(grp@[grp@.len() - 1] == self.elems@[j as int]);
                            }
                        }
                        assert forall|i1: int, i2: int|
                            0 <= i1 < grp@.len() && 0 <= i2 < grp@.len() && i1
                                != i2 implies #[trigger] grp@[i1] != #[trigger] grp@[i2] by {
                            if i1 < gpre.len() && i2 == gpre.len() {
                                assert(grp@[i1] == self.elems@[spre[i1]]);
                                assert(grp@[i2] == self.elems@[j as int]);
                                assert(self.elems@[spre[i1]] != self.elems@[j as int]);
                            } else if i2 < gpre.len() && i1 == gpre.len() {
                                assert(grp@[i2] == self.elems@[spre[i2]]);
                                assert(grp@[i1] == self.elems@[j as int]);
                                assert(self.elems@[spre[i2]] != self.elems@[j as int]);
                            }
                        }
                    }
                    j += 1;
                }
                proof {
                    assert(grp@.contains(self.elems@[k as int]));
                }
                let ghost gspre = gs@;
                let ghost rootspre = roots@;
                gs.push(grp);
                roots.push(r);
                proof {
                    gsrcs = gsrcs.push(srcs);
                    let mi = gspre.len() as int;
                    assert(gs@ == gspre.push(grp));
                    assert(roots@ == rootspre.push(r));
                    assert forall|g1: int, g2: int|
                        0 <= g1 < roots@.len() && 0 <= g2 < roots@.len() && g1
                            != g2 implies #[trigger] roots@[g1] != #[trigger] roots@[g2] by {
                        if g1 < mi && g2 < mi {
                            assert(roots@[g1] == rootspre[g1] && roots@[g2] == rootspre[g2]);
                        } else if g1 == mi && g2 < mi {
                            assert(roots@[g2] == rootspre[g2] && rootspre[g2] != r);
                        } else if g2 == mi && g1 < mi {
                            assert(roots@[g1] == rootspre[g1] && rootspre[g1] != r);
                        }
                    }
                    assert forall|g0: int|
                        0 <= g0 < roots@.len() implies exists|j2: int|
                        0 <= j2 < k + 1 && self.root_of_slot(j2) == #[trigger] roots@[g0] as int by {
                        if g0 < mi {
                            let j2 = choose|j2: int|
                                0 <= j2 < k && self.root_of_slot(j2) == rootspre[g0] as int;
                            assert(0 <= j2 < k + 1 && self.root_of_slot(j2) == roots@[g0] as int);
                        } else {
                            assert(self.root_of_slot(k as int) == roots@[g0] as int);
                        }
                    }
                    assert forall|j2: int|
                        0 <= j2 < k + 1 implies exists|g0: int|
                        0 <= g0 < roots@.len() && roots@[g0] as int
                            == #[trigger] self.root_of_slot(j2) by {
                        if j2 < k {
                            let g0 = choose|g0: int|
                                0 <= g0 < rootspre.len() && rootspre[g0] as int
                                    == self.root_of_slot(j2);
                            assert(roots@[g0] as int == self.root_of_slot(j2));
                        } else {
                            assert(roots@[mi] as int == self.root_of_slot(j2));
                        }
                    }
                    assert forall|g0: int, i: int|
                        0 <= g0 < gs@.len() && 0 <= i < gs@[g0]@.len() implies 0
                        <= #[trigger] gsrcs[g0][i] < n && gs@[g0]@[i] == self.elems@[gsrcs[g0][i]]
                        && self.root_of_slot(gsrcs[g0][i]) == roots@[g0] as int by {
                        if g0 < mi {
                            assert(gs@[g0] == gspre[g0] && roots@[g0] == rootspre[g0] && gsrcs[g0]
                                == gsrcs[g0]);
                        } else {
                            assert(gs@[g0] == grp && roots@[g0] == r && gsrcs[g0] == srcs);
                        }
                    }
                    assert forall|g0: int, j2: int|
                        0 <= g0 < gs@.len() && 0 <= j2 < n && #[trigger] self.root_of_slot(j2)
                            == #[trigger] roots@[g0] as int implies gs@[g0]@.contains(
                        self.elems@[j2],
                    ) by {
                        if g0 < mi {
                            assert(gs@[g0] == gspre[g0] && roots@[g0] == rootspre[g0]);
                        } else {
                            assert(gs@[g0] == grp && roots@[g0] == r);
                        }
                    }
                    assert forall|g0: int, i1: int, i2: int|
                        0 <= g0 < gs@.len() && 0 <= i1 < gs@[g0]@.len() && 0 <= i2 < gs@[g0]@.len()
                            && i1 != i2 implies #[trigger] gs@[g0]@[i1]
                        != #[trigger] gs@[g0]@[i2] by {
                        if g0 < mi {
                            assert(gs@[g0] == gspre[g0]);
                        } else {
                            assert(gs@[g0] == grp);
                        }
                    }
                    assert forall|g0: int| 0 <= g0 < gs@.len() implies gs@[g0]@.len() > 0 by {
                        if g0 < mi {
                            assert(gs@[g0] == gspre[g0]);
                        } else {
                            assert(gs@[g0] == grp);
                        }
                    }
                }
            } else {
                proof {
                    assert(roots@[found as int] as int == self.root_of_slot(k as int));
                    assert(exists|g0: int|
                        0 <= g0 < roots@.len() && roots@[g0] as int == self.root_of_slot(k as int));
                }
            }
            k += 1;
        }
        proof {
            assert forall|g: int, i: int|
                0 <= g < gs@.len() && 0 <= i < gs@[g]@.len() implies self.contains(
                #[trigger] gs@[g]@[i],
            ) by {
                self.lemma_slot_of_index(gsrcs[g][i]);
            }
            assert forall|e: u64| #[trigger] self.contains(e) implies exists|g: int, i: int|
                0 <= g < gs@.len() && 0 <= i < gs@[g]@.len() && gs@[g]@[i] == e by {
                let s = choose|s: int| 0 <= s < self.elems@.len() && self.elems@[s] == e;
                let g = choose|g: int|
                    0 <= g < roots@.len() && roots@[g] as int == self.root_of_slot(s);
                assert(gs@[g]@.contains(self.elems@[s]));
                let i = choose|i: int| 0 <= i < gs@[g]@.len() && gs@[g]@[i] == e;
                assert(0 <= g < gs@.len() && 0 <= i < gs@[g]@.len() && gs@[g]@[i] == e);
            }
            assert forall|g: int, i1: int, i2: int|
                0 <= g < gs@.len() && 0 <= i1 < gs@[g]@.len() && 0 <= i2
                    < gs@[g]@.len() implies self.rep_of(#[trigger] gs@[g]@[i1]) == self.rep_of(
                #[trigger] gs@[g]@[i2],
            ) by {
                self.lemma_slot_of_index(gsrcs[g][i1]);
                self.lemma_slot_of_index(gsrcs[g][i2]);
            }
            assert forall|g1: int, i1: int, g2: int, i2: int|
                0 <= g1 < gs@.len() && 0 <= i1 < gs@[g1]@.len() && 0 <= g2 < gs@.len() && 0 <= i2
                    < gs@[g2]@.len() && g1 != g2 implies self.rep_of(#[trigger] gs@[g1]@[i1])
                != self.rep_of(#[trigger] gs@[g2]@[i2]) by {
                self.lemma_slot_of_index(gsrcs[g1][i1]);
                self.lemma_slot_of_index(gsrcs[g2][i2]);
                assert(roots@[g1] != roots@[g2]);
            }
            assert forall|rt: int| #[trigger] self.classes().contains(rt) implies exists|
                g: int,
                i: int,
            |
                0 <= g < gs@.len() && 0 <= i < gs@[g]@.len() && self.rep_of(
                    #[trigger] gs@[g]@[i],
                ) == rt by {
                let x = choose|x: u64| #[trigger] self.contains(x) && self.rep_of(x) == rt;
                let (g, i) = choose|g: int, i: int|
                    0 <= g < gs@.len() && 0 <= i < gs@[g]@.len() && gs@[g]@[i] == x;
                assert(self.rep_of(gs@[g]@[i]) == rt);
            }
            assert forall|rt: int|
                (exists|g: int, i: int|
                    0 <= g < gs@.len() && 0 <= i < gs@[g]@.len() && self.rep_of(
                        #[trigger] gs@[g]@[i],
                    ) == rt) implies self.classes().contains(rt) by {
                let (g, i) = choose|g: int, i: int|
                    0 <= g < gs@.len() && 0 <= i < gs@[g]@.len() && self.rep_of(gs@[g]@[i]) == rt;
                assert(self.contains(gs@[g]@[i]) && self.rep_of(gs@[g]@[i]) == rt);
            }
        }
        gs
    }

    /// Same scope discipline as [`scoped`]: hands `f` a brand-new, empty
    /// store whose representative handles are branded with a lifetime unique
    /// to this one call, and returns whatever `f` returns.
    pub fn new<R, F: for<'a> FnOnce(DisjointSets<'a>) -> R>(f: F) -> (r: R)
        requires
            forall|s: DisjointSets<'static>| s.is_empty_store() ==> call_requires(f, (s,)),
        ensures
            exists|s: DisjointSets<'static>| s.is_empty_store() && call_ensures(f, (s,), r),
    {
        scoped(f)
    }
}

/// Runs `scope` on a brand-new, empty store whose brand lifetime is chosen
/// fresh for this one call, and returns whatever `scope` returns.  Handles
/// obtained inside cannot outlive the call or migrate to another store.
pub fn scoped<R, F: for<'a> FnOnce(DisjointSets<'a>) -> R>(scope: F) -> (r: R)
    requires
        forall|s: DisjointSets<'static>| s.is_empty_store() ==> call_requires(scope, (s,)),
    ensures
        exists|s: DisjointSets<'static>| s.is_empty_store() && call_ensures(scope, (s,), r),
{
    let ds = DisjointSets {
        parents: Vec::new(),
        elems: Vec::new(),
        fuel: Ghost(0),
        _marker: PhantomData,
    };
    assert(ds.is_empty_store());
    scope(ds)
}

impl<'id> UnionFind<u64> for DisjointSets<'id> {
    type Rep = RootRep<'id>;

    open spec fn inv(&self) -> bool {
        DisjointSets::inv(*self)
    }

    open spec fn contains(&self, e: u64) -> bool {
        DisjointSets::contains(*self, e)
    }

    open spec fn class_of(&self, e: u64) -> int {
        DisjointSets::rep_of(*self, e)
    }

    open spec fn rep_id(r: RootRep<'id>) -> int {
        r.id()
    }

    open spec fn rep_valid(&self, r: RootRep<'id>) -> bool {
        DisjointSets::rep_valid(*self, r)
    }

    open spec fn rep_root(&self, r: RootRep<'id>) -> bool {
        DisjointSets::rep_root(*self, r)
    }

    fn find(&self, elem: &u64) -> (r: Option<RootRep<'id>>) {
        DisjointSets::find(self, elem)
    }

    fn union(&mut self, rep1: RootRep<'id>, rep2: RootRep<'id>) -> (r: RootRep<'id>) {
        DisjointSets::union(self, rep1, rep2)
    }

    fn insert(&mut self, elem: u64) -> (rep: RootRep<'id>) {
        DisjointSets::insert(self, elem)
    }
}

/// Inserting an element a second time hands back a handle on the same root
/// as the first insertion and leaves the store — its element count
/// included — exactly as it was.
pub proof fn lemma_insert_idempotent<'id>(
    pre: DisjointSets<'id>,
    mid: DisjointSets<'id>,
    post: DisjointSets<'id>,
    e: u64,
    r1: RootRep<'id>,
    r2: RootRep<'id>,
)
    requires
        pre.insert_post(mid, e, r1),
        mid.insert_post(post, e, r2),
    ensures
        r2.id() == r1.id(),
        post == mid,
        post.elem_count() == mid.elem_count(),
{
    assert(mid.contains(e));
}

/// An element never inserted stays absent when a different element is
/// inserted; with `find`'s contract this keeps `find` returning `None` for
/// it.
pub proof fn lemma_insert_preserves_absent<'id>(
    pre: DisjointSets<'id>,
    post: DisjointSets<'id>,
    x: u64,
    r: RootRep<'id>,
    e: u64,
)
    requires
        pre.insert_post(post, x, r),
        x != e,
        !pre.contains(e),
    ensures
        !post.contains(e),
{
    if pre.contains(x) {
        assert(post == pre);
    }
}

/// Union is transitive on classes: after merging `a`'s class with `b`'s and
/// then `b`'s with `c`'s, `a` and `c` resolve to the same root.
pub proof fn lemma_union_transitive<'id>(
    s0: DisjointSets<'id>,
    s1: DisjointSets<'id>,
    s2: DisjointSets<'id>,
    a: u64,
    b: u64,
    c: u64,
)
    requires
        s0.contains(a),
        s0.contains(b),
        s0.contains(c),
        s0.union_post(s1, s0.rep_of(a), s0.rep_of(b)),
        s1.union_post(s2, s1.rep_of(b), s1.rep_of(c)),
    ensures
        s2.rep_of(a) == s2.rep_of(c),
{
    assert(s1.rep_of(a) == s0.rep_of(a));
    assert(s1.rep_of(b) == s0.rep_of(a));
}

/// Unioning two handles that already resolve to the same root changes no
/// class, so the set of roots — and with it the number of groups — stays
/// the same.
pub proof fn lemma_union_same_root_preserves_classes<'id>(
    pre: DisjointSets<'id>,
    post: DisjointSets<'id>,
    rt: int,
)
    requires
        pre.union_post(post, rt, rt),
    ensures
        post.classes() == pre.classes(),
{
    assert forall|r0: int| #[trigger] post.classes().contains(r0) implies pre.classes().contains(
        r0,
    ) by {
        let x = choose|x: u64| #[trigger] post.contains(x) && post.rep_of(x) == r0;
        assert(pre.contains(x) && pre.rep_of(x) == r0);
    }
    assert forall|r0: int| #[trigger] pre.classes().contains(r0) implies post.classes().contains(
        r0,
    ) by {
        let x = choose|x: u64| #[trigger] pre.contains(x) && pre.rep_of(x) == r0;
        assert(post.contains(x) && post.rep_of(x) == r0);
    }
    assert(post.classes() =~= pre.classes());
}

} // verus!
