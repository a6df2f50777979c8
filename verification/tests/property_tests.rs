use disjoint_sets::DisjointSets;
use disjoint_sets::UnionFind;

/// Inserting the same element twice yields handles that compare equal, and
/// the partition produced afterwards is unchanged by the second call.
#[test]
fn insert_is_idempotent() {
    let (equal, groups) = DisjointSets::new(|mut uf| {
        let r1 = uf.insert(7);
        let r2 = uf.insert(7);
        (r1 == r2, uf.groups())
    });
    assert!(equal);
    assert_eq!(groups, vec![vec![7]]);
}

/// `find` on an element that was never inserted returns `None`; on an
/// inserted one it returns the handle `insert` produced.
#[test]
fn find_absent_returns_none() {
    DisjointSets::new(|mut uf| {
        assert!(uf.find(&1).is_none());
        let rep = uf.insert(1);
        uf.insert(2);
        assert!(uf.find(&3).is_none());
        assert_eq!(uf.find(&1), Some(rep));
    });
}

/// Unioning a with b, then b with c, leaves a and c in one class.
#[test]
fn union_is_transitive() {
    DisjointSets::new(|mut uf| {
        uf.insert(10);
        uf.insert(20);
        uf.insert(30);
        let (ra, rb) = (uf.find(&10).unwrap(), uf.find(&20).unwrap());
        uf.union(ra, rb);
        let (rb2, rc) = (uf.find(&20).unwrap(), uf.find(&30).unwrap());
        uf.union(rb2, rc);
        assert_eq!(uf.find(&10), uf.find(&30));
    });
}

/// Unioning two handles that already resolve to the same root leaves the
/// number of groups unchanged.
#[test]
fn union_same_class_keeps_group_count() {
    let groups = DisjointSets::new(|mut uf| {
        let r = uf.insert2_union(1, 2);
        uf.insert(3);
        let r1 = uf.find(&1).unwrap();
        let r2 = uf.find(&2).unwrap();
        assert_eq!(r1, r2);
        assert_eq!(r1, r);
        uf.union(r1, r2);
        uf.groups()
    });
    assert_eq!(groups.len(), 2);
}

/// `groups()` partitions exactly the inserted elements: each appears in
/// exactly one group, and no two groups share an element.
#[test]
fn groups_partition_inserted_elements() {
    let groups = DisjointSets::new(|mut uf| {
        let r = uf.insert2_union(1, 2);
        uf.insert_union(r, 3);
        uf.insert2_union(4, 5);
        uf.insert(6);
        uf.groups()
    });
    let inserted = [1u64, 2, 3, 4, 5, 6];
    for e in inserted {
        let occurrences: usize = groups
            .iter()
            .map(|g| g.iter().filter(|&&x| x == e).count())
            .sum();
        assert_eq!(occurrences, 1);
    }
    let total: usize = groups.iter().map(|g| g.len()).sum();
    assert_eq!(total, inserted.len());
    for (i, g1) in groups.iter().enumerate() {
        for g2 in groups.iter().skip(i + 1) {
            assert!(g1.iter().all(|e| !g2.contains(e)));
        }
    }
}

/// A store nothing was inserted into yields no groups.
#[test]
fn empty_store_has_no_groups() {
    let groups = DisjointSets::new(|uf| uf.groups());
    assert!(groups.is_empty());
}

/// `insert_union` keeps the given handle as the combined root, and
/// `insert2_union` returns the first element's root.
#[test]
fn insert_union_keeps_first_root() {
    DisjointSets::new(|mut uf| {
        let r = uf.insert(100);
        let r2 = uf.insert_union(r, 200);
        assert_eq!(r, r2);
        assert_eq!(uf.find(&200), Some(r));
        let r3 = uf.insert2_union(300, 400);
        assert_eq!(uf.find(&300), Some(r3));
        assert_eq!(uf.find(&400), Some(r3));
        assert_ne!(uf.find(&400), Some(r));
    });
}

/// The store also works through the `UnionFind` trait, whose default
/// compositions match the inherent ones.
#[test]
fn trait_interface_matches() {
    fn run<U: UnionFind<u64>>(mut uf: U) -> bool
    where
        U::Rep: Copy,
    {
        let r = UnionFind::insert(&mut uf, 1);
        UnionFind::insert_union(&mut uf, r, 2);
        let ra = UnionFind::find(&uf, &1).unwrap();
        let rb = UnionFind::find(&uf, &2).unwrap();
        ra == rb
    }
    assert!(DisjointSets::new(|uf| run(uf)));
}
