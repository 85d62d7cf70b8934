use utility_belt::math::union_find::UnionFind;
use utility_belt::misc::union_find::UnionFind as IndexedUnionFind;

#[test]
fn union_find_test() {
    let mut uf = UnionFind::default();

    let a = uf.make_set();
    let b = uf.make_set();
    let c = uf.make_set();
    let d = uf.make_set();
    let e = uf.make_set();
    let f = uf.make_set();

    let _ = uf.union(a, b);
    let _ = uf.union(b, c);
    let _ = uf.union(d, e);

    assert_eq!(uf.find(a), uf.find(c));
    assert_eq!(uf.find(a), uf.find(b));
    assert_eq!(uf.find(b), uf.find(c));

    assert_eq!(uf.find(d), uf.find(e));

    assert_ne!(uf.find(a), uf.find(d));
    assert_ne!(uf.find(a), uf.find(e));
    assert_ne!(uf.find(a), uf.find(f));
    assert_ne!(uf.find(b), uf.find(d));
    assert_ne!(uf.find(b), uf.find(e));
    assert_ne!(uf.find(b), uf.find(f));
    assert_ne!(uf.find(c), uf.find(d));
    assert_ne!(uf.find(c), uf.find(e));
    assert_ne!(uf.find(c), uf.find(f));
    assert_ne!(uf.find(d), uf.find(f));
    assert_ne!(uf.find(e), uf.find(f));

    assert_eq!(uf.size_of_set(a), Some(3));
    let _ = uf.union(a, d);
    assert_eq!(uf.size_of_set(e), Some(5));
}

#[test]
fn union_find_union_find_test() {
    let mut uf = IndexedUnionFind::default();

    let a = uf.add_set();
    let b = uf.add_set();
    let c = uf.add_set();

    let def = uf.extend(3);

    let d = def[0];
    let e = def[1];
    let f = def[2];

    let _ = uf.union(a, b);
    let _ = uf.union(b, c);
    let _ = uf.union(d, e);

    assert_eq!(uf.find(a), uf.find(c));
    assert_eq!(uf.find(a), uf.find(b));
    assert_eq!(uf.find(b), uf.find(c));

    assert_eq!(uf.find(d), uf.find(e));

    assert_ne!(uf.find(a), uf.find(d));
    assert_ne!(uf.find(a), uf.find(e));
    assert_ne!(uf.find(a), uf.find(f));
    assert_ne!(uf.find(b), uf.find(d));
    assert_ne!(uf.find(b), uf.find(e));
    assert_ne!(uf.find(b), uf.find(f));
    assert_ne!(uf.find(c), uf.find(d));
    assert_ne!(uf.find(c), uf.find(e));
    assert_ne!(uf.find(c), uf.find(f));
    assert_ne!(uf.find(d), uf.find(f));
    assert_ne!(uf.find(e), uf.find(f));

    assert_eq!(uf.size_of_set(a), Some(3));
    let _ = uf.union(a, d);
    assert_eq!(uf.size_of_set(e), Some(5));
}

#[test]
fn union_of_strangers_fails() {
    let mut uf = UnionFind::default();
    let a = uf.make_set();
    assert_eq!(
        uf.union(a, 5),
        Err("Cannot union elements that are not in the data structure.")
    );
    assert_eq!(
        uf.union(9, a),
        Err("Cannot union elements that are not in the data structure.")
    );
    assert_eq!(uf.union(a, a), Ok(()));
    assert_eq!(uf.find(5), None);
    assert_eq!(uf.size_of_set(5), None);
    assert_eq!(uf.size_of_set(a), Some(1));
    assert_eq!(uf.count(), 1);
}

#[test]
fn the_smaller_set_goes_into_the_larger() {
    let mut uf = UnionFind::new();
    let a = uf.make_set();
    let b = uf.make_set();
    let c = uf.make_set();
    assert_eq!(uf.union(a, b), Ok(()));
    // Of two sets of one, the first keeps its root.
    assert_eq!(uf.find(b), Some(a));
    assert_eq!(uf.union(c, b), Ok(()));
    assert_eq!(uf.find(c), Some(a));
    assert_eq!(uf.size_of_set(c), Some(3));
}

#[test]
fn roots_are_the_parents() {
    let mut uf = UnionFind::with_capacity(4);
    let a = uf.make_set();
    let b = uf.make_set();
    let c = uf.make_set();
    let d = uf.make_set();
    let _ = uf.union(a, b);
    let _ = uf.union(c, d);
    let roots = uf.roots();
    assert_eq!(roots.len(), 2);
    assert!(roots.contains(&a) && roots.contains(&c));
    // Joining the two trees leaves the root of the lower one a parent.
    let _ = uf.union(b, d);
    let roots = uf.roots();
    assert_eq!(roots.len(), 2);
    assert!(roots.contains(&a) && roots.contains(&c));
}

#[test]
fn indexed_roots_and_extend() {
    let mut uf = IndexedUnionFind::with_capacity(8);
    let all = uf.extend(5);
    assert_eq!(all.iter().map(|i| i.to_usize()).collect::<Vec<_>>(), vec![0, 1, 2, 3, 4]);
    assert_eq!(usize::from(all[3]), 3);
    assert_eq!(uf.roots(), all);
    uf.union(all[3], all[1]);
    uf.union(all[4], all[1]);
    assert_eq!(uf.roots(), vec![all[0], all[2], all[3]]);
    assert_eq!(uf.size_of_set(all[1]), Some(3));
    assert_eq!(uf.find(all[4]), Some(all[3]));
    assert!(uf.extend(0).is_empty());
}
