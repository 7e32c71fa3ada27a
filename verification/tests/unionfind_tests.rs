use eqsat::{Id, UnionFind, Value};

#[test]
fn make_set_hands_out_dense_ids() {
    let mut uf = UnionFind::new();
    assert_eq!(uf.len(), 0);
    assert_eq!(uf.make_set(), Id(0));
    assert_eq!(uf.make_set(), Id(1));
    assert_eq!(uf.make_set(), Id(2));
    assert_eq!(uf.len(), 3);
    assert_eq!(uf.n_unions(), 0);
    assert_eq!(uf.find(Id(2)), Id(2));
}

#[test]
fn union_keeps_the_smaller_representative() {
    let mut uf = UnionFind::new();
    for _ in 0..5 {
        uf.make_set();
    }
    assert_eq!(uf.union(Id(3), Id(1)), Id(1));
    assert_eq!(uf.n_unions(), 1);
    assert_eq!(uf.find(Id(3)), Id(1));
    assert_eq!(uf.union(Id(4), Id(3)), Id(1));
    assert_eq!(uf.find(Id(4)), Id(1));
    assert_eq!(uf.find_mut(Id(4)), Id(1));
    assert_eq!(uf.union(Id(1), Id(4)), Id(1));
    assert_eq!(uf.n_unions(), 2);
    assert_eq!(uf.union(Id(0), Id(4)), Id(0));
    assert_eq!(uf.find(Id(3)), Id(0));
    assert_eq!(uf.find(Id(2)), Id(2));
    assert_eq!(uf.n_unions(), 3);
}

#[test]
fn every_id_stays_findable() {
    let mut uf = UnionFind::new();
    for _ in 0..64 {
        uf.make_set();
    }
    for i in 1..64 {
        uf.union(Id(i), Id(i - 1));
    }
    for i in 0..64 {
        assert_eq!(uf.find(Id(i)), Id(0));
    }
    assert_eq!(uf.n_unions(), 63);
    assert_eq!(uf.len(), 64);
}

#[test]
fn union_values_merges_classes_only() {
    let mut uf = UnionFind::new();
    uf.make_set();
    uf.make_set();
    assert_eq!(
        uf.union_values(Value::Id(Id(1)), Value::Id(Id(0))),
        Some(Value::Id(Id(0)))
    );
    assert_eq!(uf.union_values(Value::Int(1), Value::Int(1)), None);
    assert_eq!(uf.union_values(Value::Id(Id(0)), Value::Unit), None);
    assert_eq!(uf.union_values(Value::Id(Id(0)), Value::Id(Id(7))), None);
    assert_eq!(uf.n_unions(), 1);
}

#[test]
fn find_value_leaves_other_values_alone() {
    let mut uf = UnionFind::new();
    uf.make_set();
    uf.make_set();
    uf.union(Id(0), Id(1));
    assert_eq!(uf.find_value(Value::Id(Id(1))), Value::Id(Id(0)));
    assert_eq!(uf.find_value(Value::Int(1)), Value::Int(1));
    assert_eq!(uf.find_value(Value::Unit), Value::Unit);
    assert_eq!(uf.find_value(Value::Id(Id(9))), Value::Id(Id(9)));
    assert_eq!(uf.find_mut_value(Value::Id(Id(1))), Value::Id(Id(0)));
}
