use compiler_lib::bound_pairs_set::{BoundPairsSet, SourceLoc, VarSpec};

fn loc(i: u64) -> SourceLoc {
    SourceLoc(i)
}

fn set(pairs: &[(u64, u64)]) -> BoundPairsSet {
    let mut s = BoundPairsSet::new();
    for &(a, b) in pairs {
        s.push((loc(a), loc(b)));
    }
    s
}

#[test]
fn empty_set_holds_nothing() {
    let s = BoundPairsSet::new();
    assert!(!s.get(loc(1), loc(2)));
    let d = BoundPairsSet::default();
    assert!(!d.get(loc(0), loc(0)));
}

#[test]
fn push_then_get() {
    let s = set(&[(1, 2)]);
    assert!(s.get(loc(1), loc(2)));
    assert!(!s.get(loc(2), loc(1)));
}

#[test]
fn push_replaces_pair_with_same_left() {
    let s = set(&[(1, 2), (1, 3), (4, 2)]);
    assert!(!s.get(loc(1), loc(2)));
    assert!(s.get(loc(1), loc(3)));
    assert!(s.get(loc(4), loc(2)));
}

#[test]
fn flip_swaps_pairs_and_twice_restores() {
    let s = set(&[(1, 2)]);
    let f = s.flip();
    assert!(f.get(loc(2), loc(1)));
    assert!(!f.get(loc(1), loc(2)));
    let ff = f.flip();
    assert!(ff.get(loc(1), loc(2)));
}

#[test]
fn changing_one_view_leaves_the_other() {
    let mut s = set(&[(1, 2)]);
    let f = s.flip();
    s.push((loc(3), loc(4)));
    assert!(s.get(loc(3), loc(4)));
    assert!(!f.get(loc(4), loc(3)));
    assert!(f.get(loc(2), loc(1)));
}

#[test]
fn push_into_flipped_view() {
    let mut f = BoundPairsSet::new().flip();
    f.push((loc(5), loc(6)));
    assert!(f.get(loc(5), loc(6)));
    assert!(f.flip().get(loc(6), loc(5)));
    f.push((loc(7), loc(6)));
    assert!(!f.get(loc(5), loc(6)));
    assert!(f.get(loc(7), loc(6)));
}

#[test]
fn filters() {
    let mut s = set(&[(1, 2), (3, 4)]);
    s.filter_left(|l| l.0 != 1);
    assert!(!s.get(loc(1), loc(2)));
    assert!(s.get(loc(3), loc(4)));
    let mut s = set(&[(1, 2), (3, 4)]);
    s.filter_right(|r| r.0 != 4);
    assert!(s.get(loc(1), loc(2)));
    assert!(!s.get(loc(3), loc(4)));
    let mut f = set(&[(1, 2), (3, 4)]).flip();
    f.filter_left(|l| l.0 == 4);
    assert!(f.get(loc(4), loc(3)));
    assert!(!f.get(loc(2), loc(1)));
}

#[test]
fn clear_empties() {
    let mut s = set(&[(1, 2)]);
    s.clear();
    assert!(!s.get(loc(1), loc(2)));
}

#[test]
fn intersect_keeps_common_pairs_and_is_idempotent() {
    let mut a = set(&[(1, 2), (3, 4)]);
    let b = set(&[(1, 2), (5, 6)]);
    assert!(a.update_intersect(&b));
    assert!(a.get(loc(1), loc(2)));
    assert!(!a.get(loc(3), loc(4)));
    assert!(!a.update_intersect(&b));
    assert!(a.get(loc(1), loc(2)));
}

#[test]
fn intersect_with_flipped_view() {
    let mut a = set(&[(1, 2), (3, 4)]);
    let b = set(&[(2, 1)]).flip();
    assert!(a.update_intersect(&b));
    assert!(a.get(loc(1), loc(2)));
    assert!(!a.get(loc(3), loc(4)));
}

#[test]
fn intersect_with_same_view_or_equal_set_reports_no_change() {
    let mut a = set(&[(1, 2)]);
    let same = a.clone();
    assert!(!a.update_intersect(&same));
    let equal = set(&[(1, 2)]);
    assert!(!a.update_intersect(&equal));
    assert!(a.get(loc(1), loc(2)));
}

#[test]
fn intersect_with_empty_clears() {
    let mut a = set(&[(1, 2)]);
    assert!(a.update_intersect(&BoundPairsSet::new()));
    assert!(!a.get(loc(1), loc(2)));
    let mut e = BoundPairsSet::new();
    assert!(!e.update_intersect(&BoundPairsSet::new()));
    let mut e = BoundPairsSet::new();
    assert!(e.update_intersect(&BoundPairsSet::new().flip()));
}

#[test]
fn matching_variables_across_pairs() {
    let s = set(&[(10, 20)]);
    let lhs = [VarSpec { loc: loc(10), name: 1 }];
    let rhs = [VarSpec { loc: loc(20), name: 1 }];
    assert!(s.disjoint_union_vars_have_match(&lhs, &rhs));
    let rhs_other_name = [VarSpec { loc: loc(20), name: 2 }];
    assert!(!s.disjoint_union_vars_have_match(&lhs, &rhs_other_name));
    let rhs_other_loc = [VarSpec { loc: loc(21), name: 1 }];
    assert!(!s.disjoint_union_vars_have_match(&lhs, &rhs_other_loc));
    let f = s.flip();
    assert!(f.disjoint_union_vars_have_match(&rhs, &lhs));
    assert!(!f.disjoint_union_vars_have_match(&lhs, &rhs));
    assert!(!BoundPairsSet::new().disjoint_union_vars_have_match(&lhs, &rhs));
}
