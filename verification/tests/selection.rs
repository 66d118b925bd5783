use rem::selection::Selection;

#[test]
fn new_and_point() {
    let s = Selection::new(3, 7);
    assert_eq!(s.anchor, 3);
    assert_eq!(s.head, 7);
    let p = Selection::point(4);
    assert_eq!(p, Selection::new(4, 4));
}

#[test]
fn range_is_ordered() {
    assert_eq!(Selection::new(3, 7).range(), (3, 7));
    assert_eq!(Selection::new(7, 3).range(), (3, 7));
    assert_eq!(Selection::point(5).range(), (5, 5));
}

#[test]
fn min_and_max() {
    let s = Selection::new(9, 2);
    assert_eq!(s.min(), 2);
    assert_eq!(s.max(), 9);
    let t = Selection::new(2, 9);
    assert_eq!(t.min(), 2);
    assert_eq!(t.max(), 9);
}

#[test]
fn collapse_moves_anchor_to_head() {
    let mut s = Selection::new(9, 2);
    s.collapse();
    assert_eq!(s, Selection::point(2));
}
