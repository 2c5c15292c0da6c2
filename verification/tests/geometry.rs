use rect_anneal::Rect;

#[test]
fn contains_is_half_open() {
    let r = Rect { row0: 2, col0: 3, row1: 5, col1: 7 };
    assert!(r.contains(2, 3));
    assert!(r.contains(4, 6));
    assert!(!r.contains(5, 3));
    assert!(!r.contains(4, 7));
    assert!(!r.contains(1, 3));
    assert!(!r.contains(2, 2));
}

#[test]
fn area_width_height() {
    let r = Rect { row0: 10, col0: 20, row1: 13, col1: 27 };
    assert_eq!(r.height(), 3);
    assert_eq!(r.width(), 7);
    assert_eq!(r.area(), 21);
    let unit = Rect { row0: 0, col0: 0, row1: 1, col1: 1 };
    assert_eq!(unit.area(), 1);
}

#[test]
fn intersects_on_overlap() {
    let a = Rect { row0: 0, col0: 0, row1: 5, col1: 5 };
    let b = Rect { row0: 4, col0: 4, row1: 6, col1: 6 };
    assert!(a.intersects(&b));
    assert!(b.intersects(&a));
}

#[test]
fn intersects_is_symmetric() {
    let rects = [
        Rect { row0: 0, col0: 0, row1: 5, col1: 5 },
        Rect { row0: 4, col0: 4, row1: 6, col1: 6 },
        Rect { row0: 5, col0: 0, row1: 10, col1: 5 },
        Rect { row0: 2, col0: 9, row1: 3, col1: 11 },
        Rect { row0: 0, col0: 4, row1: 9, col1: 8 },
    ];
    for x in rects.iter() {
        for y in rects.iter() {
            assert_eq!(x.intersects(y), y.intersects(x));
        }
    }
}

#[test]
fn edge_touch_does_not_intersect() {
    let a = Rect { row0: 0, col0: 0, row1: 5, col1: 5 };
    let right = Rect { row0: 0, col0: 5, row1: 5, col1: 9 };
    let below = Rect { row0: 5, col0: 0, row1: 8, col1: 5 };
    let corner = Rect { row0: 5, col0: 5, row1: 7, col1: 7 };
    assert!(!a.intersects(&right));
    assert!(!right.intersects(&a));
    assert!(!a.intersects(&below));
    assert!(!below.intersects(&a));
    assert!(!a.intersects(&corner));
    assert!(!corner.intersects(&a));
}

#[test]
fn disjoint_rectangles_do_not_intersect() {
    let a = Rect { row0: 0, col0: 0, row1: 5, col1: 5 };
    let b = Rect { row0: 100, col0: 100, row1: 105, col1: 105 };
    assert!(!a.intersects(&b));
    assert!(!b.intersects(&a));
}
