use quadtree_rs::area::{Area, AreaBuilder, AreaBuilderError};
use quadtree_rs::coord::{saturating_minus, saturating_plus, Coord};
use quadtree_rs::point::Point;
use quadtree_rs::traversal::Traversal;
use quadtree_rs::Quadtree;

fn ar<U: Coord>(anchor: (U, U), dims: (U, U)) -> Area<U> {
    Area::new(dims.0, dims.1).at(Point::from(anchor))
}

#[test]
fn builder_defaults_to_a_unit_area() {
    let a: Area<u32> = AreaBuilder::default().anchor((4, 5).into()).build().unwrap();
    assert_eq!(a.anchor(), (4, 5).into());
    assert_eq!(a.dimensions(), (1, 1));
}

#[test]
fn builder_refuses_nonpositive_width() {
    let r: Result<Area<i32>, AreaBuilderError> =
        AreaBuilder::default().anchor((0, 0).into()).dimensions((0, 3)).build();
    assert_eq!(
        r,
        Err(AreaBuilderError::ValidationError("Areas may not have nonpositive widths.".to_string()))
    );
}

#[test]
fn builder_refuses_nonpositive_height() {
    let r: Result<Area<i32>, AreaBuilderError> =
        AreaBuilder::default().anchor((0, 0).into()).dimensions((2, -3)).build();
    assert_eq!(
        r,
        Err(AreaBuilderError::ValidationError("Areas may not have nonpositive heights.".to_string()))
    );
}

#[test]
fn builder_validates_before_it_needs_the_anchor() {
    let r: Result<Area<i8>, AreaBuilderError> = AreaBuilder::default().dimensions((-1, 1)).build();
    assert_eq!(
        r,
        Err(AreaBuilderError::ValidationError("Areas may not have nonpositive widths.".to_string()))
    );
}

#[test]
fn builder_needs_an_anchor() {
    let r: Result<Area<u8>, AreaBuilderError> = AreaBuilder::default().dimensions((2, 2)).build();
    assert_eq!(r, Err(AreaBuilderError::UninitializedField("anchor")));
}

#[test]
fn validate_reports_the_first_problem() {
    let mut b: AreaBuilder<i16> = AreaBuilder::default();
    assert_eq!(b.validate(), Ok(()));
    b.dimensions((-2, -2));
    assert_eq!(b.validate(), Err("Areas may not have nonpositive widths.".to_string()));
    b.dimensions((2, -2));
    assert_eq!(b.validate(), Err("Areas may not have nonpositive heights.".to_string()));
    b.dimensions((2, 2));
    assert_eq!(b.validate(), Ok(()));
}

#[test]
fn new_and_unit_are_anchored_at_one_one() {
    let a: Area<u16> = Area::new(3, 4);
    assert_eq!(a.anchor(), (1, 1).into());
    assert_eq!(a.inner(), ((1, 1), (3, 4)));
    let u: Area<u16> = Area::unit();
    assert_eq!(u.inner(), ((1, 1), (1, 1)));
    let p: Area<u16> = Point::from((7, 8)).into();
    assert_eq!(p.inner(), ((7, 8), (1, 1)));
}

#[test]
fn center_is_rounded_down() {
    assert_eq!(ar::<i32>((0, 0), (2, 2)).center_pt(), (1, 1).into());
    assert_eq!(ar::<i32>((0, 0), (3, 3)).center_pt(), (1, 1).into());
    assert_eq!(ar::<i32>((-4, 10), (8, 5)).center_pt(), (0, 12).into());
}

#[test]
fn intersection_is_symmetric_and_containment_implies_it() {
    let a = ar::<i64>((0, 0), (4, 4));
    let b = ar::<i64>((3, 3), (4, 4));
    let c = ar::<i64>((4, 0), (2, 2));
    assert!(a.intersects(b) && b.intersects(a));
    assert!(!a.intersects(c) && !c.intersects(a));
    let inner = ar::<i64>((1, 1), (2, 2));
    assert!(a.contains(inner) && a.intersects(inner) && inner.intersects(a));
    assert!(!inner.contains(a));
}

#[test]
fn containment_is_reflexive_and_transitive() {
    let a = ar::<u64>((0, 0), (10, 10));
    let b = ar::<u64>((2, 2), (5, 5));
    let c = ar::<u64>((3, 3), (1, 2));
    assert!(a.contains(a));
    assert!(a.contains(b) && b.contains(c) && a.contains(c));
}

#[test]
fn contains_pt_is_cell_membership() {
    let a = ar::<u8>((1, 1), (2, 3));
    for x in 0u8..5 {
        for y in 0u8..6 {
            let inside = 1 <= x && x < 3 && 1 <= y && y < 4;
            assert_eq!(a.contains_pt((x, y).into()), inside);
        }
    }
}

#[test]
fn saturating_arithmetic() {
    assert_eq!(saturating_plus(250u8, 10u8), 255);
    assert_eq!(saturating_plus(100i8, -50i8), 50);
    assert_eq!(saturating_plus(-100i8, -50i8), -128);
    assert_eq!(saturating_minus(3u16, 5u16), 0);
    assert_eq!(saturating_minus(-100i8, 50i8), -128);
    assert_eq!(saturating_minus(100i8, -50i8), 127);
    assert_eq!(saturating_minus(i64::MAX, 1i64), i64::MAX - 1);
}

#[test]
fn traversal_eval() {
    let query = ar::<i32>((0, 0), (4, 4));
    let partly = ar::<i32>((3, 3), (2, 2));
    let inside = ar::<i32>((1, 1), (2, 2));
    assert!(Traversal::Overlapping.eval(partly, query));
    assert!(!Traversal::Strict.eval(partly, query));
    assert!(Traversal::Overlapping.eval(inside, query));
    assert!(Traversal::Strict.eval(inside, query));
}

#[test]
fn handles_are_version_4_uuids() {
    let mut qt = Quadtree::<u32, u8>::new(3);
    for i in 0..20u8 {
        let h = qt.insert_pt((i as u32 % 8, i as u32 / 8).into(), i).unwrap();
        assert_eq!((h >> 76) & 0xf, 4);
        assert_eq!((h >> 62) & 0x3, 2);
    }
    assert_eq!(qt.len(), 20);
}

#[test]
fn width_depth_and_anchor() {
    let qt = Quadtree::<i16, ()>::new_with_anchor((-100, 50).into(), 7);
    assert_eq!(qt.depth(), 7);
    assert_eq!(qt.width(), 128);
    assert_eq!(qt.height(), 128);
    assert_eq!(qt.anchor(), (-100, 50).into());
}

#[test]
fn query_finds_what_insert_stored() {
    let mut qt = Quadtree::<i32, &str>::new_with_anchor((-8, -8).into(), 4);
    let h = qt.insert(ar((-3, 2), (5, 2)), "wide").unwrap();
    let mut q = qt.query(ar((1, 3), (1, 1)));
    let e = q.next().unwrap();
    assert_eq!(e.handle(), h);
    assert_eq!(e.value_ref(), &"wide");
    assert_eq!(e.width(), 5);
    assert_eq!(e.height(), 2);
    assert_eq!(e.anchor(), (-3, 2).into());
    assert!(q.next().is_none());
}

#[test]
fn a_region_outside_the_tree_is_refused() {
    let mut qt = Quadtree::<i32, u8>::new(2);
    assert!(qt.insert(ar((-1, 0), (1, 1)), 1).is_none());
    assert!(qt.insert(ar((3, 3), (2, 1)), 1).is_none());
    assert!(qt.insert_pt((4, 0).into(), 1).is_none());
    assert!(qt.is_empty());
    assert!(qt.insert_pt((3, 3).into(), 1).is_some());
    assert_eq!(qt.len(), 1);
}

#[test]
fn delete_by_handle_undoes_insert() {
    let mut qt = Quadtree::<u32, String>::new(4);
    let keep = qt.insert(ar((0, 0), (16, 16)), "all".to_string()).unwrap();
    let h = qt.insert(ar((5, 6), (3, 3)), "box".to_string()).unwrap();
    let e = qt.delete_by_handle(h).unwrap();
    assert_eq!(e.value_ref(), "box");
    assert_eq!(e.area(), ar((5, 6), (3, 3)));
    assert!(qt.delete_by_handle(h).is_none());
    assert_eq!(qt.len(), 1);
    let mut q = qt.query(ar((6, 6), (1, 1)));
    assert_eq!(q.next().unwrap().handle(), keep);
    assert!(q.next().is_none());
}

#[test]
fn strict_deletion_and_modification() {
    let mut qt = Quadtree::<u8, i32>::new(3);
    qt.insert(ar((0, 0), (2, 2)), 1).unwrap();
    qt.insert(ar((1, 1), (4, 4)), 2).unwrap();
    qt.modify_strict(ar((0, 0), (3, 3)), |v| *v *= 10);
    let mut q = qt.query(ar((1, 1), (1, 1)));
    let mut values = Vec::new();
    while let Some(e) = q.next() {
        values.push(*e.value_ref());
    }
    values.sort();
    assert_eq!(values, vec![2, 10]);
    let mut gone = qt.delete_strict(ar((0, 0), (3, 3)));
    assert_eq!(gone.len(), 1);
    assert_eq!(gone.next().unwrap().value_ref(), &10);
    assert!(gone.next().is_none());
    assert_eq!(qt.len(), 1);
    assert_eq!(qt.query_strict(ar((0, 0), (8, 8))).len(), 1);
    assert_eq!(qt.query_strict(ar((0, 0), (3, 3))).len(), 0);
}

#[test]
fn queries_see_regions_spread_over_many_nodes() {
    let mut qt = Quadtree::<u16, usize>::new(5);
    let mut n = 0;
    for x in 0..6u16 {
        for y in 0..6u16 {
            qt.insert(ar((x * 5, y * 5), (x + 1, y + 2)), n).unwrap();
            n += 1;
        }
    }
    assert_eq!(qt.len(), 36);
    for qx in 0..32u16 {
        for qy in 0..32u16 {
            let query = ar((qx, qy), (1, 1));
            let mut expected = 0;
            for x in 0..6u16 {
                for y in 0..6u16 {
                    if query.intersects(ar((x * 5, y * 5), (x + 1, y + 2))) {
                        expected += 1;
                    }
                }
            }
            assert_eq!(qt.query(query).len(), expected);
        }
    }
}

#[test]
fn readme_quick_start() {
    // A depth of four means a square with width (and height) 2^4.
    let mut qt = Quadtree::<u64, String>::new(4);
    assert_eq!(qt.width(), 16);

    // Associate the value "foo" with a rectangle of size 2x1, anchored at (0, 0).
    let region_a = AreaBuilder::default()
        .anchor(Point { x: 0, y: 0 })
        .dimensions((2, 1))
        .build()
        .unwrap();
    qt.insert(region_a, "foo".to_string());

    // Query over a region of size 2x2, anchored at (1, 0).
    let region_b = AreaBuilder::default()
        .anchor(Point { x: 1, y: 0 })
        .dimensions((2, 2))
        .build()
        .unwrap();
    let mut query = qt.query(region_b);
    assert_eq!(query.next().unwrap().value_ref(), "foo");
}

#[test]
fn implementation_walkthrough() {
    let mut qt = Quadtree::<u8, char>::new(2);
    qt.insert_pt(Point { x: 0, y: 0 }, 'a');
    let region_b = AreaBuilder::default().anchor(Point { x: 0, y: 0 }).dimensions((2, 2)).build().unwrap();
    qt.insert(region_b, 'b');
    let region_c = AreaBuilder::default().anchor(Point { x: 0, y: 0 }).dimensions((3, 3)).build().unwrap();
    qt.insert(region_c, 'c');
    assert_eq!(qt.len(), 3);
    // (0, 0) is in all three; (2, 2) only in 'c'; (3, 3) in none.
    assert_eq!(qt.query(ar((0, 0), (1, 1))).len(), 3);
    let mut q = qt.query(ar((2, 2), (1, 1)));
    assert_eq!(q.next().unwrap().value_ref(), &'c');
    assert!(q.next().is_none());
    assert_eq!(qt.query(ar((3, 3), (1, 1))).len(), 0);
    assert_eq!(qt.query(ar((1, 0), (1, 2))).len(), 2);
}

#[test]
fn entry_doc_example() {
    let mut qt = Quadtree::<u32, f64>::new(4);
    assert!(qt
        .insert(AreaBuilder::default().anchor(Point { x: 1, y: 1 }).dimensions((3, 2)).build().unwrap(), 4.56)
        .is_some());
    let mut returned_entries =
        qt.delete(AreaBuilder::default().anchor(Point { x: 2, y: 1 }).build().unwrap());
    let entry = returned_entries.next().unwrap();
    assert_eq!(entry.anchor().x(), 1);
    assert_eq!(entry.anchor().y(), 1);
    assert_eq!(entry.width(), 3);
    assert_eq!(entry.height(), 2);
    assert_eq!(entry.value_ref(), &4.56);
    assert!(qt.is_empty());
}

#[test]
fn area_into_tuples_doc_example() {
    let area: Area<i32> = AreaBuilder::default().anchor(Point { x: 1, y: 2 }).dimensions((3, 4)).build().unwrap();
    let (anchor, dims): ((i32, i32), (i32, i32)) = area.into();
    assert_eq!(anchor, (1, 2));
    assert_eq!(dims, (3, 4));
}

#[test]
fn modify_keeps_regions_and_count() {
    let mut qt = Quadtree::<i8, u32>::new_with_anchor((-8, -8).into(), 4);
    let h1 = qt.insert(ar((-8, -8), (4, 4)), 1).unwrap();
    let h2 = qt.insert(ar((2, 2), (2, 2)), 2).unwrap();
    qt.modify(ar((-6, -6), (1, 1)), |v| *v += 100);
    assert_eq!(qt.len(), 2);
    let e1 = qt.delete_by_handle(h1).unwrap();
    assert_eq!(e1.value_ref(), &101);
    assert_eq!(e1.area(), ar((-8, -8), (4, 4)));
    let e2 = qt.delete_by_handle(h2).unwrap();
    assert_eq!(e2.value_ref(), &2);
}


#[test]
fn entry_value_mut_changes_only_the_value() {
    let mut qt = Quadtree::<u32, Vec<u8>>::new(3);
    let h = qt.insert(ar((1, 2), (3, 1)), vec![1]).unwrap();
    let mut e = qt.delete_by_handle(h).unwrap();
    e.value_mut().push(2);
    assert_eq!(e.value_ref(), &vec![1, 2]);
    assert_eq!(e.handle(), h);
    assert_eq!(e.area(), ar((1, 2), (3, 1)));
    assert_eq!(e.dimensions(), (3, 1));
}
