use quadtree_rs::area::Area;
use quadtree_rs::coord::Coord;
use quadtree_rs::point::Point;

/// The area anchored at `anchor` with the given width and height.
fn ar<U: Coord>(anchor: (U, U), dims: (U, U)) -> Area<U> {
    Area::new(dims.0, dims.1).at(Point::from(anchor))
}

//   0  1  2  3  4
// 0 +--+--+--+--+
//   |  |  |  |  |
// 1 +--aaaaaaa--+
//   |  aaaaaaa  |
// 2 +--aaaaaaa--+
//   |  aaaaaaa  |
// 3 +--aaaaaaa--+
//   |  |  |  |  |
// 4 +--+--+--+--+
fn mk() -> Area<i8> {
    ar((3, 4), (5, 7))
}

fn test_area_a() -> Area<u8> {
    ar((1, 1), (2, 2))
}

//  -2 -1  0  1  2
//-2 +--+--+--+--+
//   |  |  |  |  |
//-1 +--aaaaaaa--+
//   |  aaaaaaa  |
// 0 +--aaaaaaa--+
//   |  aaaaaaa  |
// 1 +--aaaaaaa--+
//   |  |  |  |  |
// 2 +--+--+--+--+
fn test_area_b() -> Area<i8> {
    ar((-1, -1), (2, 2))
}

//   0  1  2  3  4  5  6
// 2 +--+--aaaaaaa--+--+
//   |  |  aaaaaaa  |  |
// 3 +--+--aaaaaaa--+--+
//   |  |  aaaaaaa  |  |
// 4 +--+--aaaaaaa--+--+
fn test_area_c() -> Area<u8> {
    ar((2, 2), (2, 2))
}

//  -3 -2 -1  0  1  2  3
//-1 +--+--aaaaaaa--+--+
//   |  |  aaaaaaa  |  |
// 0 +--+--aaaaaaa--+--+
//   |  |  aaaaaaa  |  |
// 1 +--+--aaaaaaa--+--+
fn test_area_d() -> Area<i8> {
    ar((-1, -1), (2, 2))
}

#[test]
fn i() {
    let _a: Area<i8> = ar((1, 1), (1, 1));
}

#[test]
fn ii() {
    let _a: Area<i8> = ar((-1, 1), (1, 1));
}

#[test]
fn iii() {
    let _a: Area<i8> = ar((-1, -1), (1, 1));
}

#[test]
fn iv() {
    let _a: Area<i8> = ar((1, -1), (1, 1));
}

#[test]
fn area_properties() {
    let a = mk();
    assert_eq!(a.anchor(), (3, 4).into());
    assert_eq!(a.dimensions(), (5, 7));
    assert_eq!(a.width(), 5);
    assert_eq!(a.height(), 7);

    assert_eq!(a.left_edge(), 3);
    assert_eq!(a.top_edge(), 4);
    assert_eq!(a.right_edge(), /*3+5*/ 8);
    assert_eq!(a.bottom_edge(), /*4+7*/ 11);

    assert_eq!(a.tl_pt(), (3, 4).into());
    assert_eq!(a.tr_pt(), (8, 4).into());
    assert_eq!(a.bl_pt(), (3, 11).into());
    assert_eq!(a.br_pt(), (8, 11).into());
}

#[test]
fn area_all_component_1x1s() {
    let a = test_area_a();

    assert!(a.contains(ar((1, 1), (1, 1))));
    assert!(a.contains(ar((1, 2), (1, 1))));
    assert!(a.contains(ar((2, 1), (1, 1))));
    assert!(a.contains(ar((2, 2), (1, 1))));
}

#[test]
fn area_contains_self() {
    // contains_a
    {
        let a = test_area_a();

        assert!(a.contains(ar((1, 1), (2, 2))));
    }
    // contains_b
    {
        let a = test_area_b();

        assert!(a.contains(ar((-1, -1), (2, 2))));
    }
}

#[test]
fn area_no_neighboring_1x1s() {
    // contains_a
    {
        let a = test_area_a();

        assert!(!a.contains(ar((0, 0), (1, 1))));
        assert!(!a.contains(ar((1, 0), (1, 1))));
        assert!(!a.contains(ar((2, 0), (1, 1))));
        assert!(!a.contains(ar((3, 0), (1, 1))));
        assert!(!a.contains(ar((4, 0), (1, 1))));
        assert!(!a.contains(ar((0, 3), (1, 1))));
        assert!(!a.contains(ar((1, 3), (1, 1))));
        assert!(!a.contains(ar((2, 3), (1, 1))));
        assert!(!a.contains(ar((3, 3), (1, 1))));
        assert!(!a.contains(ar((4, 3), (1, 1))));
        assert!(!a.contains(ar((0, 1), (1, 1))));
        assert!(!a.contains(ar((0, 2), (1, 1))));
        assert!(!a.contains(ar((0, 3), (1, 1))));
        assert!(!a.contains(ar((3, 1), (1, 1))));
        assert!(!a.contains(ar((3, 2), (1, 1))));
        assert!(!a.contains(ar((3, 3), (1, 1))));
    }
    // contains_b
    {
        let a = test_area_b();

        assert!(!a.contains(ar((-2, -2), (1, 1))));
        assert!(!a.contains(ar((-2, -1), (1, 1))));
        assert!(!a.contains(ar((-2, 0), (1, 1))));
        assert!(!a.contains(ar((-2, 1), (1, 1))));
        assert!(!a.contains(ar((-2, 2), (1, 1))));
        assert!(!a.contains(ar((-1, 2), (1, 1))));
        assert!(!a.contains(ar((0, 2), (1, 1))));
        assert!(!a.contains(ar((1, 2), (1, 1))));
        assert!(!a.contains(ar((2, 2), (1, 1))));
        assert!(!a.contains(ar((2, 1), (1, 1))));
        assert!(!a.contains(ar((2, 0), (1, 1))));
        assert!(!a.contains(ar((2, -1), (1, 1))));
        assert!(!a.contains(ar((2, -2), (1, 1))));
        assert!(!a.contains(ar((1, -2), (1, 1))));
        assert!(!a.contains(ar((0, -2), (1, 1))));
        assert!(!a.contains(ar((-1, -2), (1, 1))));
    }
}

#[test]
fn area_no_overlapping_2x2s() {
    // contains_a
    {
        let a = test_area_a();

        assert!(!a.contains(ar((0, 0), (2, 2))));
        assert!(!a.contains(ar((2, 2), (2, 2))));
    }
    // contains_b
    {
        let a = test_area_b();

        assert!(!a.contains(ar((0, 0), (2, 2))));
        assert!(!a.contains(ar((2, 2), (2, 2))));
        assert!(!a.contains(ar((-2, -2), (2, 2))));
    }
}

#[test]
fn area_no_overlapping_3x3s() {
    // contains_a
    {
        let a = test_area_a();

        assert!(!a.contains(ar((0, 0), (3, 3))));
        assert!(!a.contains(ar((1, 0), (3, 3))));
        assert!(!a.contains(ar((1, 1), (3, 3))));
        assert!(!a.contains(ar((1, 1), (3, 3))));
    }
    // contains_b
    {
        let a = test_area_b();

        assert!(!a.contains(ar((0, 0), (3, 3))));
        assert!(!a.contains(ar((1, 0), (3, 3))));
        assert!(!a.contains(ar((-1, -1), (3, 3))));
        assert!(!a.contains(ar((-1, 1), (3, 3))));
        assert!(!a.contains(ar((-2, 1), (3, 3))));
        assert!(!a.contains(ar((-2, -2), (3, 3))));
    }
}

#[test]
fn area_contains_pt() {
    // contains_a
    {
        let a = test_area_a();

        // DOES contain:
        assert!(a.contains_pt((1, 1).into()));
        assert!(a.contains_pt((1, 2).into()));
        assert!(a.contains_pt((2, 1).into()));
        assert!(a.contains_pt((2, 2).into()));

        // Does NOT contain:
        assert!(!a.contains_pt((0, 0).into()));
        assert!(!a.contains_pt((0, 1).into()));
        assert!(!a.contains_pt((0, 2).into()));
        assert!(!a.contains_pt((0, 3).into()));
        assert!(!a.contains_pt((1, 0).into()));
        assert!(!a.contains_pt((2, 0).into()));
        assert!(!a.contains_pt((3, 0).into()));
        assert!(!a.contains_pt((3, 0).into()));
        assert!(!a.contains_pt((3, 1).into()));
        assert!(!a.contains_pt((3, 2).into()));
        assert!(!a.contains_pt((3, 3).into()));
    }
    // contains_b
    {
        let a = test_area_b();

        // DOES contain:
        assert!(a.contains_pt((-1, -1).into()));
        assert!(a.contains_pt((-1, 0).into()));
        assert!(a.contains_pt((0, -1).into()));
        assert!(a.contains_pt((0, 0).into()));

        // Does NOT contain:
        assert!(!a.contains_pt((-2, -2).into()));
        assert!(!a.contains_pt((-2, -1).into()));
        assert!(!a.contains_pt((-2, 0).into()));
        assert!(!a.contains_pt((-2, 1).into()));
        assert!(!a.contains_pt((-2, 2).into()));
        assert!(!a.contains_pt((-1, 2).into()));
        assert!(!a.contains_pt((0, 2).into()));
        assert!(!a.contains_pt((1, 2).into()));
        assert!(!a.contains_pt((2, 2).into()));
        assert!(!a.contains_pt((2, 1).into()));
        assert!(!a.contains_pt((2, 0).into()));
        assert!(!a.contains_pt((2, -1).into()));
        assert!(!a.contains_pt((2, -2).into()));
        assert!(!a.contains_pt((1, -2).into()));
        assert!(!a.contains_pt((0, -2).into()));
        assert!(!a.contains_pt((-1, -2).into()));
    }
}

#[test]
fn area_contains_one() {
    let a = test_area_b();

    assert!(a.contains(ar((-1, -1), (1, 1))));
    assert!(a.contains(ar((0, -1), (1, 1))));
    assert!(a.contains(ar((0, 0), (1, 1))));
    assert!(a.contains(ar((-1, 0), (1, 1))));
}

#[test]
fn area_area_1x1() {
    // intersects_a
    {
        let a = test_area_c();

        assert!(a.intersects(ar((2, 2), (1, 1))));
        assert!(a.intersects(ar((2, 3), (1, 1))));
        assert!(a.intersects(ar((3, 2), (1, 1))));
        assert!(a.intersects(ar((3, 3), (1, 1))));
    }
    // intersects_b
    {
        let a = test_area_d();
        assert!(a.intersects(ar((-1, -1), (1, 1))));
        assert!(a.intersects(ar((-1, 0), (1, 1))));
        assert!(a.intersects(ar((0, 0), (1, 1))));
        assert!(a.intersects(ar((0, -1), (1, 1))));
    }
}

#[test]
fn area_area_2x2() {
    let a = test_area_c();

    assert!(a.intersects(ar((2, 2), (2, 2))));
}

#[test]
fn area_area_with_only_a_single_shared_edge() {
    // intersects_a
    {
        let a = test_area_c();

        assert!(!a.intersects(ar((1, 1), (1, 1))));
        assert!(!a.intersects(ar((1, 1), (2, 1))));
        assert!(!a.intersects(ar((1, 1), (4, 1))));
        assert!(!a.intersects(ar((2, 1), (1, 1))));
        assert!(!a.intersects(ar((3, 1), (2, 1))));
        assert!(!a.intersects(ar((4, 1), (2, 1))));
        assert!(!a.intersects(ar((1, 1), (1, 2))));
        assert!(!a.intersects(ar((1, 2), (1, 2))));
        assert!(!a.intersects(ar((1, 3), (1, 2))));
        assert!(!a.intersects(ar((1, 4), (1, 2))));
        assert!(!a.intersects(ar((2, 4), (1, 1))));
        assert!(!a.intersects(ar((3, 4), (1, 1))));
        assert!(!a.intersects(ar((4, 4), (1, 1))));
    }
    // intersects_b
    {
        let a = test_area_d();
        assert!(!a.intersects(ar((1, -1), (1, 1))));
        assert!(!a.intersects(ar((1, 1), (1, 1))));
        assert!(!a.intersects(ar((-1, 1), (1, 1))));
        assert!(!a.intersects(ar((-2, 0), (1, 1))));
        assert!(!a.intersects(ar((-2, -2), (1, 1))));
    }
}

#[test]
fn area_area_with_a_1x1_overlap() {
    // intersects_a
    {
        let a = test_area_c();

        assert!(a.intersects(ar((1, 1), (2, 2))));
        assert!(a.intersects(ar((0, 0), (3, 3))));
        assert!(a.intersects(ar((3, 3), (2, 2))));
        assert!(a.intersects(ar((1, 3), (2, 2))));
    }
    // intersects_b
    {
        let a = test_area_d();
        assert!(a.intersects(ar((-2, -2), (2, 2))));
        assert!(a.intersects(ar((0, -2), (2, 2))));
        assert!(a.intersects(ar((0, 0), (2, 2))));
        assert!(a.intersects(ar((-2, 0), (2, 2))));
    }
}

#[test]
fn area_regression_test() {
    let a: Area<u8> = ar((3, 3), (2, 2));
    let b: Area<u8> = ar((0, 0), (6, 6));

    assert!(b.intersects(a));
    assert!(a.intersects(b));
}

#[test]
fn area_area_self() {
    let a = test_area_d();
    assert!(a.intersects(ar((-1, -1), (2, 2))));
}

#[test]
fn area_tests_builder() {
    let a: Area<i8> = ar((0, 0), (2, 2));
    assert_eq!(a.width(), 2);
}

#[test]
fn point_in_all_quadrants() {
    for p in [(1, 1), (-1, 1), (1, -1), (-1, -1)] {
        let _a: Area<i8> = p.into();
    }
}

#[test]
fn area_tests_properties() {
    let a: Area<u8> = ar((3, 4), (5, 7));

    assert_eq!(a.anchor(), (3, 4).into());
    assert_eq!(a.width(), 5);
    assert_eq!(a.height(), 7);

    assert_eq!(a.left_edge(), 3);
    assert_eq!(a.top_edge(), 4);
    assert_eq!(a.right_edge(), /*3+5*/ 8);
    assert_eq!(a.bottom_edge(), /*4+7*/ 11);
}

#[test]
fn area_tests_all_component_1x1s() {
    let a = test_area_a();

    assert!(a.contains(ar((1, 1), (1, 1))));
    assert!(a.contains(ar((1, 2), (1, 1))));
    assert!(a.contains(ar((2, 1), (1, 1))));
    assert!(a.contains(ar((2, 2), (1, 1))));
}

#[test]
fn area_tests_contains_self() {
    // contains_a
    {
        let a = test_area_a();

        assert!(a.contains(ar((1, 1), (2, 2))));
    }
    // contains_b
    {
        let a = test_area_b();

        assert!(a.contains(ar((-1, -1), (2, 2))));
    }
}

#[test]
fn area_tests_no_neighboring_1x1s() {
    // contains_a
    {
        let a = test_area_a();

        assert!(!a.contains(ar((0, 0), (1, 1))));
        assert!(!a.contains(ar((1, 0), (1, 1))));
        assert!(!a.contains(ar((2, 0), (1, 1))));
        assert!(!a.contains(ar((3, 0), (1, 1))));
        assert!(!a.contains(ar((4, 0), (1, 1))));
        assert!(!a.contains(ar((0, 3), (1, 1))));
        assert!(!a.contains(ar((1, 3), (1, 1))));
        assert!(!a.contains(ar((2, 3), (1, 1))));
        assert!(!a.contains(ar((3, 3), (1, 1))));
        assert!(!a.contains(ar((4, 3), (1, 1))));
        assert!(!a.contains(ar((0, 1), (1, 1))));
        assert!(!a.contains(ar((0, 2), (1, 1))));
        assert!(!a.contains(ar((0, 3), (1, 1))));
        assert!(!a.contains(ar((3, 1), (1, 1))));
        assert!(!a.contains(ar((3, 2), (1, 1))));
        assert!(!a.contains(ar((3, 3), (1, 1))));
    }
    // contains_b
    {
        let a = test_area_b();

        assert!(!a.contains(ar((-2, -2), (1, 1))));
        assert!(!a.contains(ar((-2, -1), (1, 1))));
        assert!(!a.contains(ar((-2, 0), (1, 1))));
        assert!(!a.contains(ar((-2, 1), (1, 1))));
        assert!(!a.contains(ar((-2, 2), (1, 1))));
        assert!(!a.contains(ar((-1, 2), (1, 1))));
        assert!(!a.contains(ar((0, 2), (1, 1))));
        assert!(!a.contains(ar((1, 2), (1, 1))));
        assert!(!a.contains(ar((2, 2), (1, 1))));
        assert!(!a.contains(ar((2, 1), (1, 1))));
        assert!(!a.contains(ar((2, 0), (1, 1))));
        assert!(!a.contains(ar((2, -1), (1, 1))));
        assert!(!a.contains(ar((2, -2), (1, 1))));
        assert!(!a.contains(ar((1, -2), (1, 1))));
        assert!(!a.contains(ar((0, -2), (1, 1))));
        assert!(!a.contains(ar((-1, -2), (1, 1))));
    }
}

#[test]
fn area_tests_no_overlapping_2x2s() {
    // contains_a
    {
        let a = test_area_a();

        assert!(!a.contains(ar((0, 0), (2, 2))));
        assert!(!a.contains(ar((2, 2), (2, 2))));
    }
    // contains_b
    {
        let a = test_area_b();

        assert!(!a.contains(ar((0, 0), (2, 2))));
        assert!(!a.contains(ar((2, 2), (2, 2))));
        assert!(!a.contains(ar((-2, -2), (2, 2))));
    }
}

#[test]
fn area_tests_no_overlapping_3x3s() {
    // contains_a
    {
        let a = test_area_a();

        assert!(!a.contains(ar((0, 0), (3, 3))));
        assert!(!a.contains(ar((1, 0), (3, 3))));
        assert!(!a.contains(ar((1, 1), (3, 3))));
        assert!(!a.contains(ar((1, 1), (3, 3))));
    }
    // contains_b
    {
        let a = test_area_b();

        assert!(!a.contains(ar((0, 0), (3, 3))));
        assert!(!a.contains(ar((1, 0), (3, 3))));
        assert!(!a.contains(ar((-1, -1), (3, 3))));
        assert!(!a.contains(ar((-1, 1), (3, 3))));
        assert!(!a.contains(ar((-2, 1), (3, 3))));
        assert!(!a.contains(ar((-2, -2), (3, 3))));
    }
}

#[test]
fn area_tests_contains_pt() {
    // contains_a
    {
        let a = test_area_a();

        // DOES contain:
        assert!(a.contains_pt((1, 1).into()));
        assert!(a.contains_pt((1, 2).into()));
        assert!(a.contains_pt((2, 1).into()));
        assert!(a.contains_pt((2, 2).into()));

        // Does NOT contain:
        assert!(!a.contains_pt((0, 0).into()));
        assert!(!a.contains_pt((0, 1).into()));
        assert!(!a.contains_pt((0, 2).into()));
        assert!(!a.contains_pt((0, 3).into()));
        assert!(!a.contains_pt((1, 0).into()));
        assert!(!a.contains_pt((2, 0).into()));
        assert!(!a.contains_pt((3, 0).into()));
        assert!(!a.contains_pt((3, 0).into()));
        assert!(!a.contains_pt((3, 1).into()));
        assert!(!a.contains_pt((3, 2).into()));
        assert!(!a.contains_pt((3, 3).into()));
    }
    // contains_b
    {
        let a = test_area_b();

        // DOES contain:
        assert!(a.contains_pt((-1, -1).into()));
        assert!(a.contains_pt((-1, 0).into()));
        assert!(a.contains_pt((0, -1).into()));
        assert!(a.contains_pt((0, 0).into()));

        // Does NOT contain:
        assert!(!a.contains_pt((-2, -2).into()));
        assert!(!a.contains_pt((-2, -1).into()));
        assert!(!a.contains_pt((-2, 0).into()));
        assert!(!a.contains_pt((-2, 1).into()));
        assert!(!a.contains_pt((-2, 2).into()));
        assert!(!a.contains_pt((-1, 2).into()));
        assert!(!a.contains_pt((0, 2).into()));
        assert!(!a.contains_pt((1, 2).into()));
        assert!(!a.contains_pt((2, 2).into()));
        assert!(!a.contains_pt((2, 1).into()));
        assert!(!a.contains_pt((2, 0).into()));
        assert!(!a.contains_pt((2, -1).into()));
        assert!(!a.contains_pt((2, -2).into()));
        assert!(!a.contains_pt((1, -2).into()));
        assert!(!a.contains_pt((0, -2).into()));
        assert!(!a.contains_pt((-1, -2).into()));
    }
}

#[test]
fn area_tests_contains_one() {
    let a = test_area_b();

    assert!(a.contains(ar((-1, -1), (1, 1))));
    assert!(a.contains(ar((0, -1), (1, 1))));
    assert!(a.contains(ar((0, 0), (1, 1))));
    assert!(a.contains(ar((-1, 0), (1, 1))));
}

#[test]
fn area_tests_area_1x1() {
    // intersects_a
    {
        let a = test_area_c();

        assert!(a.intersects(ar((2, 2), (1, 1))));
        assert!(a.intersects(ar((2, 3), (1, 1))));
        assert!(a.intersects(ar((3, 2), (1, 1))));
        assert!(a.intersects(ar((3, 3), (1, 1))));
    }
    // intersects_b
    {
        let a = test_area_d();
        assert!(a.intersects(ar((-1, -1), (1, 1))));
        assert!(a.intersects(ar((-1, 0), (1, 1))));
        assert!(a.intersects(ar((0, 0), (1, 1))));
        assert!(a.intersects(ar((0, -1), (1, 1))));
    }
}

#[test]
fn area_tests_area_2x2() {
    let a = test_area_c();

    assert!(a.intersects(ar((2, 2), (2, 2))));
}

#[test]
fn area_tests_area_with_only_a_single_shared_edge() {
    // intersects_a
    {
        let a = test_area_c();

        assert!(!a.intersects(ar((1, 1), (1, 1))));
        assert!(!a.intersects(ar((1, 1), (2, 1))));
        assert!(!a.intersects(ar((1, 1), (4, 1))));
        assert!(!a.intersects(ar((2, 1), (1, 1))));
        assert!(!a.intersects(ar((3, 1), (2, 1))));
        assert!(!a.intersects(ar((4, 1), (2, 1))));
        assert!(!a.intersects(ar((1, 1), (1, 2))));
        assert!(!a.intersects(ar((1, 2), (1, 2))));
        assert!(!a.intersects(ar((1, 3), (1, 2))));
        assert!(!a.intersects(ar((1, 4), (1, 2))));
        assert!(!a.intersects(ar((2, 4), (1, 1))));
        assert!(!a.intersects(ar((3, 4), (1, 1))));
        assert!(!a.intersects(ar((4, 4), (1, 1))));
    }
    // intersects_b
    {
        let a = test_area_d();
        assert!(!a.intersects(ar((1, -1), (1, 1))));
        assert!(!a.intersects(ar((1, 1), (1, 1))));
        assert!(!a.intersects(ar((-1, 1), (1, 1))));
        assert!(!a.intersects(ar((-2, 0), (1, 1))));
        assert!(!a.intersects(ar((-2, -2), (1, 1))));
    }
}

#[test]
fn area_tests_area_with_a_1x1_overlap() {
    // intersects_a
    {
        let a = test_area_c();

        assert!(a.intersects(ar((1, 1), (2, 2))));
        assert!(a.intersects(ar((0, 0), (3, 3))));
        assert!(a.intersects(ar((3, 3), (2, 2))));
        assert!(a.intersects(ar((1, 3), (2, 2))));
    }
    // intersects_b
    {
        let a = test_area_d();
        assert!(a.intersects(ar((-2, -2), (2, 2))));
        assert!(a.intersects(ar((0, -2), (2, 2))));
        assert!(a.intersects(ar((0, 0), (2, 2))));
        assert!(a.intersects(ar((-2, 0), (2, 2))));
    }
}

#[test]
fn area_tests_regression_test() {
    let a: Area<u8> = ar((3, 3), (2, 2));
    let b: Area<u8> = ar((0, 0), (6, 6));

    assert!(b.intersects(a));
    assert!(a.intersects(b));
}

#[test]
fn area_tests_area_self() {
    let a = test_area_d();
    assert!(a.intersects(ar((-1, -1), (2, 2))));
}
