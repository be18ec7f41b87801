//! Tests of the hypercube region kernel on concrete values.

use ncube::dyadic::Dyadic;
use ncube::ncube::{Ncube, NcubeError};

/// `m / 2^e` as a scalar, for test inputs already known to be in range.
fn d(m: i64, e: u32) -> Dyadic {
    Dyadic::new(m, e).unwrap()
}

fn whole(m: i64) -> Dyadic {
    Dyadic::from_int(m)
}

/// The two-dimensional region centered at the origin with width 2.
fn unit2() -> Ncube {
    Ncube::new(vec![whole(0), whole(0)], whole(2)).unwrap()
}

fn assert_coords(c: &Ncube, expected: &[Dyadic]) {
    let got = c.center();
    assert_eq!(got.len(), expected.len());
    for (g, e) in got.iter().zip(expected.iter()) {
        assert!(g.value_eq(e));
    }
}

#[test]
fn construction_rejects_non_positive_widths() {
    let center = vec![whole(0), whole(0)];
    assert_eq!(
        Ncube::new(center.clone(), whole(0)).unwrap_err(),
        NcubeError::NonPositiveWidth
    );
    assert_eq!(
        Ncube::new(center.clone(), whole(-3)).unwrap_err(),
        NcubeError::NonPositiveWidth
    );
    assert_eq!(
        Ncube::new(center, d(-1, 7)).unwrap_err(),
        NcubeError::NonPositiveWidth
    );
}

#[test]
fn construction_accepts_positive_widths() {
    let c = Ncube::new(vec![whole(4), whole(-9)], whole(2)).unwrap();
    assert!(c.width().value_eq(&whole(2)));
    assert_coords(&c, &[whole(4), whole(-9)]);
    // The smallest representable positive width is fine too.
    assert!(Ncube::new(vec![whole(0)], d(1, 60)).is_ok());
}

#[test]
fn contains_interior_point() {
    let c = unit2();
    assert!(c.contains(&vec![d(1, 1), d(1, 1)]));
    assert!(c.contains(&vec![whole(0), whole(0)]));
}

#[test]
fn contains_excludes_minimum_boundary() {
    let c = unit2();
    assert!(!c.contains(&vec![whole(-1), whole(-1)]));
    assert!(!c.contains(&vec![whole(-1), whole(0)]));
    assert!(!c.contains(&vec![whole(2), whole(0)]));
}

#[test]
fn contains_includes_maximum_boundary() {
    let c = unit2();
    assert!(c.contains(&vec![whole(1), whole(1)]));
    assert!(c.contains(&vec![whole(1), whole(0)]));
}

#[test]
fn contains_with_large_coordinates() {
    let c = Ncube::new(vec![whole(0)], whole(i64::MAX)).unwrap();
    assert!(c.contains(&vec![whole(i64::MAX / 4)]));
    assert!(!c.contains(&vec![whole(i64::MAX)]));
}

#[test]
fn dispatch_encodes_axes_little_endian() {
    let c = unit2();
    assert_eq!(c.dispatch(&vec![d(1, 1), d(1, 1)]), 3);
    assert_eq!(c.dispatch(&vec![d(1, 1), d(-1, 1)]), 1);
    assert_eq!(c.dispatch(&vec![d(-1, 1), d(1, 1)]), 2);
    assert_eq!(c.dispatch(&vec![d(-1, 1), d(-1, 1)]), 0);
}

#[test]
fn dispatch_sets_bit_at_center_hyperplane() {
    // A coordinate exactly at the center has its bit set.
    let c = unit2();
    assert_eq!(c.dispatch(&vec![whole(0), whole(0)]), 3);
}

#[test]
fn dispatch_works_outside_the_region() {
    let c = unit2();
    assert_eq!(c.dispatch(&vec![whole(5), whole(-5)]), 1);
}

#[test]
fn subdivide_unit_square() {
    let c = unit2();
    assert!(c.can_subdivide());
    let children = c.subdivide();
    assert_eq!(children.len(), 4);
    for ch in &children {
        assert!(ch.width().value_eq(&whole(1)));
    }
    assert_coords(&children[0], &[d(-1, 1), d(-1, 1)]);
    assert_coords(&children[1], &[d(1, 1), d(-1, 1)]);
    assert_coords(&children[2], &[d(-1, 1), d(1, 1)]);
    assert_coords(&children[3], &[d(1, 1), d(1, 1)]);
    let p = vec![d(1, 1), d(1, 1)];
    assert!(children[3].contains(&p));
}

#[test]
fn subdivide_matches_dispatch_for_interior_points() {
    let c = unit2();
    let children = c.subdivide();
    let points = vec![
        vec![d(1, 1), d(1, 1)],
        vec![d(-1, 2), d(3, 2)],
        vec![d(-3, 2), d(-1, 3)],
        vec![whole(1), whole(1)],
        vec![d(1, 4), d(-1, 4)],
    ];
    for p in points {
        assert!(c.contains(&p));
        let ix = c.dispatch(&p);
        let holders: Vec<usize> = (0..children.len())
            .filter(|&n| children[n].contains(&p))
            .collect();
        assert_eq!(holders, vec![ix]);
    }
}

#[test]
fn boundary_point_is_owned_by_exactly_one_child() {
    // A point on a center hyperplane: the lower child owns it (child boxes
    // are open at their minimum), while dispatch reports the upper one.
    let c = unit2();
    let children = c.subdivide();
    let p = vec![whole(0), d(1, 2)];
    assert!(c.contains(&p));
    let holders: Vec<usize> = (0..children.len())
        .filter(|&n| children[n].contains(&p))
        .collect();
    assert_eq!(holders, vec![2]);
    assert_eq!(c.dispatch(&p), 3);
}

#[test]
fn children_centers_average_to_parent_center() {
    let c = Ncube::new(vec![whole(3), whole(-1)], whole(2)).unwrap();
    let children = c.subdivide();
    assert_eq!(children.len(), 4);
    for axis in 0..2 {
        let sum: i128 = children.iter().map(|ch| ch.center()[axis].scaled()).sum();
        assert_eq!(sum, 4 * c.center()[axis].scaled());
    }
}

#[test]
fn repeated_subdivision_keeps_halving_widths() {
    let mut c = unit2();
    let expected = [d(1, 0), d(1, 1), d(1, 2)];
    for want in expected {
        assert!(c.can_subdivide());
        let children = c.subdivide();
        assert_eq!(children.len(), 4);
        assert!(children[0].width().value_eq(&want));
        c = children.into_iter().next().unwrap();
    }
}

#[test]
fn one_dimensional_region() {
    let c = Ncube::new(vec![whole(0)], whole(2)).unwrap();
    let children = c.subdivide();
    assert_eq!(children.len(), 2);
    assert_coords(&children[0], &[d(-1, 1)]);
    assert_coords(&children[1], &[d(1, 1)]);
    assert_eq!(c.dispatch(&vec![d(1, 2)]), 1);
    assert_eq!(c.dispatch(&vec![d(-1, 2)]), 0);
}

#[test]
fn three_dimensional_region() {
    let c = Ncube::new(vec![whole(0), whole(0), whole(0)], whole(2)).unwrap();
    let children = c.subdivide();
    assert_eq!(children.len(), 8);
    let p = vec![d(-1, 1), d(1, 1), d(-1, 1)];
    assert_eq!(c.dispatch(&p), 2);
    assert!(children[2].contains(&p));
    for (n, ch) in children.iter().enumerate() {
        assert!(ch.width().value_eq(&whole(1)));
        assert_eq!(ch.contains(&p), n == 2);
    }
}

#[test]
fn can_subdivide_needs_exponent_room() {
    let c = Ncube::new(vec![whole(0)], d(1, 59)).unwrap();
    assert!(!c.can_subdivide());
    let c = Ncube::new(vec![whole(0)], d(1, 58)).unwrap();
    assert!(c.can_subdivide());
}

#[test]
fn can_subdivide_needs_mantissa_room() {
    // Offsetting this center by a quarter width would overflow the mantissa.
    let c = Ncube::new(vec![whole(i64::MAX)], whole(1)).unwrap();
    assert!(!c.can_subdivide());
    let c = Ncube::new(vec![whole(1)], whole(1)).unwrap();
    assert!(c.can_subdivide());
}
