use hilbert_grid::curve::HilbertCurve;
use hilbert_grid::error::Error;
use hilbert_grid::pos::Pos2;

fn curve(size: usize) -> HilbertCurve {
    match HilbertCurve::new(size) {
        Ok(curve) => curve,
        Err(e) => panic!("no curve of side {}: {:?}", size, e),
    }
}

fn point(curve: &HilbertCurve, value: usize) -> (usize, usize) {
    let pos = curve.value_to_point(value);
    (pos.x, pos.y)
}

#[test]
fn inverse_hilbert() {
    let n = 512;

    let curve = curve(n);

    let total = n * n;
    for i in 0..total {
        let point = curve.value_to_point(i);

        assert_eq!(curve.point_to_value(point), i);
    }
}

#[test]
fn inverse_hilbert_from_points() {
    let n = 64;
    let curve = curve(n);
    for y in 0..n {
        for x in 0..n {
            let value = curve.point_to_value(Pos2 { x, y });
            assert!(value < n * n);
            assert_eq!(curve.value_to_point(value), Pos2 { x, y });
        }
    }
}

#[test]
fn new_accepts_powers_of_two() {
    let mut size: usize = 1;
    let mut order: usize = 0;
    while order < 20 {
        let curve = curve(size);
        assert_eq!(curve.order(), order);
        assert_eq!(curve.size(), size);
        size *= 2;
        order += 1;
    }
}

#[test]
fn new_accepts_the_largest_power_of_two() {
    let size = 1usize << (usize::BITS - 1);
    let curve = curve(size);
    assert_eq!(curve.order(), (usize::BITS - 1) as usize);
    assert_eq!(curve.size(), size);
}

#[test]
fn new_rejects_six() {
    assert_eq!(HilbertCurve::new(6).err(), Some(Error::InvalidDimensions));
}

#[test]
fn new_rejects_zero() {
    assert_eq!(HilbertCurve::new(0).err(), Some(Error::InvalidDimensions));
}

#[test]
fn new_rejects_other_sizes() {
    for size in [3usize, 5, 7, 9, 10, 12, 15, 17, 24, 100, 511, 513, 1023, usize::MAX] {
        assert_eq!(HilbertCurve::new(size).err(), Some(Error::InvalidDimensions), "size {}", size);
    }
}

#[test]
fn order_zero_has_one_cell() {
    let curve = curve(1);
    assert_eq!(point(&curve, 0), (0, 0));
    assert_eq!(curve.point_to_value(Pos2 { x: 0, y: 0 }), 0);
}

#[test]
fn order_one_walk() {
    let curve = curve(2);
    let walk: Vec<(usize, usize)> = (0..4).map(|i| point(&curve, i)).collect();
    assert_eq!(walk, vec![(0, 0), (0, 1), (1, 1), (1, 0)]);
}

#[test]
fn order_two_walk() {
    let curve = curve(4);
    let walk: Vec<(usize, usize)> = (0..16).map(|i| point(&curve, i)).collect();
    assert_eq!(
        walk,
        vec![
            (0, 0), (1, 0), (1, 1), (0, 1),
            (0, 2), (0, 3), (1, 3), (1, 2),
            (2, 2), (2, 3), (3, 3), (3, 2),
            (3, 1), (2, 1), (2, 0), (3, 0),
        ]
    );
}

#[test]
fn order_three_samples() {
    let curve = curve(8);
    assert_eq!(point(&curve, 0), (0, 0));
    assert_eq!(point(&curve, 5), (3, 0));
    assert_eq!(point(&curve, 21), (0, 7));
    assert_eq!(point(&curve, 37), (4, 7));
    assert_eq!(point(&curve, 63), (7, 0));
    assert_eq!(curve.point_to_value(Pos2 { x: 7, y: 0 }), 63);
    assert_eq!(curve.point_to_value(Pos2 { x: 7, y: 7 }), 42);
    assert_eq!(curve.point_to_value(Pos2 { x: 0, y: 7 }), 21);
    assert_eq!(curve.point_to_value(Pos2 { x: 3, y: 4 }), 31);
    assert_eq!(curve.point_to_value(Pos2 { x: 5, y: 2 }), 55);
}

#[test]
fn steps_past_the_end_wrap_around() {
    let curve = curve(8);
    assert_eq!(point(&curve, 64), (0, 0));
    assert_eq!(point(&curve, 100), (4, 6));
    assert_eq!(point(&curve, 100), point(&curve, 36));
}

#[test]
fn consecutive_steps_are_neighbours() {
    let n = 32;
    let curve = curve(n);
    for i in 1..n * n {
        let a = curve.value_to_point(i - 1);
        let b = curve.value_to_point(i);
        let dx = if a.x > b.x { a.x - b.x } else { b.x - a.x };
        let dy = if a.y > b.y { a.y - b.y } else { b.y - a.y };
        assert_eq!(dx + dy, 1, "step {}", i);
    }
}

#[test]
fn points_stay_in_the_square() {
    let n = 16;
    let curve = curve(n);
    for i in 0..2 * n * n {
        let p = curve.value_to_point(i);
        assert!(p.x < n && p.y < n);
    }
}

#[test]
fn rotate_leaves_the_upper_row() {
    let curve = curve(8);
    let pos = Pos2 { x: 2, y: 5 };
    assert_eq!(curve.rotate(pos, Pos2 { x: 0, y: 1 }, 8), pos);
    assert_eq!(curve.rotate(pos, Pos2 { x: 1, y: 1 }, 8), pos);
}

#[test]
fn rotate_swaps_in_the_lower_left() {
    let curve = curve(8);
    assert_eq!(curve.rotate(Pos2 { x: 2, y: 5 }, Pos2 { x: 0, y: 0 }, 8), Pos2 { x: 5, y: 2 });
}

#[test]
fn rotate_reflects_and_swaps_in_the_lower_right() {
    let curve = curve(8);
    assert_eq!(curve.rotate(Pos2 { x: 2, y: 5 }, Pos2 { x: 1, y: 0 }, 8), Pos2 { x: 2, y: 5 });
    assert_eq!(curve.rotate(Pos2 { x: 0, y: 1 }, Pos2 { x: 1, y: 0 }, 4), Pos2 { x: 2, y: 3 });
    assert_eq!(curve.rotate(Pos2 { x: 0, y: 0 }, Pos2 { x: 1, y: 0 }, 1), Pos2 { x: 0, y: 0 });
}

#[test]
fn error_messages_differ() {
    assert_eq!(Error::InvalidDimensions.message(), "grid must be square with a power of two side");
    assert_eq!(Error::InvalidRange.message(), "trim lengths exceed the buffer length");
}
