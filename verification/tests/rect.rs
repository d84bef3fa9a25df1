use treemap::{Frac, Rect};

#[test]
fn new_rect() {
    let expected = Rect::from_points(
        Frac::from_int(0),
        Frac::from_int(0),
        Frac::from_int(1),
        Frac::from_int(1),
    );
    assert!(Rect::new().eq_rect(&expected));
}

#[test]
fn aspect_ratio() {
    let rect = Rect::new();
    assert!(rect.aspect_ratio().eq_frac(&Frac::from_int(1)));
    let rect2 = Rect::from_points(
        Frac::from_int(1),
        Frac::from_int(1),
        Frac::from_int(1),
        Frac::from_int(5),
    );
    assert!(rect2.aspect_ratio().eq_frac(&Frac::from_int(5)));
}

#[test]
fn aspect_ratio_fraction() {
    // A 6 x 4 rectangle has aspect ratio 3/2, whichever side is longer.
    let rect = Rect::from_points(
        Frac::from_int(0),
        Frac::from_int(0),
        Frac::from_int(6),
        Frac::from_int(4),
    );
    assert!(rect.aspect_ratio().eq_frac(&Frac::new(3, 2)));
    let rect2 = Rect::from_points(
        Frac::from_int(0),
        Frac::from_int(0),
        Frac::from_int(4),
        Frac::from_int(6),
    );
    assert!(rect2.aspect_ratio().eq_frac(&Frac::new(3, 2)));
}

#[test]
fn aspect_ratio_degenerate() {
    // A zero dimension makes the aspect ratio zero by convention.
    let rect = Rect::from_points(
        Frac::from_int(2),
        Frac::from_int(3),
        Frac::from_int(0),
        Frac::from_int(4),
    );
    assert!(rect.aspect_ratio().eq_frac(&Frac::from_int(0)));
}

#[test]
fn default_rect() {
    let expected = Rect::new();
    let got: Rect = Default::default();
    assert!(got.eq_rect(&expected));
}

#[test]
fn frac_arithmetic_exact() {
    // 1/3 + 1/6 == 1/2, and (2/3) * (3/4) == 1/2.
    let third = Frac::new(1, 3);
    let sixth = Frac::new(1, 6);
    let half = Frac::new(1, 2);
    assert!(third.add(&sixth).eq_frac(&half));
    assert!(Frac::new(2, 3).mul(&Frac::new(3, 4)).eq_frac(&half));
    assert!(Frac::new(1, 2).div(&Frac::new(3, 2)).eq_frac(&Frac::new(1, 3)));
    assert!(Frac::new(1, 2).sub(&Frac::new(1, 2)).is_zero());
    assert!(Frac::new(-3, -6).eq_frac(&half));
    assert!(Frac::new(1, -2).eq_frac(&Frac::new(-1, 2)));
    assert!(Frac::new(1, 3).lt(&half));
    assert!(half.gt(&Frac::new(1, 3)));
}
