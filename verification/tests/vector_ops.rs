use ringsim::cells::Cell;
use ringsim::trig::{sine_turns, unit_vec};
use ringsim::vectors::Vector2;

const S: i64 = 1_000_000;

#[test]
fn components_round_trip() {
    let v = Vector2::new(3 * S, -4 * S);
    assert_eq!(v.get_components(), (3 * S, -4 * S));
    let z = Vector2::default();
    assert_eq!(z.get_components(), (0, 0));
}

#[test]
fn add_sub_neg_scale() {
    let a = Vector2::new(S, 2 * S);
    let b = Vector2::new(3 * S, -5 * S);
    assert_eq!(a.add(b).get_components(), (4 * S, -3 * S));
    assert_eq!(a.sub(b).get_components(), (-2 * S, 7 * S));
    assert_eq!(b.neg().get_components(), (-3 * S, 5 * S));
    // scaling by the fixed-point 0.8 truncates toward zero
    assert_eq!(Vector2::new(S, -500_000).scale(800_000).get_components(), (800_000, -400_000));
    assert_eq!(Vector2::new(3, -3).scale(500_000).get_components(), (1, -1));
}

#[test]
fn offset_moves_in_place() {
    let mut v = Vector2::new(10, 20);
    v.offset(-30, 5);
    assert_eq!(v.get_components(), (-20, 25));
}

#[test]
fn lengths_are_exact_on_a_three_four_five_triangle() {
    let v = Vector2::new(3 * S, 4 * S);
    assert_eq!(v.length_sqr(), 25 * S);
    assert_eq!(v.length(), 5 * S);
    assert_eq!(v.dot(Vector2::new(S, 2 * S)), 11 * S);
}

#[test]
fn mag_rescales_and_absorbs_the_zero_vector() {
    let v = Vector2::new(3 * S, 4 * S);
    assert_eq!(v.mag(S).get_components(), (600_000, 800_000));
    assert_eq!(v.norm().get_components(), (600_000, 800_000));
    assert_eq!(v.mag(10 * S).get_components(), (6 * S, 8 * S));
    // the zero vector has no direction: the degenerate fallback returns it
    assert_eq!(Vector2::default().mag(7 * S).get_components(), (0, 0));
    assert_eq!(Vector2::default().norm().get_components(), (0, 0));
}

#[test]
fn clamp_mag_caps_only_long_vectors() {
    let v = Vector2::new(3 * S, 4 * S);
    assert_eq!(v.clamp_mag(6 * S).get_components(), (3 * S, 4 * S));
    assert_eq!(v.clamp_mag(S).get_components(), (600_000, 800_000));
    // at the limit exactly, the vector is rescaled (strictly-under passes)
    assert_eq!(v.clamp_mag(5 * S).get_components(), (3 * S, 4 * S));
    let mut w = Vector2::new(0, 10 * S);
    w.clamp_mag_assign(2 * S);
    assert_eq!(w.get_components(), (0, 2 * S));
}

#[test]
fn angle_is_exact_on_the_axes_and_diagonals() {
    assert_eq!(Vector2::new(S, 0).angle(), 0);
    assert_eq!(Vector2::new(0, 5).angle(), 90 * S);
    assert_eq!(Vector2::new(-3, 0).angle(), 180 * S);
    assert_eq!(Vector2::new(0, -S).angle(), -90 * S);
    assert_eq!(Vector2::new(7, 7).angle(), 45 * S);
    assert_eq!(Vector2::new(-2, 2).angle(), 135 * S);
    assert_eq!(Vector2::default().angle(), 0);
}

#[test]
fn angle_approximates_atan2_everywhere() {
    for k in 0..360 {
        let th = (k as f64) * std::f64::consts::PI / 180.0;
        let x = (th.cos() * 1_000_000.0) as i64;
        let y = (th.sin() * 1_000_000.0) as i64;
        let got = Vector2::new(x, y).angle() as f64 / 1_000_000.0;
        let want = (y as f64).atan2(x as f64).to_degrees();
        assert!((got - want).abs() < 0.5, "angle off at {k}: {got} vs {want}");
    }
}

#[test]
fn sine_is_exact_at_the_quarter_turns() {
    assert_eq!(sine_turns(0), 0);
    assert_eq!(sine_turns(250_000), S);
    assert_eq!(sine_turns(500_000), 0);
    assert_eq!(sine_turns(750_000), -S);
    assert_eq!(unit_vec(0), (S, 0));
    assert_eq!(unit_vec(250_000), (0, S));
    assert_eq!(unit_vec(500_000), (-S, 0));
    assert_eq!(unit_vec(750_000), (0, -S));
}

#[test]
fn unit_vec_stays_in_the_unit_disk() {
    let mut t: i64 = 0;
    while t < S {
        let (c, s) = unit_vec(t);
        assert!((c as i128) * (c as i128) + (s as i128) * (s as i128) <= (S as i128) * (S as i128));
        let cr = c as f64 / 1e6;
        let sr = s as f64 / 1e6;
        let th = 2.0 * std::f64::consts::PI * (t as f64) / 1e6;
        assert!((sr - th.sin()).abs() < 0.01);
        // the cosine is derived through a square root, which loses some
        // accuracy where it is near zero
        assert!((cr - th.cos()).abs() < 0.08);
        t += 1_237;
    }
}

#[test]
fn cells_integrate_by_their_velocity() {
    let mut c = Cell::new(3, Vector2::new(10, 20));
    assert_eq!(c.mass, S);
    assert_eq!(c.velocity.get_components(), (0, 0));
    c.velocity = Vector2::new(5, -7);
    c.react();
    assert_eq!(c.pos().get_components(), (15, 13));
    c.react();
    assert_eq!(c.pos().get_components(), (20, 6));
}

#[test]
fn repeated_damping_scales_by_four_fifths_each_time() {
    // the fixed-point form of v0 * 0.8^k, with truncation toward zero
    let mut v = Vector2::new(1_000_000, -625);
    let expected = [(800_000, -500), (640_000, -400), (512_000, -320), (409_600, -256)];
    for e in expected {
        v = v.scale(800_000);
        assert_eq!(v.get_components(), e);
    }
}
