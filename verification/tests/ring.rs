use ringsim::organism::{ConfigError, Organism};
use ringsim::structures::KDtree;
use ringsim::cells::Cell;
use ringsim::vectors::Vector2;

const S: i64 = 1_000_000;

fn comps(o: &Organism) -> Vec<(i64, i64)> {
    o.positions().iter().map(|p| p.get_components()).collect()
}

#[test]
fn construction_rejects_bad_parameters() {
    let c = Vector2::default();
    assert!(matches!(Organism::new(c, 0, 10 * S, S, S, false), Err(ConfigError::ZeroCount)));
    assert!(matches!(Organism::new(c, 3, 0, S, S, false), Err(ConfigError::NonPositiveRadius)));
    assert!(matches!(Organism::new(c, 3, -S, S, S, false), Err(ConfigError::NonPositiveRadius)));
    assert!(matches!(
        Organism::new(c, 3, 10 * S, 0, S, false),
        Err(ConfigError::NonPositiveSpatiality)
    ));
    assert!(matches!(
        Organism::new(c, 3, 10 * S, -7, S, false),
        Err(ConfigError::NonPositiveSpatiality)
    ));
    assert!(Organism::new(c, 1, 1, 1, 0, true).is_ok());
}

#[test]
fn initial_placement_on_the_circle() {
    // four cells of radius ten land exactly on the axes
    let o = Organism::new(Vector2::default(), 4, 10 * S, S, S, false).unwrap();
    assert_eq!(
        comps(&o),
        vec![(10 * S, 0), (0, 10 * S), (-10 * S, 0), (0, -10 * S)]
    );
    // an offset center shifts every cell
    let o = Organism::new(Vector2::new(S, 2 * S), 4, 10 * S, S, S, false).unwrap();
    assert_eq!(
        comps(&o),
        vec![(11 * S, 2 * S), (S, 12 * S), (-9 * S, 2 * S), (S, -8 * S)]
    );
}

#[test]
fn ring_length_never_decreases_over_ticks() {
    let mut o = Organism::new(Vector2::default(), 3, 50 * S, 350 * S, 10 * S, true).unwrap();
    let mut last = o.len();
    assert_eq!(last, 3);
    for _ in 0..25 {
        o.tick();
        let n = o.len();
        assert!(n >= last, "ring shrank from {last} to {n}");
        last = n;
    }
}

#[test]
fn two_cell_expand_matches_the_force_formula_and_newton_symmetry() {
    // cells at (1, 0) and (-1, 0): squared distance 4, force 1/4 each way,
    // bias 1, damping 0.8 -> velocities exactly (0.2, 0) and (-0.2, 0)
    let mut o = Organism::new(Vector2::default(), 2, S, 2_000_000_000_000, S, false).unwrap();
    o.expand();
    let ps = comps(&o);
    assert_eq!(ps[0], (1_200_000, 0));
    assert_eq!(ps[1], (-1_200_000, 0));
    // displacements are exact negations of each other
    assert_eq!(ps[0].0 - S, -(ps[1].0 + S));
}

#[test]
fn expand_beyond_cutoff_leaves_cells_at_rest() {
    // squared distance 400 is beyond twice spatiality 100: zero net force
    let mut o = Organism::new(Vector2::default(), 2, 10 * S, 100 * S, 10 * S, false).unwrap();
    let before = comps(&o);
    for _ in 0..5 {
        o.expand();
        assert_eq!(comps(&o), before);
    }
}

#[test]
fn degenerate_pair_is_absorbed() {
    // radius one micro-unit: the two cells are a micro-unit apart, the
    // squared distance rounds to zero, and the pair contributes nothing
    let mut o = Organism::new(Vector2::default(), 2, 1, 1_000, S, false).unwrap();
    let before = comps(&o);
    for _ in 0..3 {
        o.expand();
        assert_eq!(comps(&o), before);
    }
}

#[test]
fn fill_gaps_inserts_exactly_one_cell_per_oversized_edge() {
    // edges have squared length 200; threshold 150: every edge oversized
    let mut o = Organism::new(Vector2::default(), 4, 10 * S, 150 * S, S, false).unwrap();
    o.fill_gaps();
    assert_eq!(o.len(), 8);
    // midpoints are exact without noise
    assert_eq!(
        comps(&o),
        vec![
            (10 * S, 0),
            (5 * S, 5 * S),
            (0, 10 * S),
            (-5 * S, 5 * S),
            (-10 * S, 0),
            (-5 * S, -5 * S),
            (0, -10 * S),
            (5 * S, -5 * S),
        ]
    );
    // the sub-edges (squared length 50) are within threshold: no more grow
    o.fill_gaps();
    assert_eq!(o.len(), 8);
}

#[test]
fn wide_gaps_take_more_than_one_pass_to_close() {
    // edges of squared length 200 against threshold 25: one pass halves
    // them (squared length 50, still oversized), a second closes them
    let mut o = Organism::new(Vector2::default(), 4, 10 * S, 25 * S, S, false).unwrap();
    o.fill_gaps();
    assert_eq!(o.len(), 8);
    o.fill_gaps();
    assert_eq!(o.len(), 16);
    o.fill_gaps();
    assert_eq!(o.len(), 16);
}

#[test]
fn noisy_insertion_parameters_stay_between_the_bounds() {
    for _ in 0..20 {
        let mut o = Organism::new(Vector2::default(), 4, 10 * S, 150 * S, S, true).unwrap();
        let before = comps(&o);
        o.fill_gaps();
        let after = comps(&o);
        assert_eq!(after.len(), 8);
        for k in 0..4usize {
            let a = before[k];
            let b = before[(k + 1) % 4];
            let m = after[2 * k + 1];
            // recover the interpolation parameter from the component with
            // the larger span; one micro-unit of slack for truncation
            let (num, den) = if (b.0 - a.0).abs() >= (b.1 - a.1).abs() {
                (m.0 - a.0, b.0 - a.0)
            } else {
                (m.1 - a.1, b.1 - a.1)
            };
            let t = num as f64 / den as f64;
            assert!(t >= 0.299 && t <= 0.701, "t out of bounds: {t}");
        }
    }
}

#[test]
fn disk_samples_stay_inside_and_fill_the_disk_uniformly_by_area() {
    let r: i64 = S;
    let n = 20_000;
    let mut inner = 0usize;
    for _ in 0..n {
        let v = Vector2::random_in_radius(r);
        let (x, y) = v.get_components();
        let rsq = (x as i128) * (x as i128) + (y as i128) * (y as i128);
        assert!(rsq <= (r as i128) * (r as i128), "sample outside the disk");
        // area-uniform sampling puts a quarter of the mass within r/2
        if rsq <= ((r / 2) as i128) * ((r / 2) as i128) {
            inner += 1;
        }
    }
    let frac = inner as f64 / n as f64;
    assert!(
        (frac - 0.25).abs() < 0.02,
        "radial distribution not area-uniform: {frac}"
    );
}

#[test]
fn disk_point_maps_given_draws_to_the_formula() {
    // radial draw 0.25 -> radius factor sqrt(0.25) == 0.5, all exact
    assert_eq!(Vector2::disk_point(S, 250_000, 0).get_components(), (500_000, 0));
    assert_eq!(Vector2::disk_point(S, 250_000, 250_000).get_components(), (0, 500_000));
    assert_eq!(Vector2::disk_point(S, 250_000, 500_000).get_components(), (-500_000, 0));
    assert_eq!(Vector2::disk_point(S, 250_000, 750_000).get_components(), (0, -500_000));
    // radial draw 0.5625 -> factor 0.75, radius two
    assert_eq!(Vector2::disk_point(2 * S, 562_500, 500_000).get_components(), (-1_500_000, 0));
    // a zero radial draw lands on the center whatever the angle
    assert_eq!(Vector2::disk_point(S, 0, 123_456).get_components(), (0, 0));
}

#[test]
fn random_unit_values_are_in_range() {
    for _ in 0..1_000 {
        let u = ringsim::rng::random_unit();
        assert!((0..S).contains(&u));
    }
}

#[test]
fn kdtree_finds_what_was_added_and_nothing_else() {
    let mut t = KDtree::new(Cell::new(0, Vector2::default()), 0);
    let pts = [(5, 3), (-2, 1), (5, -9), (0, 7), (-2, 1)];
    let mut id = 1u64;
    for (x, y) in pts {
        t.add(Cell::new(id, Vector2::new(x, y)));
        id += 1;
    }
    assert!(t.find(0, 0));
    for (x, y) in pts {
        assert!(t.find(x, y), "missing ({x}, {y})");
    }
    assert!(!t.find(9, 9));
    assert!(!t.find(5, 4));
    assert!(!t.find(-5, 3));
}
