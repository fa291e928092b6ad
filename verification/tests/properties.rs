use coverage::codec::{format_result, parse_config, parse_result, ConfigError};
use coverage::engine::genetic_algorithm;
use coverage::eval::{coverage_area, overlap, overlap_fs};
use coverage::hungarian::apply_hungarian;
use coverage::init::{normalize, random_state};
use coverage::models::{Configuration, Point};
use coverage::rng::seeded_rng;
use coverage::select::best;

fn dist_f(a: Point, b: Point) -> f64 {
    let dx = (a.x - b.x) as f64;
    let dy = (a.y - b.y) as f64;
    (dx * dx + dy * dy).sqrt()
}

/// Every random state has exactly `n` points, each inside the rectangle.
#[test]
fn random_state_in_rectangle() {
    let conf = Configuration {
        w: 60_000,
        h: 100_000,
        n: 25,
        counts: vec![25],
        radius: vec![5_000],
    };
    let mut rng = seeded_rng(3);
    let v = random_state(&conf, &mut rng);
    assert_eq!(v.len(), 25);
    for p in &v {
        assert!(0 <= p.x && p.x < conf.w);
        assert!(0 <= p.y && p.y < conf.h);
    }
}

/// The same seed gives the same random state.
#[test]
fn seeded_runs_repeat() {
    let conf = Configuration {
        w: 60_000,
        h: 100_000,
        n: 5,
        counts: vec![5],
        radius: vec![5_000],
    };
    let mut r1 = seeded_rng(99);
    let mut r2 = seeded_rng(99);
    let a = random_state(&conf, &mut r1);
    let b = random_state(&conf, &mut r2);
    assert_eq!(a, b);
}

/// Normalizing twice changes nothing, and with small enough radii every
/// point lands inside its group's safe band.
#[test]
fn normalize_idempotent_and_bounded() {
    let conf = Configuration {
        w: 60_000,
        h: 100_000,
        n: 3,
        counts: vec![1, 2],
        radius: vec![10_000, 20_000],
    };
    let raw = vec![
        Point { x: -5_000, y: 200_000 },
        Point { x: 59_000, y: 1_000 },
        Point { x: 30_000, y: 50_000 },
    ];
    let mut states = vec![raw];
    normalize(&conf, &mut states);
    let once = states.clone();
    normalize(&conf, &mut states);
    assert_eq!(states, once);
    let s = &states[0];
    assert!(10_000 <= s[0].x && s[0].x <= 50_000);
    assert!(10_000 <= s[0].y && s[0].y <= 90_000);
    for p in &s[1..] {
        assert!(20_000 <= p.x && p.x <= 40_000);
        assert!(20_000 <= p.y && p.y <= 80_000);
    }
}

/// The matcher finds the minimum total-distance pairing that brute-force
/// enumeration finds, on a four-point set.
#[test]
fn hungarian_matches_brute_force() {
    let g1 = vec![
        Point { x: 0, y: 0 },
        Point { x: 10_000, y: 0 },
        Point { x: 0, y: 10_000 },
        Point { x: 7_000, y: 7_000 },
    ];
    let g2_orig = vec![
        Point { x: 6_500, y: 6_000 },
        Point { x: 500, y: 9_000 },
        Point { x: 9_000, y: 1_000 },
        Point { x: 1_000, y: 1_000 },
    ];
    let mut g2 = g2_orig.clone();
    apply_hungarian(&g1, &mut g2);
    let got: f64 = (0..4).map(|i| dist_f(g1[i], g2[i])).sum();

    // brute force over all 24 permutations
    let mut bests = f64::MAX;
    let perms = [
        [0, 1, 2, 3], [0, 1, 3, 2], [0, 2, 1, 3], [0, 2, 3, 1], [0, 3, 1, 2], [0, 3, 2, 1],
        [1, 0, 2, 3], [1, 0, 3, 2], [1, 2, 0, 3], [1, 2, 3, 0], [1, 3, 0, 2], [1, 3, 2, 0],
        [2, 0, 1, 3], [2, 0, 3, 1], [2, 1, 0, 3], [2, 1, 3, 0], [2, 3, 0, 1], [2, 3, 1, 0],
        [3, 0, 1, 2], [3, 0, 2, 1], [3, 1, 0, 2], [3, 1, 2, 0], [3, 2, 0, 1], [3, 2, 1, 0],
    ];
    for p in perms.iter() {
        let t: f64 = (0..4).map(|i| dist_f(g1[i], g2_orig[p[i]])).sum();
        if t < bests {
            bests = t;
        }
    }
    // the integer matcher works on floor distances; allow one unit per pair
    assert!((got - bests).abs() < 4.0, "got {} best {}", got, bests);
}

/// Separated circles that stay inside the rectangle have overlap zero, and
/// the fitness sits at the sentinel exactly then.
#[test]
fn overlap_zero_when_separated() {
    let conf = Configuration {
        w: 100_000,
        h: 100_000,
        n: 2,
        counts: vec![2],
        radius: vec![10_000],
    };
    let state = vec![Point { x: 20_000, y: 20_000 }, Point { x: 60_000, y: 60_000 }];
    assert_eq!(overlap(&conf, &state), 0);
    assert_eq!(overlap_fs(&conf, &state), i64::MAX);
}

/// A properly intersecting pair pays the analytic penalty exactly.
#[test]
fn overlap_exact_value() {
    let conf = Configuration {
        w: 100_000,
        h: 100_000,
        n: 2,
        counts: vec![2],
        radius: vec![10_000],
    };
    let state = vec![Point { x: 30_000, y: 30_000 }, Point { x: 40_000, y: 30_000 }];
    // per ordered pair: gamma = (r1+r2)*min/(R1*max) = 2, penalty 2*(20000-10000)
    assert_eq!(overlap(&conf, &state), 40_000);
    assert_eq!(overlap_fs(&conf, &state), 100_000_000 / 40_000);
}

/// Selection keeps exactly `keep` states, the best first, ties broken by
/// original position.
#[test]
fn best_orders_by_fitness() {
    let conf = Configuration {
        w: 100_000,
        h: 100_000,
        n: 2,
        counts: vec![2],
        radius: vec![10_000],
    };
    let separated = vec![Point { x: 20_000, y: 20_000 }, Point { x: 60_000, y: 60_000 }];
    let touching = vec![Point { x: 30_000, y: 30_000 }, Point { x: 40_000, y: 30_000 }];
    let pool = vec![touching.clone(), separated.clone(), touching.clone()];
    let kept = best(&conf, &pool, 2);
    assert_eq!(kept.len(), 2);
    assert_eq!(kept[0], separated);
    // the two touching states tie; the earlier one wins the last slot
    assert_eq!(kept[1], touching);
}

/// The end-to-end run terminates, returns a full-length state, and covers
/// at least as much as a fresh random state.
#[test]
fn solve_end_to_end() {
    let conf = Configuration {
        w: 60_000,
        h: 100_000,
        n: 3,
        counts: vec![1, 2],
        radius: vec![10_000, 20_000],
    };
    // One sampled seed of the probabilistic claim. The run may stop early
    // at the fitness sentinel by stacking equal circles exactly (pairs at
    // distance zero are skipped by the degenerate-geometry rule), so the
    // coverage comparison does not hold on every seed.
    let mut rng = seeded_rng(3);
    let s = genetic_algorithm(&conf, &mut rng, 20, 10, 800, 50);
    assert_eq!(s.len(), 3);
    let solved = coverage_area(&conf, &s, &mut rng, 100_000);
    let fresh = random_state(&conf, &mut rng);
    let base = coverage_area(&conf, &fresh, &mut rng, 100_000);
    assert!(solved >= base, "solved {} base {}", solved, base);
    assert!(solved > 0);
}

/// A formatted result parses back to the same rectangle, coordinates and
/// per-point radii; group boundaries are not kept.
#[test]
fn result_round_trip() {
    let conf = Configuration {
        w: 60_000,
        h: 100_000,
        n: 3,
        counts: vec![1, 2],
        radius: vec![10_000, 20_000],
    };
    let state = vec![
        Point { x: 10_000, y: 10_000 },
        Point { x: 20_000, y: 20_500 },
        Point { x: 40_000, y: 80_123 },
    ];
    let text = format_result(&conf, &state);
    let (w, h, triples) = parse_result(&text).unwrap();
    assert_eq!(w, conf.w);
    assert_eq!(h, conf.h);
    assert_eq!(triples.len(), 3);
    assert_eq!(triples[0], (10_000, 10_000, 10_000));
    assert_eq!(triples[1], (20_000, 20_500, 20_000));
    assert_eq!(triples[2], (40_000, 80_123, 20_000));
}

/// The result text has the exact documented shape.
#[test]
fn result_text_exact() {
    let conf = Configuration {
        w: 60_000,
        h: 100_000,
        n: 1,
        counts: vec![1],
        radius: vec![3_000],
    };
    let state = vec![Point { x: 1_000, y: 2_000 }];
    let text = format_result(&conf, &state);
    assert_eq!(text, b"60.000 100.000\n1.000 2.000 3.000\n".to_vec());
}

/// A well-formed configuration text parses to the value it denotes.
#[test]
fn config_parses() {
    let text = b"100 100\n3 17\n5\n6\n6\n1\n2.5\n10.25\n".to_vec();
    let c = parse_config(&text).unwrap();
    assert_eq!(c.w, 100_000);
    assert_eq!(c.h, 100_000);
    assert_eq!(c.n, 17);
    assert_eq!(c.counts, vec![5, 6, 6]);
    assert_eq!(c.radius, vec![1_000, 2_500, 10_250]);
}

/// Text outside the grammar is a malformed-input error.
#[test]
fn config_malformed() {
    let text = b"100 abc\n".to_vec();
    assert!(matches!(parse_config(&text), Err(ConfigError::Malformed)));
}

/// Group sizes that do not sum to the point count are rejected.
#[test]
fn config_inconsistent() {
    let text = b"100 100\n2 10\n5\n6\n1\n2\n".to_vec();
    assert!(matches!(parse_config(&text), Err(ConfigError::Inconsistent)));
}

/// An empty placement has overlap zero.
#[test]
fn overlap_empty_state() {
    let conf = Configuration::new();
    let state: Vec<Point> = Vec::new();
    assert_eq!(overlap(&conf, &state), 0);
}
