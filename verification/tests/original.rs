use coverage::cross::{blx_alpha, homogenize};
use coverage::engine::genetic_algorithm;
use coverage::eval::{coverage_area, overlap, overlap_fs};
use coverage::hungarian::apply_hungarian;
use coverage::init::{heuristic_init, random_init, random_state};
use coverage::models::{Configuration, Point};
use coverage::mutate::{dynamic_gaussian, static_gaussian};
use coverage::rng::seeded_rng;
use coverage::select::best;

fn conf_60_100() -> Configuration {
    Configuration {
        w: 60_000,
        h: 100_000,
        n: 3,
        counts: vec![1, 2],
        radius: vec![10_000, 20_000],
    }
}

fn conf_20_50() -> Configuration {
    Configuration {
        w: 20_000,
        h: 50_000,
        n: 3,
        counts: vec![1, 2],
        radius: vec![10_000, 20_000],
    }
}

#[test]
fn test_heuristic_init() {
    let mut conf = Configuration::new();
    conf.w = 60_000;
    conf.h = 100_000;
    conf.n = 3;
    conf.counts = vec![1, 2];
    conf.radius = vec![10_000, 20_000];
    let mut rng = seeded_rng(7);
    let v = heuristic_init(&conf, &mut rng, 1);
    println!("{:?}", &v[0]);
    assert_eq!(v.len(), 1);
    assert_eq!(v[0].len(), 3);
}

#[test]
fn test_random_init() {
    let mut conf = Configuration::new();
    conf.w = 100_000;
    conf.h = 100_000;
    conf.n = 3;
    conf.counts = vec![3];
    conf.radius = vec![5_000];
    let mut rng = seeded_rng(7);
    let v = random_init(&conf, &mut rng, 20);
    println!("{:?}", &v[0]);
    assert_eq!(v.len(), 20);
    assert_eq!(v[0].len(), 3);
}

#[test]
fn init_test_random_init() {
    let mut conf = Configuration::new();
    conf.w = 100_000;
    conf.h = 100_000;
    conf.n = 3;
    conf.counts = vec![3];
    conf.radius = vec![5_000];
    let mut rng = seeded_rng(11);
    let v = random_init(&conf, &mut rng, 20);
    println!("{:?}", &v[0]);
    assert_eq!(v.len(), 20);
}

#[test]
fn test_random_state() {
    let mut conf = Configuration::new();
    conf.w = 100_000;
    conf.h = 100_000;
    conf.n = 10;
    let mut rng = seeded_rng(7);
    let v = random_state(&conf, &mut rng);
    println!("{:?}", v);
    assert_eq!(v.len(), conf.n);
}

#[test]
fn init_test_random_state() {
    let mut conf = Configuration::new();
    conf.w = 100_000;
    conf.h = 100_000;
    conf.n = 10;
    let mut rng = seeded_rng(11);
    let v = random_state(&conf, &mut rng);
    println!("{:?}", v);
    assert_eq!(v.len(), conf.n);
}

#[test]
fn test_blx() {
    let conf = conf_60_100();
    let mut rng = seeded_rng(7);
    let p = random_init(&conf, &mut rng, 2);
    println!("{:?}", &p[0]);
    println!("{:?}", &p[1]);

    let pc = blx_alpha(&p[0], &p[1], 500, &mut rng);
    println!("{:?}", pc);
    assert_eq!(pc.len(), p[0].len());
}

#[test]
fn test_homogenize() {
    let conf = conf_60_100();
    let mut rng = seeded_rng(7);
    let p = random_init(&conf, &mut rng, 2);
    println!("{:?}", &p[0]);
    println!("{:?}", &p[1]);

    let (p1, p2) = homogenize(&conf, &p[0], &p[1]);
    println!("{:?}", p1);
    println!("{:?}", p2);
}

#[test]
fn test_hungarian() {
    let v1 = vec![
        Point { x: 1_000, y: 2_000 },
        Point { x: 1_500, y: 3_500 },
        Point { x: 10_000, y: -2_000 },
    ];
    let mut v2 = vec![
        Point { x: 1_500, y: 3_500 },
        Point { x: 1_000, y: 2_000 },
        Point { x: 10_100, y: -4_000 },
    ];

    apply_hungarian(&v1, &mut v2);
    assert_eq!(v2[0], Point { x: 1_000, y: 2_000 });
    assert_eq!(v2[1], Point { x: 1_500, y: 3_500 });
    assert_eq!(v2[2], Point { x: 10_100, y: -4_000 });

    println!("{:?}", v1);
    println!("{:?}", v2);
}

#[test]
fn test_ga() {
    let conf = conf_60_100();
    let mut rng = seeded_rng(7);
    let s = genetic_algorithm(&conf, &mut rng, 20, 10, 800, 50);
    println!("{:?}", s);
    println!("Coverage: {:?}", coverage_area(&conf, &s, &mut rng, 10_000));
}

#[test]
fn test_dynamic_gaussian() {
    let conf = conf_60_100();
    let mut rng = seeded_rng(7);
    let p = random_init(&conf, &mut rng, 2);
    println!("{:?}", &p[0]);
    println!("{:?}", &p[1]);

    let pc = blx_alpha(&p[0], &p[1], 500, &mut rng);
    println!("{:?}", pc);

    let px = dynamic_gaussian(&pc, &p[0], &p[1], &mut rng);
    println!("{:?}", px);
    assert_eq!(px.len(), pc.len());
}

#[test]
fn test_static_gaussian() {
    let conf = conf_60_100();
    let mut rng = seeded_rng(7);
    let p = random_init(&conf, &mut rng, 2);
    println!("{:?}", &p[0]);
    println!("{:?}", &p[1]);

    let pc = blx_alpha(&p[0], &p[1], 500, &mut rng);
    println!("{:?}", pc);

    let px = static_gaussian(&pc, &p[0], &p[1], &mut rng);
    println!("{:?}", px);
    assert_eq!(px.len(), pc.len());
}

#[test]
fn test_best_selector() {
    let conf = conf_60_100();
    let mut rng = seeded_rng(7);
    let v = heuristic_init(&conf, &mut rng, 10);
    println!("{:?}", &v[0]);

    let nv = best(&conf, &v, 5);
    println!("{:?}", &nv[0]);
    assert_eq!(nv.len(), 5);
}

#[test]
fn test_coverage_area() {
    let conf = conf_20_50();
    let mut rng = seeded_rng(7);
    let state = random_init(&conf, &mut rng, 1);
    println!("{:?}", state);

    let ca = coverage_area(&conf, &state[0], &mut rng, 10_000);
    println!("{:?}", ca);
}

#[test]
fn adaptive_test_coverage_area() {
    let conf = conf_20_50();
    let mut rng = seeded_rng(11);
    let state = &random_init(&conf, &mut rng, 1)[0];
    println!("{:?}", state);

    let ca = coverage_area(&conf, state, &mut rng, 1_000_000);
    println!("{:?}", ca);
}

#[test]
fn eval_test_coverage_area() {
    let conf = conf_20_50();
    let mut rng = seeded_rng(13);
    let state = &random_init(&conf, &mut rng, 1)[0];
    println!("{:?}", state);

    let ca = coverage_area(&conf, state, &mut rng, 10_000);
    println!("{:?}", ca);
}

#[test]
fn mod_test_coverage_area() {
    let conf = conf_20_50();
    let mut rng = seeded_rng(17);
    let state = random_init(&conf, &mut rng, 1);
    println!("{:?}", state);

    let ca = coverage_area(&conf, &state[0], &mut rng, 10_000);
    println!("{:?}", ca);
}

#[test]
fn test_overlap() {
    let conf = conf_20_50();
    let mut rng = seeded_rng(11);
    let state = &random_init(&conf, &mut rng, 1)[0];
    println!("{:?}", state);

    let ov = overlap(&conf, state);
    println!("{:?}", ov);

    let fs = overlap_fs(&conf, state);
    println!("{:?}", fs);
}

#[test]
fn eval_test_overlap() {
    let conf = conf_20_50();
    let mut rng = seeded_rng(13);
    let state = &random_init(&conf, &mut rng, 1)[0];
    println!("{:?}", state);

    let ov = overlap(&conf, state);
    println!("{:?}", ov);
}
