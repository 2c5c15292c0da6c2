use rect_anneal::Annealer;
use rect_anneal::DEFAULT_SEED;
use rect_anneal::Rect;
use rect_anneal::Request;
use rect_anneal::Rng;
use rect_anneal::TEMP_INIT_Q32;
use rect_anneal::anneal::Q32_ONE;
use rect_anneal::anneal::Q64_ONE;
use rect_anneal::anneal::accept_p;
use rect_anneal::anneal::cool;
use rect_anneal::anneal::gap_sq;
use rect_anneal::anneal::propose;

fn req(row: u64, col: u64, area: u64) -> Request {
    Request { row, col, area }
}

#[test]
fn rng_sequence_from_default_seed() {
    let mut r = Rng::new(DEFAULT_SEED);
    assert_eq!(r.next(), 45454805674);
    assert_eq!(r.next(), 11532217803599905471);
    assert_eq!(r.next(), 10021416941527320954);
}

#[test]
fn rng_same_seed_same_stream() {
    let mut a = Rng::new(7);
    let mut b = Rng::new(7);
    for _ in 0..100 {
        assert_eq!(a.next(), b.next());
    }
}

#[test]
fn initial_solution_is_unit_seeds() {
    let requests = vec![req(10, 20, 5), req(300, 4000, 100)];
    let a = Annealer::new(requests, DEFAULT_SEED);
    assert_eq!(a.len(), 2);
    assert_eq!(a.rects.len(), 2);
    assert_eq!(a.rects[0], Rect { row0: 10, col0: 20, row1: 11, col1: 21 });
    assert_eq!(a.rects[1], Rect { row0: 300, col0: 4000, row1: 301, col1: 4001 });
    assert_eq!(a.temp, TEMP_INIT_Q32);
    assert_eq!(a.iterations, 0);
    // Every seed contains its own request's point.
    for (r, q) in a.rects.iter().zip(a.requests.iter()) {
        assert!(r.contains(q.row, q.col));
        assert_eq!(r.area(), 1);
    }
}

#[test]
fn propose_all_eight_directions() {
    let r = Rect { row0: 5, col0: 6, row1: 8, col1: 9 };
    assert_eq!(propose(&r, 0), Some(Rect { row0: 4, col0: 6, row1: 8, col1: 9 }));
    assert_eq!(propose(&r, 1), Some(Rect { row0: 5, col0: 5, row1: 8, col1: 9 }));
    assert_eq!(propose(&r, 2), Some(Rect { row0: 5, col0: 6, row1: 9, col1: 9 }));
    assert_eq!(propose(&r, 3), Some(Rect { row0: 5, col0: 6, row1: 8, col1: 10 }));
    assert_eq!(propose(&r, 4), Some(Rect { row0: 4, col0: 6, row1: 7, col1: 9 }));
    assert_eq!(propose(&r, 5), Some(Rect { row0: 5, col0: 5, row1: 8, col1: 8 }));
    assert_eq!(propose(&r, 6), Some(Rect { row0: 6, col0: 6, row1: 9, col1: 9 }));
    assert_eq!(propose(&r, 7), Some(Rect { row0: 5, col0: 7, row1: 8, col1: 10 }));
}

#[test]
fn propose_rejects_out_of_range() {
    // A coordinate would leave [0, MAP_SIZE) in every one of these.
    let at_origin = Rect { row0: 0, col0: 0, row1: 3, col1: 3 };
    assert_eq!(propose(&at_origin, 0), None);
    assert_eq!(propose(&at_origin, 1), None);
    assert_eq!(propose(&at_origin, 4), None);
    assert_eq!(propose(&at_origin, 5), None);
    let near_edge = Rect { row0: 9990, col0: 9990, row1: 9999, col1: 9999 };
    assert_eq!(propose(&near_edge, 2), None);
    assert_eq!(propose(&near_edge, 3), None);
    assert_eq!(propose(&near_edge, 6), None);
    assert_eq!(propose(&near_edge, 7), None);
}

#[test]
fn gap_squared_values() {
    // Unit rectangle against target 4: gap 3/4, squared (3 * 2^32 / 4)^2.
    let q = req(5000, 5000, 4);
    let unit = Rect { row0: 5000, col0: 5000, row1: 5001, col1: 5001 };
    assert_eq!(gap_sq(&q, &unit), 10376293541461622784);
    // A rectangle that misses the point has the full squared gap of one.
    let miss = Rect { row0: 0, col0: 0, row1: 1, col1: 1 };
    assert_eq!(gap_sq(&q, &miss), Q64_ONE);
    // A matching area has no gap at all.
    let exact = Rect { row0: 5000, col0: 4999, row1: 5001, col1: 5003 };
    assert_eq!(gap_sq(&q, &exact), 0);
}

#[test]
fn acceptance_is_certain_without_score_drop() {
    assert_eq!(accept_p(5, 5, TEMP_INIT_Q32), Q32_ONE as u64);
    assert_eq!(accept_p(100, 7, TEMP_INIT_Q32), Q32_ONE as u64);
    assert_eq!(accept_p(0, 0, 1), Q32_ONE as u64);
}

#[test]
fn acceptance_values_track_the_exponential() {
    // Full drop at temperature one: probability rounds to zero.
    assert_eq!(accept_p(0, Q64_ONE, 1), 0);
    // Drop of 1.0 at temperature 1.0: e^-1 in Q32 fixed point.
    assert_eq!(accept_p(0, Q64_ONE, Q32_ONE as u64), 1580030169);
    // Drop of 0.25 at temperature 100: close to one but strictly below it.
    let p = accept_p(0, (1u128 << 62), TEMP_INIT_Q32);
    assert_eq!(p, 4284243289);
    assert!(p < Q32_ONE as u64);
}

#[test]
fn cooling_is_geometric_with_a_floor() {
    assert_eq!(cool(TEMP_INIT_Q32), TEMP_INIT_Q32 / 100 * 99);
    assert_eq!(cool(100), 99);
    assert_eq!(cool(1), 1);
    // The decay bottoms out at one Q32 unit rather than reaching zero.
    let mut t = TEMP_INIT_Q32;
    for _ in 0..5000 {
        t = cool(t);
    }
    assert_eq!(t, 1);
}

#[test]
fn boundary_seed_never_moves() {
    // The seed at the far corner has row1 == col1 == MAP_SIZE, so every
    // mutation leaves a coordinate at or past MAP_SIZE and is rejected.
    let mut a = Annealer::new(vec![req(9999, 9999, 5)], DEFAULT_SEED);
    a.run(300);
    assert_eq!(a.rects[0], Rect { row0: 9999, col0: 9999, row1: 10000, col1: 10000 });
    // The same holds on a single far edge for the mutations that cross it:
    // the rectangle can never grow past the boundary column.
    let mut b = Annealer::new(vec![req(5000, 9999, 50)], DEFAULT_SEED);
    b.run(5000);
    assert!(b.rects[0].col1 <= 10000);
    assert!(b.rects[0].contains(5000, 9999));
}

#[test]
fn single_request_grows_to_target_area() {
    let mut a = Annealer::new(vec![req(5000, 5000, 4)], DEFAULT_SEED);
    assert_eq!(a.rects[0], Rect { row0: 5000, col0: 5000, row1: 5001, col1: 5001 });
    a.run(50000);
    assert_eq!(a.iterations, 50000);
    let r = a.rects[0];
    assert!(r.contains(5000, 5000));
    assert!(r.area() <= 4);
    // Under the fixed default seed the search settles on the target area
    // exactly, for the full score of one.
    assert_eq!(r, Rect { row0: 5000, col0: 5000, row1: 5004, col1: 5001 });
    assert_eq!(r.area(), 4);
    // Diagnostic total score: mean per-request score scaled to a billion,
    // rounded half-up: a perfect match reports exactly one billion.
    let score = (2.0 * 1e9 * 1.0 / 1.0) as i64;
    assert_eq!((score + 1) >> 1, 1_000_000_000);
}

#[test]
fn two_requests_stay_disjoint_and_within_target() {
    let requests = vec![req(100, 100, 50), req(9000, 9000, 50)];
    let mut a = Annealer::new(requests, DEFAULT_SEED);
    a.run(20000);
    let r0 = a.rects[0];
    let r1 = a.rects[1];
    assert!(!r0.intersects(&r1));
    assert!(!r1.intersects(&r0));
    assert!(r0.contains(100, 100));
    assert!(r1.contains(9000, 9000));
    assert!(r0.area() <= 50);
    assert!(r1.area() <= 50);
    // The deterministic search reaches these exact rectangles.
    assert_eq!(r0, Rect { row0: 94, col0: 98, row1: 104, col1: 103 });
    assert_eq!(r1, Rect { row0: 8999, col0: 8997, row1: 9005, col1: 9005 });
    assert_eq!(r0.area(), 50);
    assert_eq!(r1.area(), 48);
}

#[test]
fn runs_with_equal_seeds_are_identical() {
    let requests = vec![req(100, 100, 50), req(200, 300, 30), req(9000, 9000, 80)];
    let mut a = Annealer::new(requests.clone(), 12345);
    let mut b = Annealer::new(requests, 12345);
    a.run(10000);
    b.run(10000);
    assert_eq!(a.rects, b.rects);
    assert_eq!(a.rng, b.rng);
    assert_eq!(a.temp, b.temp);
    assert_eq!(a.iterations, b.iterations);
}

#[test]
fn run_in_pieces_equals_one_run() {
    let requests = vec![req(100, 100, 50), req(9000, 9000, 80)];
    let mut a = Annealer::new(requests.clone(), DEFAULT_SEED);
    let mut b = Annealer::new(requests, DEFAULT_SEED);
    a.run(3000);
    for _ in 0..30 {
        b.run(100);
    }
    assert_eq!(a.rects, b.rects);
    assert_eq!(a.rng, b.rng);
    assert_eq!(a.temp, b.temp);
    assert_eq!(a.iterations, b.iterations);
}

#[test]
fn empty_problem_still_ticks() {
    let mut a = Annealer::new(vec![], DEFAULT_SEED);
    a.run(10);
    assert_eq!(a.iterations, 10);
    assert_eq!(a.rects.len(), 0);
    assert!(a.temp < TEMP_INIT_Q32);
}

#[test]
fn pairwise_disjoint_under_crowding() {
    // Nine requests packed closely, all wanting more area than the space
    // between their points allows: the invariant must hold throughout.
    let mut requests = Vec::new();
    for i in 0..3u64 {
        for j in 0..3u64 {
            requests.push(req(500 + 3 * i, 500 + 3 * j, 36));
        }
    }
    let mut a = Annealer::new(requests, DEFAULT_SEED);
    a.run(30000);
    for x in 0..9 {
        for y in 0..9 {
            if x != y {
                assert!(!a.rects[x].intersects(&a.rects[y]));
            }
        }
    }
    for k in 0..9 {
        assert!(a.rects[k].contains(a.requests[k].row, a.requests[k].col));
        assert!(a.rects[k].area() <= a.requests[k].area);
    }
}
