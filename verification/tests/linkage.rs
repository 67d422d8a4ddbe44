use rustvent::linkage::edge::{build_queue, edge_before, generate_edges, sort_edges, Edge};
use rustvent::linkage::engine::{dedup_points, ClusterError, Engine, MergeEvent};
use rustvent::linkage::partition::{MergeOutcome, Partition};
use rustvent::linkage::point::{isqrt, Point};
use rustvent::linkage::snapshot::product_of_top_three;

fn corner_points() -> Vec<Point> {
    vec![Point::new(0, 0, 0), Point::new(1, 0, 0), Point::new(0, 1, 0), Point::new(10, 10, 10)]
}

fn line_points(n: usize) -> Vec<Point> {
    (0..n).map(|i| Point::new(i * i, 0, 0)).collect()
}

#[test]
fn isqrt_rounds_down() {
    assert_eq!(isqrt(0), 0);
    assert_eq!(isqrt(1), 1);
    assert_eq!(isqrt(3), 1);
    assert_eq!(isqrt(4), 2);
    assert_eq!(isqrt(24), 4);
    assert_eq!(isqrt(25), 5);
    assert_eq!(isqrt(26), 5);
    assert_eq!(isqrt(u128::MAX), 18_446_744_073_709_551_615);
}

#[test]
fn distance_is_floored_euclidean() {
    let origin = Point::new(0, 0, 0);
    assert_eq!(origin.distance(&Point::new(3, 4, 0)), Some(5));
    assert_eq!(origin.distance(&Point::new(1, 1, 1)), Some(1));
    assert_eq!(origin.distance(&Point::new(2, 2, 1)), Some(3));
    assert_eq!(origin.distance(&Point::new(10, 10, 10)), Some(17));
    assert_eq!(origin.distance(&origin), Some(0));
}

#[test]
fn distance_is_symmetric() {
    let a = Point::new(162, 817, 812);
    let b = Point::new(425, 690, 689);
    assert_eq!(a.distance(&b), Some(316));
    assert_eq!(b.distance(&a), Some(316));
}

#[test]
fn distance_handles_the_widest_coordinates() {
    let origin = Point::new(0, 0, 0);
    let far = Point::new(4_294_967_295, 4_294_967_295, 4_294_967_295);
    assert_eq!(origin.distance(&far), Some(7_439_101_571));
    assert_eq!(far.distance(&origin), Some(7_439_101_571));
    assert_eq!(origin.distance(&Point::new(4_294_967_296, 0, 0)), Some(4_294_967_296));
    assert_eq!(origin.distance(&Point::new(usize::MAX, 0, 0)), Some(u64::MAX));
    assert_eq!(Point::new(usize::MAX, 0, 0).distance(&Point::new(usize::MAX - 3, 4, 0)), Some(5));
}

#[test]
fn distance_beyond_128_bits_cannot_be_computed() {
    let origin = Point::new(0, 0, 0);
    assert_eq!(origin.distance(&Point::new(usize::MAX, usize::MAX, 0)), None);
    assert_eq!(Point::new(usize::MAX, 0, usize::MAX).distance(&origin), None);
    assert_eq!(origin.distance(&Point::new(usize::MAX, usize::MAX, usize::MAX)), None);
    assert_eq!(origin.distance(&Point::new(usize::MAX, 1 << 33, 0)), None);
    assert_eq!(origin.distance(&Point::new(usize::MAX, 1, 0)), Some(u64::MAX));
    assert_eq!(
        origin.distance(&Point::new(1 << 63, 1 << 63, 1 << 63)),
        Some(15_975_348_984_942_515_101)
    );
    let points = [origin, Point::new(1, 0, 0), Point::new(usize::MAX, usize::MAX, 0)];
    assert_eq!(generate_edges(&points), None);
    assert_eq!(build_queue(&points), None);
    assert!(matches!(Engine::build(&points), Err(ClusterError::DistanceOverflow)));
    assert!(Engine::build(&points[..2]).is_ok());
}

#[test]
fn edges_cover_every_pair_once() {
    let points = corner_points();
    let edges = generate_edges(&points).unwrap();
    assert_eq!(edges.len(), 6);
    let pairs: Vec<(usize, usize)> = edges.iter().map(|e| (e.a, e.b)).collect();
    assert_eq!(pairs, vec![(0, 1), (0, 2), (0, 3), (1, 2), (1, 3), (2, 3)]);
    for e in &edges {
        assert_eq!(Some(e.dist), points[e.a].distance(&points[e.b]));
    }
}

#[test]
fn no_edges_for_one_point() {
    assert_eq!(generate_edges(&[Point::new(1, 2, 3)]), Some(vec![]));
    assert_eq!(generate_edges(&[]), Some(vec![]));
}

#[test]
fn queue_is_ascending_with_ties_by_position() {
    let queue = build_queue(&corner_points()).unwrap();
    let expected = vec![
        Edge { a: 0, b: 1, dist: 1 },
        Edge { a: 0, b: 2, dist: 1 },
        Edge { a: 1, b: 2, dist: 1 },
        Edge { a: 1, b: 3, dist: 16 },
        Edge { a: 2, b: 3, dist: 16 },
        Edge { a: 0, b: 3, dist: 17 },
    ];
    assert_eq!(queue, expected);
}

#[test]
fn sort_edges_orders_and_keeps_every_edge() {
    let edges = vec![
        Edge { a: 2, b: 3, dist: 9 },
        Edge { a: 0, b: 1, dist: 4 },
        Edge { a: 1, b: 2, dist: 4 },
        Edge { a: 0, b: 3, dist: 1 },
        Edge { a: 0, b: 2, dist: 4 },
    ];
    let sorted = sort_edges(edges);
    assert_eq!(
        sorted,
        vec![
            Edge { a: 0, b: 3, dist: 1 },
            Edge { a: 0, b: 1, dist: 4 },
            Edge { a: 0, b: 2, dist: 4 },
            Edge { a: 1, b: 2, dist: 4 },
            Edge { a: 2, b: 3, dist: 9 },
        ]
    );
    assert_eq!(sort_edges(vec![]), vec![]);
}

#[test]
fn edge_before_compares_distance_first() {
    let near = Edge { a: 5, b: 6, dist: 1 };
    let far = Edge { a: 0, b: 1, dist: 2 };
    assert!(edge_before(&near, &far));
    assert!(!edge_before(&far, &near));
    assert!(edge_before(&near, &near));
    assert!(edge_before(&Edge { a: 0, b: 2, dist: 2 }, &Edge { a: 1, b: 2, dist: 2 }));
    assert!(edge_before(&Edge { a: 0, b: 1, dist: 2 }, &Edge { a: 0, b: 2, dist: 2 }));
    assert!(!edge_before(&Edge { a: 0, b: 2, dist: 2 }, &Edge { a: 0, b: 1, dist: 2 }));
}

#[test]
fn dedup_keeps_first_occurrences() {
    let points = vec![
        Point::new(1, 1, 1),
        Point::new(2, 2, 2),
        Point::new(1, 1, 1),
        Point::new(3, 3, 3),
        Point::new(2, 2, 2),
    ];
    assert_eq!(
        dedup_points(&points),
        vec![Point::new(1, 1, 1), Point::new(2, 2, 2), Point::new(3, 3, 3)]
    );
}

#[test]
fn partition_starts_with_every_position_alone() {
    let mut p = Partition::new(4);
    assert_eq!(p.len(), 4);
    assert_eq!(p.component_count(), 4);
    assert_eq!(p.cluster_sizes(), vec![]);
    assert!(!p.is_fully_connected());
    assert_eq!(p.find(2), Some(2));
    assert_eq!(p.find(4), None);
    assert!(p.same_cluster(1, 1));
    assert!(!p.same_cluster(0, 1));
    assert!(!p.same_cluster(0, 9));
}

#[test]
fn partition_merge_reports_each_outcome() {
    let mut p = Partition::new(6);
    assert_eq!(p.merge(4, 5), Some(MergeOutcome::Created));
    assert_eq!(p.cluster_sizes(), vec![2]);
    assert_eq!(p.merge(0, 1), Some(MergeOutcome::Created));
    assert_eq!(p.cluster_sizes(), vec![2, 2]);
    assert_eq!(p.merge(1, 2), Some(MergeOutcome::Grew));
    assert_eq!(p.cluster_sizes(), vec![3, 2]);
    assert_eq!(p.merge(0, 2), Some(MergeOutcome::Redundant));
    assert_eq!(p.cluster_sizes(), vec![3, 2]);
    assert_eq!(p.component_count(), 3);
    assert_eq!(p.merge(5, 2), Some(MergeOutcome::Unioned));
    assert_eq!(p.cluster_sizes(), vec![5]);
    assert_eq!(p.find(5), Some(0));
    assert_eq!(p.find(3), Some(3));
    assert_eq!(p.component_count(), 2);
    assert!(!p.is_fully_connected());
    assert_eq!(p.merge(3, 4), Some(MergeOutcome::Grew));
    assert!(p.is_fully_connected());
    assert_eq!(p.cluster_sizes(), vec![6]);
    assert_eq!(p.component_count(), 1);
}

#[test]
fn partition_merge_rejects_positions_out_of_range() {
    let mut p = Partition::new(3);
    assert_eq!(p.merge(0, 3), None);
    assert_eq!(p.merge(7, 1), None);
    assert_eq!(p.component_count(), 3);
    assert_eq!(p.unite(0, 2), MergeOutcome::Created);
    assert!(p.same_cluster(2, 0));
}

#[test]
fn partition_labels_are_the_smallest_positions_after_long_chains() {
    let mut p = Partition::new(8);
    for (a, b) in [(7, 6), (5, 4), (6, 4), (3, 2), (1, 0), (2, 0)] {
        p.unite(a, b);
    }
    assert_eq!(p.cluster_sizes(), vec![4, 4]);
    for i in 0..4 {
        assert_eq!(p.find(i), Some(0));
        assert_eq!(p.find(i + 4), Some(4));
    }
    assert_eq!(p.unite(7, 3), MergeOutcome::Unioned);
    for i in 0..8 {
        assert_eq!(p.find(i), Some(0));
        assert_eq!(p.find(i), Some(0));
    }
    assert_eq!(p.cluster_sizes(), vec![8]);
    assert_eq!(p.component_count(), 1);
    assert!(p.is_fully_connected());
}

#[test]
fn partition_agrees_with_plain_relabelling() {
    let n: usize = 40;
    let mut p = Partition::new(n);
    let mut labels: Vec<usize> = (0..n).collect();
    let mut seed: u64 = 12345;
    for _ in 0..60 {
        seed = seed.wrapping_mul(6364136223846793005).wrapping_add(1442695040888963407);
        let a = ((seed >> 33) % n as u64) as usize;
        seed = seed.wrapping_mul(6364136223846793005).wrapping_add(1442695040888963407);
        let b = ((seed >> 33) % n as u64) as usize;
        let (la, lb) = (labels[a], labels[b]);
        let count = |l: usize| labels.iter().filter(|&&x| x == l).count();
        let expected = if la == lb {
            MergeOutcome::Redundant
        } else if count(la) == 1 && count(lb) == 1 {
            MergeOutcome::Created
        } else if count(la) == 1 || count(lb) == 1 {
            MergeOutcome::Grew
        } else {
            MergeOutcome::Unioned
        };
        assert_eq!(p.unite(a, b), expected);
        let (lo, hi) = (la.min(lb), la.max(lb));
        for l in labels.iter_mut() {
            if *l == hi {
                *l = lo;
            }
        }
        for i in 0..n {
            assert_eq!(p.find(i), Some(labels[i]));
        }
        assert_eq!(p.same_cluster(a, b), true);
        let roots = (0..n).filter(|&i| labels[i] == i).count();
        assert_eq!(p.component_count(), roots);
        let sizes: Vec<usize> = (0..n)
            .map(|l| labels.iter().filter(|&&x| x == l).count())
            .filter(|&c| c >= 2)
            .collect();
        assert_eq!(p.cluster_sizes(), sizes);
    }
}

#[test]
fn single_position_is_never_fully_connected() {
    let p = Partition::new(1);
    assert!(!p.is_fully_connected());
    assert!(!Partition::new(0).is_fully_connected());
}

#[test]
fn build_rejects_empty_input() {
    assert!(matches!(Engine::build(&[]), Err(ClusterError::InsufficientPoints)));
}

#[test]
fn build_removes_duplicate_points() {
    let engine = Engine::build(&[Point::new(5, 5, 5), Point::new(5, 5, 5), Point::new(6, 5, 5)])
        .unwrap();
    assert_eq!(engine.point_count(), 2);
    assert_eq!(engine.remaining(), 1);
    assert_eq!(engine.point(0), Some(Point::new(5, 5, 5)));
    assert_eq!(engine.point(1), Some(Point::new(6, 5, 5)));
    assert_eq!(engine.point(2), None);
}

#[test]
fn near_origin_cluster_forms_before_the_outlier_joins() {
    let mut engine = Engine::build(&corner_points()).unwrap();
    let sizes = engine.run_bounded(2).unwrap();
    assert_eq!(sizes, vec![3]);
    assert_eq!(engine.steps_taken(), 2);
    assert!(!engine.is_fully_connected());
    let edge = engine.run_to_full_connectivity().unwrap();
    assert_eq!(edge, Edge { a: 1, b: 3, dist: 16 });
    assert_eq!(engine.point(edge.b), Some(Point::new(10, 10, 10)));
    assert!(engine.is_fully_connected());
    assert_eq!(engine.cluster_sizes(), vec![4]);
    assert_eq!(engine.steps_taken(), 4);
}

#[test]
fn single_point_cannot_reach_full_connectivity() {
    let mut engine = Engine::build(&[Point::new(7, 7, 7)]).unwrap();
    assert_eq!(engine.run_to_full_connectivity(), Err(ClusterError::InsufficientPoints));
    assert_eq!(engine.steps_taken(), 0);
    assert_eq!(engine.cluster_sizes(), vec![]);
    assert!(!engine.is_fully_connected());
}

#[test]
fn repeated_single_point_cannot_reach_full_connectivity() {
    let mut engine = Engine::build(&[Point::new(7, 7, 7), Point::new(7, 7, 7)]).unwrap();
    assert_eq!(engine.run_to_full_connectivity(), Err(ClusterError::InsufficientPoints));
}

#[test]
fn step_consumes_edges_in_order_and_then_fails() {
    let mut engine = Engine::build(&corner_points()).unwrap();
    let queue = build_queue(&corner_points()).unwrap();
    let expected = [
        MergeOutcome::Created,
        MergeOutcome::Grew,
        MergeOutcome::Redundant,
        MergeOutcome::Grew,
        MergeOutcome::Redundant,
        MergeOutcome::Redundant,
    ];
    for k in 0..6 {
        assert_eq!(engine.remaining(), 6 - k);
        let event = engine.step().unwrap();
        assert_eq!(event, MergeEvent { edge: queue[k], outcome: expected[k] });
    }
    assert_eq!(engine.step(), Err(ClusterError::QueueExhausted));
    assert_eq!(engine.steps_taken(), 6);
    assert_eq!(engine.remaining(), 0);
}

#[test]
fn run_bounded_fails_without_stepping_when_edges_run_short() {
    let mut engine = Engine::build(&corner_points()).unwrap();
    assert_eq!(engine.run_bounded(7), Err(ClusterError::QueueExhausted));
    assert_eq!(engine.steps_taken(), 0);
    assert_eq!(engine.run_bounded(6), Ok(vec![4]));
    assert_eq!(engine.run_bounded(1), Err(ClusterError::QueueExhausted));
    assert_eq!(engine.run_bounded(0), Ok(vec![4]));
    let mut lonely = Engine::build(&[Point::new(0, 0, 0)]).unwrap();
    assert_eq!(lonely.run_bounded(1), Err(ClusterError::QueueExhausted));
    assert_eq!(lonely.run_bounded(0), Ok(vec![]));
}

#[test]
fn untouched_points_are_left_out_of_the_sizes() {
    let mut engine = Engine::build(&line_points(6)).unwrap();
    assert_eq!(engine.run_bounded(0).unwrap(), vec![]);
    assert_eq!(engine.run_bounded(1).unwrap(), vec![2]);
    assert_eq!(engine.run_bounded(1).unwrap(), vec![3]);
}

#[test]
fn bridge_is_reported_even_after_it_was_crossed() {
    let mut engine = Engine::build(&corner_points()).unwrap();
    assert_eq!(engine.run_bounded(6), Ok(vec![4]));
    assert_eq!(engine.run_to_full_connectivity(), Ok(Edge { a: 1, b: 3, dist: 16 }));
    assert_eq!(engine.steps_taken(), 6);
}

#[test]
fn consumed_edges_never_get_shorter() {
    let mut engine = Engine::build(&line_points(9)).unwrap();
    let mut last = 0;
    while let Ok(event) = engine.step() {
        assert!(event.edge.dist >= last);
        last = event.edge.dist;
    }
    assert_eq!(engine.steps_taken(), 36);
}

#[test]
fn component_count_falls_by_one_on_each_genuine_merge() {
    let mut engine = Engine::build(&line_points(8)).unwrap();
    let mut components = 8;
    let mut clusters = 0;
    while let Ok(event) = engine.step() {
        match event.outcome {
            MergeOutcome::Redundant => {}
            MergeOutcome::Created => {
                components -= 1;
                clusters += 1;
            }
            MergeOutcome::Grew => components -= 1,
            MergeOutcome::Unioned => {
                components -= 1;
                clusters -= 1;
            }
        }
        let sizes = engine.cluster_sizes();
        assert_eq!(sizes.len(), clusters);
        let clustered: usize = sizes.iter().sum();
        assert_eq!(8 - clustered + sizes.len(), components);
        assert!(sizes.iter().all(|&s| s >= 2));
    }
    assert_eq!(components, 1);
}

#[test]
fn full_connectivity_comes_within_all_pairs() {
    for n in 2..12usize {
        let points = line_points(n);
        let mut engine = Engine::build(&points).unwrap();
        let edge = engine.run_to_full_connectivity().unwrap();
        assert!(engine.steps_taken() <= n * (n - 1) / 2);
        assert_eq!(engine.cluster_sizes(), vec![n]);
        assert_eq!(edge.a + 1, edge.b);
        assert_eq!(edge.b, n - 1);
    }
}

#[test]
fn repeated_runs_agree() {
    let points = line_points(10);
    let mut first = Engine::build(&points).unwrap();
    let mut second = Engine::build(&points).unwrap();
    assert_eq!(first.run_bounded(7), second.run_bounded(7));
    assert_eq!(first.run_to_full_connectivity(), second.run_to_full_connectivity());
    assert_eq!(first.steps_taken(), second.steps_taken());
}

#[test]
fn product_of_three_largest_sizes() {
    assert_eq!(product_of_top_three(&[2, 5, 4, 2]), Some(40));
    assert_eq!(product_of_top_three(&[3, 3, 3]), Some(27));
    assert_eq!(product_of_top_three(&[1, 9, 1, 9, 2]), Some(162));
    assert_eq!(product_of_top_three(&[7, 0, 0, 0]), Some(0));
    assert_eq!(product_of_top_three(&[usize::MAX, 2, 1]), None);
    assert_eq!(product_of_top_three(&[usize::MAX, usize::MAX, 0]), Some(0));
    assert_eq!(product_of_top_three(&[usize::MAX, 1, 1, 1]), Some(usize::MAX));
}
