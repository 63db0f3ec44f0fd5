use paper_scan::corners::corners_from_points;
use paper_scan::{
    cluster_lines, euclidean_distance, find_hough_intersections, polarline_intersection,
    rectification, resolve_corners, top_four, MeanLine, Point, PolarLine, Quadrilateral, UNIT,
};

fn directions() -> Vec<(i16, i16)> {
    (0..180)
        .map(|a: i32| {
            let t = (a as f64).to_radians();
            let u = UNIT as f64;
            ((t.cos() * u).round() as i16, (t.sin() * u).round() as i16)
        })
        .collect()
}

fn line(angle: u32, r: i32) -> PolarLine {
    PolarLine { angle_in_degrees: angle, r }
}

fn rectangle_lines() -> Vec<PolarLine> {
    vec![line(0, 10), line(0, 90), line(90, 10), line(90, 90)]
}

#[test]
fn axis_aligned_rectangle_corners() {
    let q = find_hough_intersections(&rectangle_lines(), 100, 100, &directions()).unwrap();
    assert_eq!(q.top_left, Point(10, 10));
    assert_eq!(q.top_right, Point(90, 10));
    assert_eq!(q.bottom_left, Point(10, 90));
    assert_eq!(q.bottom_right, Point(90, 90));
}

#[test]
fn rectangle_corners_do_not_depend_on_edge_order() {
    let lines = vec![line(90, 90), line(0, 10), line(90, 10), line(0, 90)];
    let q = find_hough_intersections(&lines, 100, 100, &directions()).unwrap();
    assert_eq!(q, Quadrilateral::new(Point(10, 10), Point(90, 10), Point(10, 90), Point(90, 90)));
}

#[test]
fn near_duplicate_lines_are_merged() {
    let mut lines = rectangle_lines();
    lines.push(line(1, 12));
    lines.push(line(89, 88));
    let clusters = cluster_lines(&lines, 100);
    assert_eq!(clusters.len(), 4);
    assert_eq!(clusters[0].members(), &vec![line(0, 10), line(1, 12)]);
    assert_eq!(clusters[3].members(), &vec![line(90, 90), line(89, 88)]);
    let rep = clusters[0].representative();
    assert_eq!(rep, MeanLine { angle_in_degrees: 0, radius_total: 22, count: 2 });
    let rep = clusters[3].representative();
    assert_eq!(rep, MeanLine { angle_in_degrees: 89, radius_total: 178, count: 2 });
}

#[test]
fn a_line_joins_only_the_first_cluster_that_fits() {
    // The third line is close to both earlier ones, which stay apart.
    let lines = vec![line(0, 10), line(15, 10), line(8, 10)];
    let clusters = cluster_lines(&lines, 100);
    assert_eq!(clusters.len(), 2);
    assert_eq!(clusters[0].len(), 2);
    assert_eq!(clusters[1].len(), 1);
}

#[test]
fn tolerances_are_strict() {
    // Angles 10 degrees apart, or radii 5 apart in a 100 pixel image, stay apart.
    let clusters = cluster_lines(&vec![line(0, 10), line(10, 10), line(0, 15)], 100);
    assert_eq!(clusters.len(), 3);
    let clusters = cluster_lines(&vec![line(0, 10), line(9, 14)], 100);
    assert_eq!(clusters.len(), 1);
}

#[test]
fn angle_difference_does_not_wrap() {
    let clusters = cluster_lines(&vec![line(0, 10), line(179, 10)], 100);
    assert_eq!(clusters.len(), 2);
}

#[test]
fn clustering_is_deterministic() {
    let mut lines = rectangle_lines();
    lines.push(line(2, 11));
    lines.push(line(91, 89));
    let a = cluster_lines(&lines, 100);
    let b = cluster_lines(&lines, 100);
    assert_eq!(a.len(), b.len());
    for i in 0..a.len() {
        assert_eq!(a[i].members(), b[i].members());
    }
}

#[test]
fn largest_clusters_come_first_ties_in_order() {
    let lines = vec![
        line(0, 10),
        line(90, 10),
        line(90, 11),
        line(45, 50),
        line(135, 20),
        line(170, 60),
        line(45, 51),
    ];
    let clusters = cluster_lines(&lines, 100);
    assert_eq!(clusters.len(), 5);
    assert_eq!(top_four(&clusters), vec![1, 2, 0, 3]);
}

#[test]
fn fewer_than_four_lines_find_nothing() {
    let lines = vec![line(0, 10), line(90, 10), line(0, 90)];
    assert!(cluster_lines(&lines, 100).len() < 4);
    assert_eq!(find_hough_intersections(&lines, 100, 100, &directions()), None);
    assert_eq!(find_hough_intersections(&vec![], 100, 100, &directions()), None);
}

#[test]
fn edges_outside_the_image_find_nothing() {
    let lines = vec![line(0, 10), line(0, 150), line(90, 10), line(90, 90)];
    assert_eq!(find_hough_intersections(&lines, 100, 100, &directions()), None);
}

#[test]
fn parallel_lines_do_not_intersect() {
    let d = directions();
    let a = MeanLine { angle_in_degrees: 30, radius_total: 10, count: 1 };
    let b = MeanLine { angle_in_degrees: 30, radius_total: 40, count: 1 };
    assert_eq!(polarline_intersection(&a, &b, 100, 100, &d), None);
}

#[test]
fn intersection_lies_on_both_lines() {
    let d = directions();
    let a = MeanLine::from_line(&line(0, 30));
    let b = MeanLine::from_line(&line(45, 50));
    // x = 30, y = (50 * sqrt(2) - 30) = 40.71...
    assert_eq!(polarline_intersection(&a, &b, 100, 100, &d), Some(Point(30, 40)));
    let m = MeanLine { angle_in_degrees: 90, radius_total: 41, count: 2 };
    // y = 20.5
    assert_eq!(polarline_intersection(&a, &m, 100, 100, &d), Some(Point(30, 20)));
}

#[test]
fn intersection_on_the_border_is_kept() {
    let d = directions();
    let a = MeanLine { angle_in_degrees: 0, radius_total: 100, count: 1 };
    let b = MeanLine { angle_in_degrees: 90, radius_total: 0, count: 1 };
    assert_eq!(polarline_intersection(&a, &b, 100, 100, &d), Some(Point(100, 0)));
    let a = MeanLine { angle_in_degrees: 0, radius_total: 101, count: 1 };
    assert_eq!(polarline_intersection(&a, &b, 100, 100, &d), None);
    let a = MeanLine { angle_in_degrees: 0, radius_total: -1, count: 1 };
    assert_eq!(polarline_intersection(&a, &b, 100, 100, &d), None);
}

#[test]
fn resolve_corners_of_four_edges() {
    let edges: Vec<MeanLine> = rectangle_lines().iter().map(MeanLine::from_line).collect();
    let q = resolve_corners(&edges, 100, 100, &directions()).unwrap();
    assert_eq!(q, Quadrilateral::new(Point(10, 10), Point(90, 10), Point(10, 90), Point(90, 90)));
    assert_eq!(resolve_corners(&edges, 50, 50, &directions()), None);
}

#[test]
fn corners_named_from_points() {
    let pts = vec![Point(90, 95), Point(12, 8), Point(88, 10), Point(10, 90)];
    let q = corners_from_points(&pts);
    assert_eq!(q, Quadrilateral::new(Point(12, 8), Point(88, 10), Point(10, 90), Point(90, 95)));
}

#[test]
fn area_of_square() {
    let q = Quadrilateral::new(Point(0, 0), Point(10, 0), Point(0, 10), Point(10, 10));
    assert_eq!(q.area().abs(), 100);
    assert_eq!(q.double_area(), 200);
}

#[test]
fn area_sign_follows_winding() {
    let q = Quadrilateral::new(Point(0, 0), Point(0, 10), Point(10, 0), Point(10, 10));
    assert_eq!(q.area(), -100);
    let tri = Quadrilateral::new(Point(0, 0), Point(3, 0), Point(0, 3), Point(0, 3));
    assert_eq!(tri.double_area(), 9);
    assert_eq!(tri.area(), 4);
}

#[test]
fn control_points_order() {
    let q = Quadrilateral::new(Point(1, 2), Point(3, 4), Point(5, 6), Point(7, 8));
    assert_eq!(q.as_control_points(), [Point(1, 2), Point(3, 4), Point(7, 8), Point(5, 6)]);
}

#[test]
fn scale_then_translate() {
    let q = Quadrilateral::new(Point(3, 5), Point(21, 4), Point(2, 17), Point(19, 19));
    let r = q.times_ratio(3, 2).translate(&Point(10, 100));
    assert_eq!(r, Quadrilateral::new(Point(14, 107), Point(41, 106), Point(13, 125), Point(38, 128)));
}

#[test]
fn scale_truncates_and_saturates() {
    assert_eq!(Point(7, 9).times_ratio(1, 2), Point(3, 4));
    assert_eq!(Point(u32::MAX, 1).times_ratio(2, 1), Point(u32::MAX, 2));
}

#[test]
fn distance_rounds_down() {
    assert_eq!(euclidean_distance(&Point(0, 0), &Point(3, 4)), 5);
    assert_eq!(euclidean_distance(&Point(0, 0), &Point(1, 1)), 1);
    assert_eq!(euclidean_distance(&Point(0, 0), &Point(u32::MAX, u32::MAX)), 6074000998);
}

#[test]
fn rectification_of_upright_rectangle() {
    let q = Quadrilateral::new(Point(10, 20), Point(60, 20), Point(10, 50), Point(60, 50));
    let r = rectification(&q, 1, 1).unwrap();
    assert_eq!(r.source, q);
    assert_eq!((r.width, r.height), (50, 30));
    assert_eq!(r.target, q);
}

#[test]
fn rectification_takes_shorter_edges() {
    let q = Quadrilateral::new(Point(10, 10), Point(50, 12), Point(12, 40), Point(40, 38));
    let r = rectification(&q, 2, 1).unwrap();
    assert_eq!(r.source, Quadrilateral::new(Point(20, 20), Point(100, 24), Point(24, 80), Point(80, 76)));
    // bottom edge sqrt(56^2 + 4^2) = 56.14, top edge sqrt(80^2 + 4^2) = 80.09
    assert_eq!(r.width, 56);
    // right edge sqrt(20^2 + 52^2) = 55.71, left edge sqrt(4^2 + 60^2) = 60.13
    assert_eq!(r.height, 55);
    assert_eq!(r.target, Quadrilateral::new(Point(20, 20), Point(76, 20), Point(20, 75), Point(76, 75)));
}

#[test]
fn rectification_out_of_range() {
    let q = Quadrilateral::new(Point(u32::MAX - 1, 0), Point(u32::MAX - 20, 0), Point(0, 10), Point(30, 10));
    assert_eq!(rectification(&q, 1, 1), None);
}

#[test]
fn negative_radii_are_averaged_exactly() {
    let clusters = cluster_lines(&vec![line(120, -7), line(121, -8), line(119, -8)], 200);
    assert_eq!(clusters.len(), 1);
    let rep = clusters[0].representative();
    assert_eq!(rep, MeanLine { angle_in_degrees: 120, radius_total: -23, count: 3 });
}

#[test]
fn reversed_winding_negates_area() {
    let q = Quadrilateral::new(Point(0, 0), Point(3, 0), Point(0, 3), Point(0, 3));
    let r = Quadrilateral::new(q.top_left, q.bottom_left, q.top_right, q.bottom_right);
    assert_eq!(q.area(), 4);
    assert_eq!(r.area(), -4);
    assert_eq!(r.double_area(), -q.double_area());
    let s = Quadrilateral::new(Point(2, 1), Point(40, 7), Point(5, 33), Point(37, 41));
    let t = Quadrilateral::new(s.top_left, s.bottom_left, s.top_right, s.bottom_right);
    assert_eq!(t.area(), -s.area());
}

#[test]
fn rectangle_corners_in_every_line_order() {
    let edges = rectangle_lines();
    let d = directions();
    let expected = Quadrilateral::new(Point(10, 10), Point(90, 10), Point(10, 90), Point(90, 90));
    for a in 0..4 {
        for b in 0..4 {
            for c in 0..4 {
                for e in 0..4 {
                    let order = [a, b, c, e];
                    let distinct = (0..4).all(|i| (0..4).all(|j| i == j || order[i] != order[j]));
                    if !distinct {
                        continue;
                    }
                    let lines: Vec<PolarLine> = order.iter().map(|&i| edges[i]).collect();
                    assert_eq!(find_hough_intersections(&lines, 100, 100, &d), Some(expected));
                }
            }
        }
    }
}
