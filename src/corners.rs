use vstd::prelude::*;
use crate::geometry::{Point, Quadrilateral};
use vstd::arithmetic::mul::{
    lemma_mul_is_associative, lemma_mul_is_commutative, lemma_mul_is_distributive_sub,
    lemma_mul_is_distributive_sub_other_way,
};
use crate::lines::{
    LineCluster, MeanLine, PolarLine, clustered, cluster_lines, cluster_views, is_top_four,
    mean_line, top_four, lemma_clustered_shape, lemma_sums_bounded, mean_angle, angle_sum,
    radius_sum, joins, first_fit_from, lemma_top_four_unique,
};

verus! {

/// Scale of a direction table: entry `(c, s)` for an angle stands for the unit vector
/// `(c / UNIT, s / UNIT)`, i.e. `(cos(angle), sin(angle))`.
pub const UNIT: i16 = 16384;

/// Every entry of the direction table lies within `[-UNIT, UNIT]`.
pub open spec fn unit_bounded(dirs: Seq<(i16, i16)>) -> bool {
    forall|i: int|
        0 <= i < dirs.len() ==> -UNIT <= (#[trigger] dirs[i]).0 <= UNIT && -UNIT <= dirs[i].1 <= UNIT
}

/// The line's angle has an entry in the direction table.
pub open spec fn in_table(l: MeanLine, dirs: Seq<(i16, i16)>) -> bool {
    l.count >= 1 && l.angle_in_degrees < dirs.len()
}

/// The exact crossing point of two lines as `(x, y, den)`, standing for
/// `(x / den, y / den)` with `den >= 0`; `den == 0` when the lines are parallel.
pub open spec fn crossing(a: MeanLine, b: MeanLine, dirs: Seq<(i16, i16)>) -> (int, int, int) {
    let ca = dirs[a.angle_in_degrees as int].0 as int;
    let sa = dirs[a.angle_in_degrees as int].1 as int;
    let cb = dirs[b.angle_in_degrees as int].0 as int;
    let sb = dirs[b.angle_in_degrees as int].1 as int;
    let pa = a.radius_total as int;
    let qa = a.count as int;
    let pb = b.radius_total as int;
    let qb = b.count as int;
    let det = sa * cb - ca * sb;
    let x = UNIT * (pb * qa * sa - pa * qb * sb);
    let y = UNIT * (pa * qb * cb - pb * qa * ca);
    let den = qa * qb * det;
    if den < 0 {
        (-x, -y, -den)
    } else {
        (x, y, den)
    }
}

/// The point `(x / den, y / den)` lies on line `l`:
/// `x / den * cos + y / den * sin == radius_total / count`.
pub open spec fn on_line(l: MeanLine, dirs: Seq<(i16, i16)>, x: int, y: int, den: int) -> bool {
    let c = dirs[l.angle_in_degrees as int].0 as int;
    let s = dirs[l.angle_in_degrees as int].1 as int;
    l.count * (x * c + y * s) == UNIT * l.radius_total * den
}

/// Where lines `a` and `b` cross, rounded down to whole pixels, when they do cross
/// inside `[0, width] x [0, height]`.
pub open spec fn intersection(a: MeanLine, b: MeanLine, dirs: Seq<(i16, i16)>, width: u32, height: u32) -> Option<Point> {
    let (x, y, den) = crossing(a, b, dirs);
    if den != 0 && 0 <= x <= width * den && 0 <= y <= height * den {
        Some(Point((x / den) as u32, (y / den) as u32))
    } else {
        None
    }
}

proof fn lemma_mul_bound(x: int, y: int, bx: int, by: int)
    requires
        -bx <= x <= bx,
        -by <= y <= by,
    ensures
        -(bx * by) <= x * y <= bx * by,
{
    assert(-(bx * by) <= x * y <= bx * by) by (nonlinear_arith)
        requires
            -bx <= x <= bx,
            -by <= y <= by,
    ;
}

/// Where lines `a` and `b` cross inside `[0, width] x [0, height]`, if they do.
pub fn polarline_intersection(
    a: &MeanLine,
    b: &MeanLine,
    width: u32,
    height: u32,
    directions: &Vec<(i16, i16)>,
) -> (r: Option<Point>)
    requires
        in_table(*a, directions@),
        in_table(*b, directions@),
        unit_bounded(directions@),
    ensures
        r == intersection(*a, *b, directions@, width, height),
{
    let da = directions[a.angle_in_degrees as usize];
    let db = directions[b.angle_in_degrees as usize];
    let ca = da.0 as i128;
    let sa = da.1 as i128;
    let cb = db.0 as i128;
    let sb = db.1 as i128;
    let pa = a.radius_total as i128;
    let qa = a.count as i128;
    let pb = b.radius_total as i128;
    let qb = b.count as i128;
    let u = UNIT as i128;
    let k14: i128 = 0x4000;
    let k28: i128 = 0x1000_0000;
    let k32: i128 = 0x1_0000_0000;
    let k63: i128 = 0x8000_0000_0000_0000;
    proof {
        assert(directions@[a.angle_in_degrees as int] == da);
        assert(directions@[b.angle_in_degrees as int] == db);
        lemma_mul_bound(sa as int, cb as int, k14 as int, k14 as int);
        lemma_mul_bound(ca as int, sb as int, k14 as int, k14 as int);
        lemma_mul_bound(pb as int, qa as int, k63 as int, k32 as int);
        lemma_mul_bound(pa as int, qb as int, k63 as int, k32 as int);
        lemma_mul_bound(qa as int, qb as int, k32 as int, k32 as int);
    }
    let det = sa * cb - ca * sb;
    let t1 = pb * qa;
    let t2 = pa * qb;
    let qq = qa * qb;
    proof {
        lemma_mul_bound(t1 as int, sa as int, (k63 * k32) as int, k14 as int);
        lemma_mul_bound(t2 as int, sb as int, (k63 * k32) as int, k14 as int);
        lemma_mul_bound(t2 as int, cb as int, (k63 * k32) as int, k14 as int);
        lemma_mul_bound(t1 as int, ca as int, (k63 * k32) as int, k14 as int);
        lemma_mul_bound(qq as int, det as int, (k32 * k32) as int, (2 * k28) as int);
    }
    let xs = t1 * sa - t2 * sb;
    let ys = t2 * cb - t1 * ca;
    proof {
        lemma_mul_bound(u as int, xs as int, k14 as int, (2 * k63 * k32 * k14) as int);
        lemma_mul_bound(u as int, ys as int, k14 as int, (2 * k63 * k32 * k14) as int);
    }
    let mut x = u * xs;
    let mut y = u * ys;
    let mut den = qq * det;
    if den < 0 {
        x = -x;
        y = -y;
        den = -den;
    }
    if den == 0 {
        return None;
    }
    proof {
        lemma_mul_bound(width as int, den as int, k32 as int, (k32 * k32 * 2 * k28) as int);
        lemma_mul_bound(height as int, den as int, k32 as int, (k32 * k32 * 2 * k28) as int);
    }
    let wd = width as i128 * den;
    let hd = height as i128 * den;
    if 0 <= x && x <= wd && 0 <= y && y <= hd {
        proof {
            assert(0 <= x / den <= width) by (nonlinear_arith)
                requires
                    0 <= x <= width * den,
                    den > 0,
            ;
            assert(0 <= y / den <= height) by (nonlinear_arith)
                requires
                    0 <= y <= height * den,
                    den > 0,
            ;
        }
        Some(Point((x / den) as u32, (y / den) as u32))
    } else {
        None
    }
}


/// A reported intersection point is where the two lines meet: the exact crossing point
/// lies on both lines, inside the bounds, and the reported point is that exact point
/// with each coordinate rounded down.
pub proof fn lemma_intersection_on_both_lines(
    a: MeanLine,
    b: MeanLine,
    dirs: Seq<(i16, i16)>,
    width: u32,
    height: u32,
)
    requires
        in_table(a, dirs),
        in_table(b, dirs),
        intersection(a, b, dirs, width, height) is Some,
    ensures
        ({
            let (x, y, den) = crossing(a, b, dirs);
            let p = intersection(a, b, dirs, width, height)->Some_0;
            &&& den > 0
            &&& on_line(a, dirs, x, y, den)
            &&& on_line(b, dirs, x, y, den)
            &&& 0 <= x <= width * den && 0 <= y <= height * den
            &&& p.0 * den <= x < (p.0 + 1) * den
            &&& p.1 * den <= y < (p.1 + 1) * den
        }),
{
    let ca = dirs[a.angle_in_degrees as int].0 as int;
    let sa = dirs[a.angle_in_degrees as int].1 as int;
    let cb = dirs[b.angle_in_degrees as int].0 as int;
    let sb = dirs[b.angle_in_degrees as int].1 as int;
    let pa = a.radius_total as int;
    let qa = a.count as int;
    let pb = b.radius_total as int;
    let qb = b.count as int;
    let u = UNIT as int;
    let ka = pb * qa;
    let kb = pa * qb;
    let det = sa * cb - ca * sb;
    let x0 = u * (ka * sa - kb * sb);
    let y0 = u * (kb * cb - ka * ca);
    let d0 = qa * qb * det;
    lemma_expand(u, ka, sa, kb, sb, ca);
    lemma_expand(u, kb, cb, ka, ca, sa);
    lemma_expand(u, ka, sa, kb, sb, cb);
    lemma_expand(u, kb, cb, ka, ca, sb);
    lemma_mul_is_commutative(sa, ca);
    lemma_mul_is_commutative(sb, cb);
    lemma_mul_is_commutative(sa, cb);
    lemma_mul_is_commutative(sb, ca);
    lemma_mul_is_distributive_sub(u * kb, cb * sa, sb * ca);
    lemma_mul_is_distributive_sub(u * ka, sa * cb, ca * sb);
    assert(x0 * ca + y0 * sa == u * kb * det);
    assert(x0 * cb + y0 * sb == u * ka * det);
    assert(qa * (u * kb * det) == u * pa * d0) by (nonlinear_arith)
        requires
            kb == pa * qb,
            d0 == qa * qb * det,
    ;
    assert(qb * (u * ka * det) == u * pb * d0) by (nonlinear_arith)
        requires
            ka == pb * qa,
            d0 == qa * qb * det,
    ;
    assert(qa * ((-x0) * ca + (-y0) * sa) == u * pa * (-d0)) by (nonlinear_arith)
        requires
            qa * (x0 * ca + y0 * sa) == u * pa * d0,
    ;
    assert(qb * ((-x0) * cb + (-y0) * sb) == u * pb * (-d0)) by (nonlinear_arith)
        requires
            qb * (x0 * cb + y0 * sb) == u * pb * d0,
    ;
    let (x, y, den) = crossing(a, b, dirs);
    assert((x / den) * den <= x < (x / den + 1) * den) by (nonlinear_arith)
        requires
            den > 0,
    ;
    assert((y / den) * den <= y < (y / den + 1) * den) by (nonlinear_arith)
        requires
            den > 0,
    ;
    assert(0 <= x / den <= width) by (nonlinear_arith)
        requires
            0 <= x <= width * den,
            den > 0,
    ;
    assert(0 <= y / den <= height) by (nonlinear_arith)
        requires
            0 <= y <= height * den,
            den > 0,
    ;
}

proof fn lemma_expand(u: int, k1: int, s1: int, k2: int, s2: int, c: int)
    ensures
        (u * (k1 * s1 - k2 * s2)) * c == u * k1 * (s1 * c) - u * k2 * (s2 * c),
{
    let d = k1 * s1 - k2 * s2;
    lemma_mul_is_associative(u, d, c);
    lemma_mul_is_distributive_sub_other_way(c, k1 * s1, k2 * s2);
    lemma_mul_is_associative(k1, s1, c);
    lemma_mul_is_associative(k2, s2, c);
    lemma_mul_is_distributive_sub(u, k1 * (s1 * c), k2 * (s2 * c));
    lemma_mul_is_associative(u, k1, s1 * c);
    lemma_mul_is_associative(u, k2, s2 * c);
}

/// Parallel lines (the same angle) have no intersection.
pub proof fn lemma_parallel_no_intersection(
    a: MeanLine,
    b: MeanLine,
    dirs: Seq<(i16, i16)>,
    width: u32,
    height: u32,
)
    requires
        in_table(a, dirs),
        in_table(b, dirs),
        a.angle_in_degrees == b.angle_in_degrees,
    ensures
        crossing(a, b, dirs).2 == 0,
        intersection(a, b, dirs, width, height) is None,
{
    let c = dirs[a.angle_in_degrees as int].0 as int;
    let s = dirs[a.angle_in_degrees as int].1 as int;
    assert(s * c - c * s == 0) by (nonlinear_arith);
    assert((a.count as int) * (b.count as int) * (s * c - c * s) == 0) by (nonlinear_arith)
        requires
            s * c - c * s == 0,
    ;
}

/// Point `j` comes before point `i` in order of increasing x, equal x in input order.
pub open spec fn precedes_x(p: Seq<Point>, j: int, i: int) -> bool {
    p[j].0 < p[i].0 || (p[j].0 == p[i].0 && j < i)
}

pub open spec fn indicator(b: bool) -> int {
    if b {
        1
    } else {
        0
    }
}

/// Position of point `i` of four once they are sorted by x (stably).
pub open spec fn x_rank(p: Seq<Point>, i: int) -> int {
    indicator(precedes_x(p, 0, i)) + indicator(precedes_x(p, 1, i)) + indicator(precedes_x(p, 2, i))
        + indicator(precedes_x(p, 3, i))
}

/// Index of the point of four at position `k` once they are sorted by x.
pub open spec fn by_x(p: Seq<Point>, k: int) -> int {
    if x_rank(p, 0) == k {
        0
    } else if x_rank(p, 1) == k {
        1
    } else if x_rank(p, 2) == k {
        2
    } else {
        3
    }
}

/// Sorting four points by x is a permutation: each position holds exactly one point.
pub proof fn lemma_x_order(p: Seq<Point>)
    requires
        p.len() == 4,
    ensures
        forall|i: int| 0 <= i < 4 ==> 0 <= #[trigger] x_rank(p, i) < 4,
        forall|i: int, j: int| 0 <= i < j < 4 ==> #[trigger] x_rank(p, i) != #[trigger] x_rank(p, j),
        forall|k: int| 0 <= k < 4 ==> #[trigger] x_rank(p, by_x(p, k)) == k,
{
}

/// Names four points: of the two with smallest x, the upper is the top left and the other
/// the bottom left; of the two with largest x, the one nearer the top left is the top
/// right and the other the bottom right. Ties keep the order of the sorts.
pub open spec fn assign_corners(p: Seq<Point>) -> Quadrilateral {
    let a = p[by_x(p, 0)];
    let b = p[by_x(p, 1)];
    let tl = if b.1 < a.1 { b } else { a };
    let bl = if b.1 < a.1 { a } else { b };
    let c = p[by_x(p, 2)];
    let e = p[by_x(p, 3)];
    let tr = if c.dist2(tl) < e.dist2(tl) { c } else { e };
    let br = if c.dist2(tl) < e.dist2(tl) { e } else { c };
    Quadrilateral { top_left: tl, top_right: tr, bottom_left: bl, bottom_right: br }
}

fn indicator_exec(b: bool) -> (r: u8)
    ensures
        r == indicator(b),
{
    if b {
        1
    } else {
        0
    }
}

fn before_x(p: &Vec<Point>, j: usize, i: usize) -> (r: u8)
    requires
        p@.len() == 4,
        i < 4,
        j < 4,
    ensures
        r == indicator(precedes_x(p@, j as int, i as int)),
{
    let pi = p[i];
    let pj = p[j];
    indicator_exec(pj.0 < pi.0 || (pj.0 == pi.0 && j < i))
}

fn x_rank_exec(p: &Vec<Point>, i: usize) -> (r: u8)
    requires
        p@.len() == 4,
        i < 4,
    ensures
        r == x_rank(p@, i as int),
{
    before_x(p, 0, i) + before_x(p, 1, i) + before_x(p, 2, i) + before_x(p, 3, i)
}

/// Names the four intersection points of a document's edges as its corners.
pub fn corners_from_points(p: &Vec<Point>) -> (q: Quadrilateral)
    requires
        p@.len() == 4,
    ensures
        q == assign_corners(p@),
{
    let r0 = x_rank_exec(p, 0);
    let r1 = x_rank_exec(p, 1);
    let r2 = x_rank_exec(p, 2);
    let a = p[index_at(r0, r1, r2, 0)];
    let b = p[index_at(r0, r1, r2, 1)];
    let c = p[index_at(r0, r1, r2, 2)];
    let e = p[index_at(r0, r1, r2, 3)];
    let (tl, bl) = if b.1 < a.1 { (b, a) } else { (a, b) };
    let (tr, br) = if c.distance_squared(&tl) < e.distance_squared(&tl) { (c, e) } else { (e, c) };
    Quadrilateral::new(tl, tr, bl, br)
}

fn index_at(r0: u8, r1: u8, r2: u8, k: u8) -> (r: usize)
    ensures
        r < 4,
        r == (if r0 == k { 0int } else if r1 == k { 1int } else if r2 == k { 2int } else { 3int }),
{
    if r0 == k {
        0
    } else if r1 == k {
        1
    } else if r2 == k {
        2
    } else {
        3
    }
}


/// The intersections of the six pairs of four lines, in the order
/// (0, 1), (0, 2), (0, 3), (1, 2), (1, 3), (2, 3).
pub open spec fn pair_points(l: Seq<MeanLine>, dirs: Seq<(i16, i16)>, width: u32, height: u32) -> Seq<Option<Point>> {
    seq![
        intersection(l[0], l[1], dirs, width, height),
        intersection(l[0], l[2], dirs, width, height),
        intersection(l[0], l[3], dirs, width, height),
        intersection(l[1], l[2], dirs, width, height),
        intersection(l[1], l[3], dirs, width, height),
        intersection(l[2], l[3], dirs, width, height),
    ]
}

/// The points that are present, in order.
pub open spec fn found_points(s: Seq<Option<Point>>) -> Seq<Point>
    decreases s.len(),
{
    if s.len() == 0 {
        seq![]
    } else {
        let r = found_points(s.drop_last());
        match s.last() {
            Some(p) => r.push(p),
            None => r,
        }
    }
}

/// The corners that four edge lines give: their pairwise intersections inside the
/// bounds, named as corners when there are exactly four of them.
pub open spec fn corners_of(l: Seq<MeanLine>, dirs: Seq<(i16, i16)>, width: u32, height: u32) -> Option<Quadrilateral> {
    let pts = found_points(pair_points(l, dirs, width, height));
    if pts.len() == 4 {
        Some(assign_corners(pts))
    } else {
        None
    }
}

/// Intersects the four edge lines pairwise and names the corners, when exactly four
/// intersections fall inside `[0, width] x [0, height]`.
pub fn resolve_corners(lines: &Vec<MeanLine>, width: u32, height: u32, directions: &Vec<(i16, i16)>) -> (r: Option<Quadrilateral>)
    requires
        lines@.len() == 4,
        forall|i: int| 0 <= i < 4 ==> in_table(#[trigger] lines@[i], directions@),
        unit_bounded(directions@),
    ensures
        r == corners_of(lines@, directions@, width, height),
{
    let mut opts: Vec<Option<Point>> = Vec::new();
    opts.push(polarline_intersection(&lines[0], &lines[1], width, height, directions));
    opts.push(polarline_intersection(&lines[0], &lines[2], width, height, directions));
    opts.push(polarline_intersection(&lines[0], &lines[3], width, height, directions));
    opts.push(polarline_intersection(&lines[1], &lines[2], width, height, directions));
    opts.push(polarline_intersection(&lines[1], &lines[3], width, height, directions));
    opts.push(polarline_intersection(&lines[2], &lines[3], width, height, directions));
    assert(opts@ =~= pair_points(lines@, directions@, width, height));
    let mut pts: Vec<Point> = Vec::new();
    let mut k: usize = 0;
    while k < opts.len()
        invariant
            k <= opts@.len(),
            pts@ == found_points(opts@.take(k as int)),
        decreases opts@.len() - k,
    {
        assert(opts@.take(k + 1).drop_last() =~= opts@.take(k as int));
        assert(opts@.take(k + 1).last() == opts@[k as int]);
        if let Some(p) = opts[k] {
            pts.push(p);
        }
        k = k + 1;
    }
    assert(opts@.take(k as int) =~= opts@);
    if pts.len() != 4 {
        return None;
    }
    Some(corners_from_points(&pts))
}

/// The mean line of a group whose angles are all below `bound` has an angle below `bound`.
proof fn lemma_mean_angle_below(m: Seq<PolarLine>, bound: int)
    requires
        m.len() >= 1,
        forall|j: int| 0 <= j < m.len() ==> (#[trigger] m[j]).angle_in_degrees < bound,
    ensures
        0 <= mean_angle(m) < bound,
{
    lemma_sums_bounded(m, bound);
    let n = m.len() as int;
    let t = angle_sum(m);
    assert(0 <= t / n < bound) by (nonlinear_arith)
        requires
            0 <= t <= n * (bound - 1),
            n >= 1,
    ;
}

/// The larger of the two sides.
pub open spec fn extent_of(width: u32, height: u32) -> u32 {
    if width >= height {
        width
    } else {
        height
    }
}

/// The edge lines used for the corners: the mean lines of the chosen clusters.
pub open spec fn chosen_lines(cs: Seq<Seq<PolarLine>>, idx: Seq<usize>) -> Seq<MeanLine> {
    idx.map_values(|i: usize| mean_line(cs[i as int]))
}

/// Finds a document's corners from the straight lines detected in an edge image of
/// `width` by `height`: the lines are clustered, the four largest clusters give the
/// edges, and their intersections give the corners. `None` when there are fewer than
/// four clusters, or when the edges do not meet in exactly four points inside the image.
pub fn find_hough_intersections(
    lines: &Vec<PolarLine>,
    width: u32,
    height: u32,
    directions: &Vec<(i16, i16)>,
) -> (r: Option<Quadrilateral>)
    requires
        lines@.len() <= u32::MAX,
        forall|i: int| 0 <= i < lines@.len() ==> (#[trigger] lines@[i]).angle_in_degrees < directions@.len(),
        unit_bounded(directions@),
    ensures
        ({
            let cs = clustered(lines@, extent_of(width, height) as int);
            &&& cs.len() < 4 ==> r is None
            &&& cs.len() >= 4 ==> exists|idx: Seq<usize>|
                is_top_four(cs, idx) && r == corners_of(chosen_lines(cs, idx), directions@, width, height)
        }),
{
    let extent = if width >= height { width } else { height };
    let clusters = cluster_lines(lines, extent);
    let ghost cs = clustered(lines@, extent as int);
    if clusters.len() < 4 {
        return None;
    }
    let top = top_four(&clusters);
    proof {
        lemma_clustered_shape(lines@, extent as int);
    }
    let mut reps: Vec<MeanLine> = Vec::new();
    let mut k: usize = 0;
    while k < 4
        invariant
            k <= 4,
            top@.len() == 4,
            cs == cluster_views(clusters@),
            is_top_four(cs, top@),
            forall|t: int| 0 <= t < clusters@.len() ==> (#[trigger] clusters@[t]).wf(),
            reps@.len() == k,
            forall|t: int| 0 <= t < k ==> #[trigger] reps@[t] == mean_line(cs[top@[t] as int]),
            forall|t: int| 0 <= t < k ==> in_table(#[trigger] reps@[t], directions@),
            forall|c: int, j: int|
                0 <= c < cs.len() && 0 <= j < cs[c].len() ==> lines@.contains(#[trigger] cs[c][j]),
            forall|i: int| 0 <= i < lines@.len() ==> (#[trigger] lines@[i]).angle_in_degrees < directions@.len(),
        decreases 4 - k,
    {
        let c = top[k];
        assert(top@[k as int] < cs.len());
        let rep = clusters[c].representative();
        proof {
            let m = cs[c as int];
            assert(m == clusters@[c as int]@);
            assert forall|j: int| 0 <= j < m.len() implies (#[trigger] m[j]).angle_in_degrees < directions@.len() by {
                assert(lines@.contains(cs[c as int][j]));
                let w = choose|w: int| 0 <= w < lines@.len() && lines@[w] == m[j];
                assert(lines@[w].angle_in_degrees < directions@.len());
            }
            lemma_mean_angle_below(m, directions@.len() as int);
            assert forall|j: int| 0 <= j < m.len() implies (#[trigger] m[j]).angle_in_degrees < 0x1_0000_0000 by {}
            lemma_mean_angle_below(m, 0x1_0000_0000);
            assert(rep.angle_in_degrees == mean_angle(m));
        }
        reps.push(rep);
        k = k + 1;
    }
    assert(reps@ =~= chosen_lines(cs, top@));
    resolve_corners(&reps, width, height, directions)
}


/// The four edges of the upright rectangle from `(10, 10)` to `(90, 90)`: left, right,
/// top and bottom.
pub open spec fn rectangle_edges() -> Seq<MeanLine> {
    seq![
        MeanLine { angle_in_degrees: 0, radius_total: 10, count: 1 },
        MeanLine { angle_in_degrees: 0, radius_total: 90, count: 1 },
        MeanLine { angle_in_degrees: 90, radius_total: 10, count: 1 },
        MeanLine { angle_in_degrees: 90, radius_total: 90, count: 1 },
    ]
}

/// A vertical line `x == a` and a horizontal line `y == b` cross at `(a, b)`.
proof fn lemma_axis_crossing(a: MeanLine, b: MeanLine, dirs: Seq<(i16, i16)>)
    requires
        dirs.len() > 90,
        dirs[0] == (UNIT, 0i16),
        dirs[90] == (0i16, UNIT),
        a.angle_in_degrees == 0,
        b.angle_in_degrees == 90,
        a.count == 1,
        b.count == 1,
    ensures
        crossing(a, b, dirs) == (
            a.radius_total * 268435456int,
            b.radius_total * 268435456int,
            268435456int,
        ),
{
    let pa = a.radius_total as int;
    let pb = b.radius_total as int;
    let u = UNIT as int;
    assert(u * (pb * 1 * 0 - pa * 1 * u) == -(pa * 268435456)) by (nonlinear_arith)
        requires
            u == 16384,
    ;
    assert(u * (pa * 1 * 0 - pb * 1 * u) == -(pb * 268435456)) by (nonlinear_arith)
        requires
            u == 16384,
    ;
    assert(1 * 1 * (0 * 0 - u * u) == -268435456) by (nonlinear_arith)
        requires
            u == 16384,
    ;
}

/// The edges of an upright rectangle in a 100 by 100 image meet in its four corners,
/// which are named as such.
pub proof fn lemma_rectangle_corners(dirs: Seq<(i16, i16)>)
    requires
        dirs.len() > 90,
        dirs[0] == (UNIT, 0i16),
        dirs[90] == (0i16, UNIT),
    ensures
        corners_of(rectangle_edges(), dirs, 100, 100) == Some(
            Quadrilateral {
                top_left: Point(10, 10),
                top_right: Point(90, 10),
                bottom_left: Point(10, 90),
                bottom_right: Point(90, 90),
            },
        ),
{
    let l = rectangle_edges();
    let pp = pair_points(l, dirs, 100, 100);
    lemma_parallel_no_intersection(l[0], l[1], dirs, 100, 100);
    lemma_parallel_no_intersection(l[2], l[3], dirs, 100, 100);
    lemma_axis_crossing(l[0], l[2], dirs);
    lemma_axis_crossing(l[0], l[3], dirs);
    lemma_axis_crossing(l[1], l[2], dirs);
    lemma_axis_crossing(l[1], l[3], dirs);
    assert(2684354560int / 268435456int == 10);
    assert(24159191040int / 268435456int == 90);
    assert(pp[0] == None::<Point>);
    assert(pp[1] == Some(Point(10, 10)));
    assert(pp[2] == Some(Point(10, 90)));
    assert(pp[3] == Some(Point(90, 10)));
    assert(pp[4] == Some(Point(90, 90)));
    assert(pp[5] == None::<Point>);
    reveal_with_fuel(found_points, 7);
    assert(pp.drop_last() =~= pp.take(5));
    assert(pp.take(5).drop_last() =~= pp.take(4));
    assert(pp.take(4).drop_last() =~= pp.take(3));
    assert(pp.take(3).drop_last() =~= pp.take(2));
    assert(pp.take(2).drop_last() =~= pp.take(1));
    assert(pp.take(1).drop_last() =~= pp.take(0));
    let pts = found_points(pp);
    assert(pts =~= seq![Point(10, 10), Point(10, 90), Point(90, 10), Point(90, 90)]);
    assert(x_rank(pts, 0) == 0 && x_rank(pts, 1) == 1 && x_rank(pts, 2) == 2 && x_rank(pts, 3) == 3);
    assert(by_x(pts, 0) == 0 && by_x(pts, 1) == 1 && by_x(pts, 2) == 2 && by_x(pts, 3) == 3);
    assert(80int * 80int == 6400 && 0int * 0int == 0) by (nonlinear_arith);
    assert(Point(90, 10).dist2(Point(10, 10)) == 80int * 80int + 0int * 0int);
    assert(Point(90, 90).dist2(Point(10, 10)) == 80int * 80int + 80int * 80int);
}


/// The lines detected on the edges of the upright rectangle from `(10, 10)` to
/// `(90, 90)`: left, right, top and bottom.
pub open spec fn rectangle_lines() -> Seq<PolarLine> {
    seq![
        PolarLine { angle_in_degrees: 0, r: 10 },
        PolarLine { angle_in_degrees: 0, r: 90 },
        PolarLine { angle_in_degrees: 90, r: 10 },
        PolarLine { angle_in_degrees: 90, r: 90 },
    ]
}

/// Detection on the four edge lines of an upright rectangle in a 100 by 100 image
/// finds its corners: each line forms a cluster of its own, and every choice of the
/// four largest clusters gives the rectangle's corners.
pub proof fn lemma_rectangle_detected(dirs: Seq<(i16, i16)>)
    requires
        dirs.len() > 90,
        dirs[0] == (UNIT, 0i16),
        dirs[90] == (0i16, UNIT),
    ensures
        clustered(rectangle_lines(), extent_of(100, 100) as int).len() == 4,
        forall|idx: Seq<usize>|
            is_top_four(clustered(rectangle_lines(), extent_of(100, 100) as int), idx) ==> corners_of(
                chosen_lines(clustered(rectangle_lines(), extent_of(100, 100) as int), idx),
                dirs,
                100,
                100,
            ) == Some(
                Quadrilateral {
                    top_left: Point(10, 10),
                    top_right: Point(90, 10),
                    bottom_left: Point(10, 90),
                    bottom_right: Point(90, 90),
                },
            ),
{
    let ls = rectangle_lines();
    let e: int = 100;
    assert(extent_of(100, 100) == 100);
    let l0 = ls[0];
    let l1 = ls[1];
    let l2 = ls[2];
    let l3 = ls[3];
    let s0 = seq![l0];
    let s1 = seq![l1];
    let s2 = seq![l2];
    reveal_with_fuel(angle_sum, 2);
    reveal_with_fuel(radius_sum, 2);
    assert(s0.drop_last() =~= Seq::<PolarLine>::empty());
    assert(s1.drop_last() =~= Seq::<PolarLine>::empty());
    assert(s2.drop_last() =~= Seq::<PolarLine>::empty());
    assert(angle_sum(s0) == 0 && radius_sum(s0) == 10);
    assert(angle_sum(s1) == 0 && radius_sum(s1) == 90);
    assert(angle_sum(s2) == 90 && radius_sum(s2) == 10);
    assert(mean_angle(s0) == 0 && mean_angle(s1) == 0 && mean_angle(s2) == 90);
    assert(ls.take(1).drop_last() =~= ls.take(0));
    assert(ls.take(2).drop_last() =~= ls.take(1));
    assert(ls.take(3).drop_last() =~= ls.take(2));
    assert(ls.take(4).drop_last() =~= ls.take(3));
    assert(ls.take(4) =~= ls);
    assert(ls.take(0) =~= Seq::<PolarLine>::empty());
    reveal_with_fuel(first_fit_from, 4);
    assert(clustered(ls.take(0), e) =~= Seq::<Seq<PolarLine>>::empty());
    assert(first_fit_from(Seq::<Seq<PolarLine>>::empty(), l0, e, 0) == 0);
    assert(ls.take(1).last() == l0);
    assert(ls.take(2).last() == l1);
    assert(ls.take(3).last() == l2);
    assert(ls.last() == l3);
    let c1 = clustered(ls.take(1), e);
    assert(c1 =~= seq![s0]);
    assert(!joins(l1, s0, e));
    let c2 = clustered(ls.take(2), e);
    assert(c2 =~= seq![s0, s1]);
    assert(!joins(l2, s0, e));
    assert(!joins(l2, s1, e));
    let c3 = clustered(ls.take(3), e);
    assert(c3 =~= seq![s0, s1, s2]);
    assert(!joins(l3, s0, e));
    assert(!joins(l3, s1, e));
    assert(!joins(l3, s2, e));
    let cs = clustered(ls, e);
    assert(cs =~= seq![s0, s1, s2, seq![l3]]);
    let top: Seq<usize> = seq![0, 1, 2, 3];
    assert(top.contains(0) && top[1] == 1 && top[2] == 2 && top[3] == 3);
    assert(is_top_four(cs, top));
    assert forall|idx: Seq<usize>| is_top_four(cs, idx) implies corners_of(chosen_lines(cs, idx), dirs, 100, 100) == Some(
        Quadrilateral {
            top_left: Point(10, 10),
            top_right: Point(90, 10),
            bottom_left: Point(10, 90),
            bottom_right: Point(90, 90),
        },
    ) by {
        lemma_top_four_unique(cs, idx, top);
        reveal_with_fuel(angle_sum, 2);
        reveal_with_fuel(radius_sum, 2);
        assert(seq![l3].drop_last() =~= Seq::<PolarLine>::empty());
        assert(chosen_lines(cs, top) =~= rectangle_edges());
        lemma_rectangle_corners(dirs);
    }
}

} // verus!
