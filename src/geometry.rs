use vstd::prelude::*;

verus! {

/// A pixel coordinate `(x, y)`.
#[derive(Clone, Copy, Debug, PartialEq, Eq, Structural)]
pub struct Point(pub u32, pub u32);

impl Point {
    /// Squared Euclidean distance, as an exact integer.
    pub open spec fn dist2(self, other: Point) -> int {
        (self.0 - other.0) * (self.0 - other.0) + (self.1 - other.1) * (self.1 - other.1)
    }

    /// Squared Euclidean distance to `other`.
    pub fn distance_squared(&self, other: &Point) -> (r: u128)
        ensures
            r == self.dist2(*other),
    {
        let dx: u128 = if self.0 >= other.0 { (self.0 - other.0) as u128 } else { (other.0 - self.0) as u128 };
        let dy: u128 = if self.1 >= other.1 { (self.1 - other.1) as u128 } else { (other.1 - self.1) as u128 };
        assert(dx * dx <= 0xffff_fffe_0000_0001u128) by (nonlinear_arith)
            requires
                dx <= 0xffff_ffffu128,
        ;
        assert(dy * dy <= 0xffff_fffe_0000_0001u128) by (nonlinear_arith)
            requires
                dy <= 0xffff_ffffu128,
        ;
        assert(dx * dx == (self.0 - other.0) * (self.0 - other.0)) by (nonlinear_arith)
            requires
                dx == self.0 - other.0 || dx == other.0 - self.0,
        ;
        assert(dy * dy == (self.1 - other.1) * (self.1 - other.1)) by (nonlinear_arith)
            requires
                dy == self.1 - other.1 || dy == other.1 - self.1,
        ;
        dx * dx + dy * dy
    }
}

/// `v * num / den` rounded down, capped at `u32::MAX`: a coordinate scaled by the
/// ratio `num / den`.
pub open spec fn scale_coord(v: u32, num: u32, den: u32) -> u32 {
    let s = (v as int * num as int) / (den as int);
    if s > u32::MAX {
        u32::MAX
    } else {
        s as u32
    }
}

pub fn scale_coordinate(v: u32, num: u32, den: u32) -> (r: u32)
    requires
        den > 0,
    ensures
        r == scale_coord(v, num, den),
{
    assert(v as u64 * num as u64 <= 0xffff_ffffu64 * 0xffff_ffffu64) by (nonlinear_arith)
        requires
            v <= 0xffff_ffffu64,
            num <= 0xffff_ffffu64,
    ;
    let p = v as u64 * num as u64;
    let s = p / den as u64;
    if s > u32::MAX as u64 {
        u32::MAX
    } else {
        s as u32
    }
}

impl Point {
    pub open spec fn scaled(self, num: u32, den: u32) -> Point {
        Point(scale_coord(self.0, num, den), scale_coord(self.1, num, den))
    }

    /// Both coordinates scaled by `num / den`, rounded down.
    pub fn times_ratio(&self, num: u32, den: u32) -> (r: Point)
        requires
            den > 0,
        ensures
            r == self.scaled(num, den),
    {
        Point(scale_coordinate(self.0, num, den), scale_coordinate(self.1, num, den))
    }
}

/// `r` is the square root of `v` rounded down.
pub open spec fn is_floor_sqrt(r: int, v: int) -> bool {
    r * r <= v < (r + 1) * (r + 1)
}

/// The square root of `v` rounded down.
pub fn floor_sqrt(v: u128) -> (r: u64)
    requires
        v <= 2 * 0xffff_ffffu128 * 0xffff_ffffu128,
    ensures
        is_floor_sqrt(r as int, v as int),
{
    let mut lo: u128 = 0;
    let mut hi: u128 = 0x2_0000_0000;
    while hi - lo > 1
        invariant
            lo < hi <= 0x2_0000_0000,
            lo * lo <= v,
            v < hi * hi,
        decreases hi - lo,
    {
        let mid = lo + (hi - lo) / 2;
        assert(mid * mid <= 0x2_0000_0000u128 * 0x2_0000_0000u128) by (nonlinear_arith)
            requires
                mid <= 0x2_0000_0000u128,
        ;
        if mid * mid <= v {
            lo = mid;
        } else {
            hi = mid;
        }
    }
    assert(hi == lo + 1);
    lo as u64
}

/// Largest squared distance between two points.
pub proof fn lemma_dist2_bounded(a: Point, b: Point)
    ensures
        0 <= a.dist2(b) <= 2 * 0xffff_ffffu128 * 0xffff_ffffu128,
{
    assert(0 <= a.dist2(b) <= 2 * 0xffff_ffffu128 * 0xffff_ffffu128) by (nonlinear_arith)
        requires
            0 <= a.0 <= 0xffff_ffffu128,
            0 <= a.1 <= 0xffff_ffffu128,
            0 <= b.0 <= 0xffff_ffffu128,
            0 <= b.1 <= 0xffff_ffffu128,
    ;
}

/// The Euclidean distance between `a` and `b`, rounded down to a whole number.
pub fn euclidean_distance(a: &Point, b: &Point) -> (r: u64)
    ensures
        is_floor_sqrt(r as int, a.dist2(*b)),
{
    let d = a.distance_squared(b);
    proof {
        lemma_dist2_bounded(*a, *b);
    }
    floor_sqrt(d)
}

/// Four named corners of a document outline.
#[derive(Clone, Copy, Debug, PartialEq, Eq, Structural)]
pub struct Quadrilateral {
    pub top_left: Point,
    pub top_right: Point,
    pub bottom_left: Point,
    pub bottom_right: Point,
}

/// `p` moved by `offset`.
pub open spec fn moved(p: Point, offset: Point) -> Point {
    Point((p.0 + offset.0) as u32, (p.1 + offset.1) as u32)
}

/// Moving `p` by `offset` stays within the coordinate range.
pub open spec fn can_move(p: Point, offset: Point) -> bool {
    p.0 + offset.0 <= u32::MAX && p.1 + offset.1 <= u32::MAX
}

/// Cross product term of the shoelace formula for the edge from `a` to `b`.
pub open spec fn cross(a: Point, b: Point) -> int {
    a.0 * b.1 - a.1 * b.0
}

impl Quadrilateral {
    pub fn new(top_left: Point, top_right: Point, bottom_left: Point, bottom_right: Point) -> (q: Quadrilateral)
        ensures
            q == (Quadrilateral { top_left, top_right, bottom_left, bottom_right }),
    {
        Quadrilateral { top_left, top_right, bottom_left, bottom_right }
    }

    pub open spec fn scaled(self, num: u32, den: u32) -> Quadrilateral {
        Quadrilateral {
            top_left: self.top_left.scaled(num, den),
            top_right: self.top_right.scaled(num, den),
            bottom_left: self.bottom_left.scaled(num, den),
            bottom_right: self.bottom_right.scaled(num, den),
        }
    }

    /// Every corner scaled by the ratio `num / den`, each coordinate rounded down.
    pub fn times_ratio(&self, num: u32, den: u32) -> (r: Quadrilateral)
        requires
            den > 0,
        ensures
            r == self.scaled(num, den),
    {
        Quadrilateral::new(
            self.top_left.times_ratio(num, den),
            self.top_right.times_ratio(num, den),
            self.bottom_left.times_ratio(num, den),
            self.bottom_right.times_ratio(num, den),
        )
    }

    pub open spec fn can_translate(self, offset: Point) -> bool {
        &&& can_move(self.top_left, offset)
        &&& can_move(self.top_right, offset)
        &&& can_move(self.bottom_left, offset)
        &&& can_move(self.bottom_right, offset)
    }

    pub open spec fn translated(self, offset: Point) -> Quadrilateral {
        Quadrilateral {
            top_left: moved(self.top_left, offset),
            top_right: moved(self.top_right, offset),
            bottom_left: moved(self.bottom_left, offset),
            bottom_right: moved(self.bottom_right, offset),
        }
    }

    /// Every corner moved by `point`.
    pub fn translate(&self, point: &Point) -> (r: Quadrilateral)
        requires
            self.can_translate(*point),
        ensures
            r == self.translated(*point),
    {
        Quadrilateral::new(
            Point(self.top_left.0 + point.0, self.top_left.1 + point.1),
            Point(self.top_right.0 + point.0, self.top_right.1 + point.1),
            Point(self.bottom_left.0 + point.0, self.bottom_left.1 + point.1),
            Point(self.bottom_right.0 + point.0, self.bottom_right.1 + point.1),
        )
    }

    /// Twice the signed area, by the shoelace formula over top left, top right,
    /// bottom right, bottom left.
    pub open spec fn double_area_spec(self) -> int {
        cross(self.top_left, self.top_right) + cross(self.top_right, self.bottom_right)
            + cross(self.bottom_right, self.bottom_left) + cross(self.bottom_left, self.top_left)
    }

    /// Twice the signed area (exact).
    pub fn double_area(&self) -> (r: i128)
        ensures
            r == self.double_area_spec(),
            -0x4_0000_0000_0000_0000 <= r <= 0x4_0000_0000_0000_0000,
    {
        let a = cross_product(&self.top_left, &self.top_right);
        let b = cross_product(&self.top_right, &self.bottom_right);
        let c = cross_product(&self.bottom_right, &self.bottom_left);
        let d = cross_product(&self.bottom_left, &self.top_left);
        a + b + c + d
    }

    /// The signed area, rounded toward zero to a whole number: half of an odd shoelace
    /// sum is dropped, so use `double_area` where the exact value is needed.
    pub fn area(&self) -> (r: i128)
        ensures
            r == half_toward_zero(self.double_area_spec()),
    {
        let d = self.double_area();
        if d >= 0 {
            d / 2
        } else {
            -((-d) / 2)
        }
    }

    /// The same corners traversed the other way round: top left, bottom left, bottom
    /// right, top right.
    pub open spec fn reversed(self) -> Quadrilateral {
        Quadrilateral {
            top_left: self.top_left,
            top_right: self.bottom_left,
            bottom_left: self.top_right,
            bottom_right: self.bottom_right,
        }
    }

    pub open spec fn control_points(self) -> Seq<Point> {
        seq![self.top_left, self.top_right, self.bottom_right, self.bottom_left]
    }

    /// The corners in the order top left, top right, bottom right, bottom left.
    pub fn as_control_points(&self) -> (r: [Point; 4])
        ensures
            r@ == self.control_points(),
    {
        let r = [self.top_left, self.top_right, self.bottom_right, self.bottom_left];
        assert(r@ =~= self.control_points());
        r
    }
}

/// `v / 2` rounded toward zero.
pub open spec fn half_toward_zero(v: int) -> int {
    if v >= 0 {
        v / 2
    } else {
        -((-v) / 2)
    }
}

/// Reversing the winding of a quadrilateral negates its signed area, exactly and as
/// rounded by `area`.
pub proof fn lemma_reversed_winding_negates_area(q: Quadrilateral)
    ensures
        q.reversed().double_area_spec() == -q.double_area_spec(),
        half_toward_zero(q.reversed().double_area_spec()) == -half_toward_zero(q.double_area_spec()),
{
    let d = q.double_area_spec();
    lemma_cross_antisymmetric(q.top_left, q.top_right);
    lemma_cross_antisymmetric(q.top_right, q.bottom_right);
    lemma_cross_antisymmetric(q.bottom_right, q.bottom_left);
    lemma_cross_antisymmetric(q.bottom_left, q.top_left);
    assert(q.reversed().double_area_spec() == -d);
    assert(half_toward_zero(-d) == -half_toward_zero(d));
}

proof fn lemma_cross_antisymmetric(a: Point, b: Point)
    ensures
        cross(a, b) == -cross(b, a),
{
    assert((a.0 as int) * (b.1 as int) - (a.1 as int) * (b.0 as int) == -((b.0 as int) * (a.1 as int) - (b.1 as int) * (a.0 as int))) by (nonlinear_arith);
}

fn cross_product(a: &Point, b: &Point) -> (r: i128)
    ensures
        r == cross(*a, *b),
        -0x1_0000_0000_0000_0000 <= r <= 0x1_0000_0000_0000_0000,
{
    let ax = a.0 as i128;
    let ay = a.1 as i128;
    let bx = b.0 as i128;
    let by = b.1 as i128;
    assert(0 <= ax * by <= 0xffff_ffffi128 * 0xffff_ffffi128) by (nonlinear_arith)
        requires
            0 <= ax <= 0xffff_ffffi128,
            0 <= by <= 0xffff_ffffi128,
    ;
    assert(0 <= ay * bx <= 0xffff_ffffi128 * 0xffff_ffffi128) by (nonlinear_arith)
        requires
            0 <= ay <= 0xffff_ffffi128,
            0 <= bx <= 0xffff_ffffi128,
    ;
    ax * by - ay * bx
}

/// Scaling a quadrilateral and then moving it gives, corner by corner, each coordinate
/// scaled on its own and then the offset added: no term mixes the two steps.
pub proof fn lemma_scale_then_translate(q: Quadrilateral, num: u32, den: u32, offset: Point)
    requires
        den > 0,
        q.scaled(num, den).can_translate(offset),
    ensures
        q.scaled(num, den).translated(offset).control_points() =~= q.control_points().map_values(
            |p: Point| Point(
                (scale_coord(p.0, num, den) + offset.0) as u32,
                (scale_coord(p.1, num, den) + offset.1) as u32,
            ),
        ),
{
}

} // verus!
