use vstd::prelude::*;
use crate::geometry::{Point, Quadrilateral, floor_sqrt, is_floor_sqrt, lemma_dist2_bounded};

verus! {

/// `side` is the square root of `v` rounded down, capped at `u32::MAX`.
pub open spec fn side_length(side: u32, v: int) -> bool {
    side * side <= v && (v < (side + 1) * (side + 1) || side == u32::MAX)
}

/// The axis-aligned rectangle from `(0, 0)` to `(width, height)`.
pub open spec fn rectangle(width: u32, height: u32) -> Quadrilateral {
    Quadrilateral {
        top_left: Point(0, 0),
        top_right: Point(width, 0),
        bottom_left: Point(0, height),
        bottom_right: Point(width, height),
    }
}

pub open spec fn min(a: int, b: int) -> int {
    if a <= b {
        a
    } else {
        b
    }
}

/// Squared output width: the shorter of the bottom and top edges.
pub open spec fn width_squared(q: Quadrilateral) -> int {
    min(q.bottom_right.dist2(q.bottom_left), q.top_right.dist2(q.top_left))
}

/// Squared output height: the shorter of the right and left edges.
pub open spec fn height_squared(q: Quadrilateral) -> int {
    min(q.top_right.dist2(q.bottom_right), q.top_left.dist2(q.bottom_left))
}

/// How a quadrilateral is mapped onto an upright rectangle: `source` is mapped onto
/// `target`, a `width` by `height` rectangle placed at the source's top left corner,
/// and the result is the `width` by `height` region at that corner.
#[derive(Clone, Copy, Debug, PartialEq, Eq, Structural)]
pub struct Rectification {
    pub source: Quadrilateral,
    pub target: Quadrilateral,
    pub width: u32,
    pub height: u32,
}

/// `p` is the plan for `quadrilateral` scaled by `num / den`.
pub open spec fn plans(quadrilateral: Quadrilateral, num: u32, den: u32, p: Rectification) -> bool {
    let s = quadrilateral.scaled(num, den);
    &&& p.source == s
    &&& side_length(p.width, width_squared(s))
    &&& side_length(p.height, height_squared(s))
    &&& rectangle(p.width, p.height).can_translate(s.top_left)
    &&& p.target == rectangle(p.width, p.height).translated(s.top_left)
}

/// `q` is an upright `width` by `height` rectangle.
pub open spec fn is_upright(q: Quadrilateral, width: u32, height: u32) -> bool {
    &&& q.top_right == Point((q.top_left.0 + width) as u32, q.top_left.1)
    &&& q.bottom_left == Point(q.top_left.0, (q.top_left.1 + height) as u32)
    &&& q.bottom_right == Point((q.top_left.0 + width) as u32, (q.top_left.1 + height) as u32)
    &&& q.top_left.0 + width <= u32::MAX
    &&& q.top_left.1 + height <= u32::MAX
}

/// Rectifying a region that is already an upright rectangle, at ratio one, maps it
/// onto itself: the target is the source, and the output has the rectangle's size.
pub proof fn lemma_upright_rectangle_is_kept(q: Quadrilateral, width: u32, height: u32, n: u32, p: Rectification)
    requires
        n > 0,
        is_upright(q, width, height),
        plans(q, n, n, p),
    ensures
        p.source == q,
        p.target == q,
        p.width == width,
        p.height == height,
{
    assert forall|v: u32| #[trigger] crate::geometry::scale_coord(v, n, n) == v by {
        assert((v as int * n as int) / (n as int) == v) by (nonlinear_arith)
            requires
                n > 0,
        ;
    }
    assert(q.scaled(n, n) == q);
    assert(width_squared(q) == (width as int) * (width as int));
    assert((-(height as int)) * (-(height as int)) == (height as int) * (height as int)) by (nonlinear_arith);
    assert(height_squared(q) == (height as int) * (height as int));
    assert(side_length(width, (width as int) * (width as int))) by {
        assert((width as int) * (width as int) < (width + 1) * (width + 1)) by (nonlinear_arith);
    }
    assert(side_length(height, (height as int) * (height as int))) by {
        assert((height as int) * (height as int) < (height + 1) * (height + 1)) by (nonlinear_arith);
    }
    lemma_side_unique(p.width, width, width_squared(q));
    lemma_side_unique(p.height, height, height_squared(q));
}

fn side(v: u128) -> (r: u32)
    requires
        v <= 2 * 0xffff_ffffu128 * 0xffff_ffffu128,
    ensures
        side_length(r, v as int),
{
    let root = floor_sqrt(v);
    if root > u32::MAX as u64 {
        assert((u32::MAX as int) * (u32::MAX as int) <= (root as int) * (root as int)) by (nonlinear_arith)
            requires
                root > u32::MAX,
        ;
        u32::MAX
    } else {
        root as u32
    }
}

/// Plans the rectification of `quadrilateral` once scaled by `num / den`: the output
/// width is the shorter of the bottom and top edges, the height the shorter of the
/// right and left edges, each rounded down. `None` when the target rectangle, placed
/// at the scaled top left corner, would leave the coordinate range.
pub fn rectification(quadrilateral: &Quadrilateral, num: u32, den: u32) -> (r: Option<Rectification>)
    requires
        den > 0,
    ensures
        ({
            let s = quadrilateral.scaled(num, den);
            match r {
                Some(p) => plans(*quadrilateral, num, den, p),
                None => forall|w: u32, h: u32|
                    side_length(w, width_squared(s)) && side_length(h, height_squared(s))
                        ==> !rectangle(w, h).can_translate(s.top_left),
            }
        }),
{
    let s = quadrilateral.times_ratio(num, den);
    let b = s.bottom_right.distance_squared(&s.bottom_left);
    let t = s.top_right.distance_squared(&s.top_left);
    let rr = s.top_right.distance_squared(&s.bottom_right);
    let l = s.top_left.distance_squared(&s.bottom_left);
    proof {
        lemma_dist2_bounded(s.bottom_right, s.bottom_left);
        lemma_dist2_bounded(s.top_right, s.top_left);
        lemma_dist2_bounded(s.top_right, s.bottom_right);
        lemma_dist2_bounded(s.top_left, s.bottom_left);
    }
    let width = side(if b <= t { b } else { t });
    let height = side(if rr <= l { rr } else { l });
    let tl = s.top_left;
    if width > u32::MAX - tl.0 || height > u32::MAX - tl.1 {
        proof {
            assert forall|w: u32, h: u32|
                side_length(w, width_squared(s)) && side_length(h, height_squared(s))
                    implies !rectangle(w, h).can_translate(s.top_left) by {
                lemma_side_unique(w, width, width_squared(s));
                lemma_side_unique(h, height, height_squared(s));
            }
        }
        return None;
    }
    let target = Quadrilateral::new(Point(0, 0), Point(width, 0), Point(0, height), Point(width, height)).translate(&tl);
    Some(Rectification { source: s, target, width, height })
}

/// The capped square root is unique.
proof fn lemma_side_unique(a: u32, b: u32, v: int)
    requires
        side_length(a, v),
        side_length(b, v),
    ensures
        a == b,
{
    if a < b {
        assert((a + 1) * (a + 1) <= (b as int) * (b as int)) by (nonlinear_arith)
            requires
                a + 1 <= b,
        ;
    } else if b < a {
        assert((b + 1) * (b + 1) <= (a as int) * (a as int)) by (nonlinear_arith)
            requires
                b + 1 <= a,
        ;
    }
}

} // verus!
