use vstd::prelude::*;

verus! {

/// Two lines whose angles differ by this many degrees or more never share a cluster.
pub const ANGLE_TOLERANCE: u32 = 10;

/// Two lines share a cluster only when their radii differ by less than
/// `extent / RADIUS_TOLERANCE_DIVISOR`, where `extent` is the larger image side.
pub const RADIUS_TOLERANCE_DIVISOR: u32 = 20;

/// A detected straight line in polar form: `x * cos(angle) + y * sin(angle) == r`.
#[derive(Clone, Copy, Debug, PartialEq, Eq, Structural)]
pub struct PolarLine {
    pub angle_in_degrees: u32,
    pub r: i32,
}

/// Sum of the angles of a sequence of lines.
pub open spec fn angle_sum(s: Seq<PolarLine>) -> int
    decreases s.len(),
{
    if s.len() == 0 {
        0
    } else {
        angle_sum(s.drop_last()) + s.last().angle_in_degrees
    }
}

/// Sum of the radii of a sequence of lines.
pub open spec fn radius_sum(s: Seq<PolarLine>) -> int
    decreases s.len(),
{
    if s.len() == 0 {
        0
    } else {
        radius_sum(s.drop_last()) + s.last().r
    }
}

/// The representative angle of a non-empty group of lines: the mean angle, rounded down.
pub open spec fn mean_angle(m: Seq<PolarLine>) -> int {
    angle_sum(m) / (m.len() as int)
}

pub open spec fn abs(v: int) -> int {
    if v < 0 {
        -v
    } else {
        v
    }
}

/// `line` is close enough to the mean line of the group `m`: its angle differs from the
/// mean angle by less than `ANGLE_TOLERANCE`, and its radius differs from the mean
/// radius `radius_sum(m) / |m|` by less than `extent / RADIUS_TOLERANCE_DIVISOR`.
pub open spec fn joins(line: PolarLine, m: Seq<PolarLine>, extent: int) -> bool {
    &&& abs(line.angle_in_degrees - mean_angle(m)) < ANGLE_TOLERANCE
    &&& abs(line.r * m.len() - radius_sum(m)) * RADIUS_TOLERANCE_DIVISOR < extent * m.len()
}

/// Index of the first group, at `i` or after, that `line` joins; `cs.len()` if none.
pub open spec fn first_fit_from(cs: Seq<Seq<PolarLine>>, line: PolarLine, extent: int, i: int) -> int
    decreases cs.len() - i,
{
    if i < 0 || i >= cs.len() {
        cs.len() as int
    } else if joins(line, cs[i], extent) {
        i
    } else {
        first_fit_from(cs, line, extent, i + 1)
    }
}

/// The groups that greedy first-fit clustering builds from `lines`, taken in order: each
/// line joins the first group whose mean line it is close to, or else starts a new group.
pub open spec fn clustered(lines: Seq<PolarLine>, extent: int) -> Seq<Seq<PolarLine>>
    decreases lines.len(),
{
    if lines.len() == 0 {
        seq![]
    } else {
        let cs = clustered(lines.drop_last(), extent);
        let line = lines.last();
        let k = first_fit_from(cs, line, extent, 0);
        if k < cs.len() {
            cs.update(k, cs[k].push(line))
        } else {
            cs.push(seq![line])
        }
    }
}

proof fn lemma_first_fit(cs: Seq<Seq<PolarLine>>, line: PolarLine, extent: int, i: int, k: int)
    requires
        0 <= i <= k <= cs.len(),
        forall|j: int| i <= j < k ==> !joins(line, #[trigger] cs[j], extent),
        k == cs.len() || joins(line, cs[k], extent),
    ensures
        first_fit_from(cs, line, extent, i) == k,
    decreases k - i,
{
    if i < k {
        lemma_first_fit(cs, line, extent, i + 1, k);
    }
}

proof fn lemma_first_fit_range(cs: Seq<Seq<PolarLine>>, line: PolarLine, extent: int, i: int)
    requires
        0 <= i <= cs.len(),
    ensures
        i <= first_fit_from(cs, line, extent, i) <= cs.len(),
    decreases cs.len() - i,
{
    if i < cs.len() {
        lemma_first_fit_range(cs, line, extent, i + 1);
    }
}

/// Every group is non-empty, holds only lines of the input, and there are no more
/// groups than lines, nor more lines in a group than lines in the input.
pub proof fn lemma_clustered_shape(lines: Seq<PolarLine>, extent: int)
    ensures
        clustered(lines, extent).len() <= lines.len(),
        forall|k: int|
            0 <= k < clustered(lines, extent).len() ==> 1 <= (#[trigger] clustered(
                lines,
                extent,
            )[k]).len() <= lines.len(),
        forall|k: int, j: int|
            0 <= k < clustered(lines, extent).len() && 0 <= j < clustered(lines, extent)[k].len()
                ==> lines.contains(#[trigger] clustered(lines, extent)[k][j]),
    decreases lines.len(),
{
    if lines.len() > 0 {
        let prev = lines.drop_last();
        lemma_clustered_shape(prev, extent);
        let cs = clustered(prev, extent);
        lemma_first_fit_range(cs, lines.last(), extent, 0);
        let n = clustered(lines, extent);
        assert forall|k: int, j: int| 0 <= k < n.len() && 0 <= j < n[k].len() implies lines.contains(
            #[trigger] n[k][j],
        ) by {
            if k < cs.len() && j < cs[k].len() {
                let w = choose|w: int| 0 <= w < prev.len() && prev[w] == cs[k][j];
                assert(lines[w] == prev[w]);
            } else {
                assert(lines[lines.len() - 1] == lines.last());
            }
        }
    }
}

/// Bounds on the sums of a group whose angles are all below `bound`.
pub proof fn lemma_sums_bounded(s: Seq<PolarLine>, bound: int)
    requires
        forall|j: int| 0 <= j < s.len() ==> (#[trigger] s[j]).angle_in_degrees < bound,
    ensures
        0 <= angle_sum(s) <= s.len() * (bound - 1),
        s.len() * (i32::MIN as int) <= radius_sum(s) <= s.len() * (i32::MAX as int),
    decreases s.len(),
{
    if s.len() > 0 {
        lemma_sums_bounded(s.drop_last(), bound);
        assert(s.last() == s[s.len() - 1]);
        assert(s.len() * (bound - 1) == (s.len() - 1) * (bound - 1) + (bound - 1)) by (nonlinear_arith);
        assert(s.len() * (i32::MIN as int) == (s.len() - 1) * (i32::MIN as int) + (i32::MIN as int)) by (nonlinear_arith);
        assert(s.len() * (i32::MAX as int) == (s.len() - 1) * (i32::MAX as int) + (i32::MAX as int)) by (nonlinear_arith);
    }
}

/// A group of lines taken for the same edge, with the running sums of their angles and radii.
pub struct LineCluster {
    members: Vec<PolarLine>,
    angle_total: u64,
    radius_total: i64,
}

impl LineCluster {
    pub closed spec fn view(&self) -> Seq<PolarLine> {
        self.members@
    }

    pub closed spec fn wf(&self) -> bool {
        &&& 1 <= self.members@.len() <= u32::MAX
        &&& self.angle_total == angle_sum(self.members@)
        &&& self.radius_total == radius_sum(self.members@)
    }

    /// A cluster of the one line `line`.
    pub fn new(line: PolarLine) -> (c: LineCluster)
        ensures
            c.wf(),
            c@ == seq![line],
    {
        let mut members: Vec<PolarLine> = Vec::new();
        members.push(line);
        assert(members@.drop_last() =~= Seq::<PolarLine>::empty());
        assert(members@.last() == line);
        assert(angle_sum(members@.drop_last()) == 0);
        assert(radius_sum(members@.drop_last()) == 0);
        assert(angle_sum(members@) == line.angle_in_degrees);
        assert(radius_sum(members@) == line.r);
        LineCluster { members, angle_total: line.angle_in_degrees as u64, radius_total: line.r as i64 }
    }

    /// The lines of the cluster, in the order they joined it.
    pub fn members(&self) -> (r: &Vec<PolarLine>)
        ensures
            r@ == self@,
    {
        &self.members
    }

    /// Number of lines in the cluster.
    pub fn len(&self) -> (r: usize)
        ensures
            r == self@.len(),
    {
        self.members.len()
    }

    /// The cluster's representative line: mean angle (rounded down) and exact mean radius.
    pub fn representative(&self) -> (r: MeanLine)
        requires
            self.wf(),
        ensures
            r.wf(),
            r@ == mean_line(self@),
    {
        let n = self.members.len() as u64;
        proof {
            lemma_sums_bounded(self@, 0x1_0000_0000);
            assert(angle_sum(self@) / (n as int) <= (u32::MAX as int)) by (nonlinear_arith)
                requires
                    0 <= angle_sum(self@) <= n * (0x1_0000_0000 - 1),
                    n >= 1,
            ;
        }
        MeanLine {
            angle_in_degrees: (self.angle_total / n) as u32,
            radius_total: self.radius_total,
            count: n as u32,
        }
    }

    /// Whether `line` is close enough to this cluster's mean line to join it.
    pub fn accepts(&self, line: &PolarLine, extent: u32) -> (r: bool)
        requires
            self.wf(),
        ensures
            r == joins(*line, self@, extent as int),
    {
        let n = self.members.len() as u64;
        proof {
            lemma_sums_bounded(self@, 0x1_0000_0000);
        }
        let mean = self.angle_total / n;
        let a = line.angle_in_degrees as u64;
        let angle_diff: u64 = if a >= mean { a - mean } else { mean - a };
        if angle_diff >= ANGLE_TOLERANCE as u64 {
            return false;
        }
        let nn = n as i128;
        let lr = line.r as i128;
        assert(-0x8000_0000 * 0x1_0000_0000 <= lr * nn <= 0x8000_0000 * 0x1_0000_0000) by (nonlinear_arith)
            requires
                -0x8000_0000 <= lr < 0x8000_0000,
                1 <= nn <= 0x1_0000_0000,
        ;
        let diff = lr * nn - self.radius_total as i128;
        let adiff: i128 = if diff < 0 { -diff } else { diff };
        assert(adiff <= 0x1_0000_0000_0000_0000_0000);
        let ext = extent as i128;
        assert(ext * nn <= 0x1_0000_0000 * 0x1_0000_0000) by (nonlinear_arith)
            requires
                0 <= ext < 0x1_0000_0000,
                1 <= nn <= 0x1_0000_0000,
        ;
        let bound = ext * nn;
        let div = RADIUS_TOLERANCE_DIVISOR as i128;
        assert(adiff * div <= 0x1_0000_0000_0000_0000_0000 * 20) by (nonlinear_arith)
            requires
                0 <= adiff <= 0x1_0000_0000_0000_0000_0000,
                div == 20,
        ;
        adiff * div < bound
    }

    /// Adds `line` to the cluster.
    pub fn push(&mut self, line: PolarLine)
        requires
            old(self).wf(),
            old(self)@.len() < u32::MAX,
        ensures
            final(self).wf(),
            final(self)@ == old(self)@.push(line),
    {
        proof {
            lemma_sums_bounded(self@, 0x1_0000_0000);
            let s = self@.push(line);
            assert(s.drop_last() =~= self@);
            lemma_sums_bounded(s, 0x1_0000_0000);
        }
        self.members.push(line);
        self.angle_total = self.angle_total + line.angle_in_degrees as u64;
        self.radius_total = self.radius_total + line.r as i64;
    }
}

/// A line whose radius is a mean: `x * cos(angle) + y * sin(angle) == radius_total / count`.
#[derive(Clone, Copy, Debug, PartialEq, Eq, Structural)]
pub struct MeanLine {
    pub angle_in_degrees: u32,
    pub radius_total: i64,
    pub count: u32,
}

impl MeanLine {
    pub open spec fn view(&self) -> MeanLine {
        *self
    }

    pub open spec fn wf(&self) -> bool {
        self.count >= 1
    }

    /// The line `line` itself, as a mean of one.
    pub fn from_line(line: &PolarLine) -> (r: MeanLine)
        ensures
            r.wf(),
            r == (MeanLine { angle_in_degrees: line.angle_in_degrees, radius_total: line.r as i64, count: 1 }),
    {
        MeanLine { angle_in_degrees: line.angle_in_degrees, radius_total: line.r as i64, count: 1 }
    }
}

/// The mean line of a non-empty group.
pub open spec fn mean_line(m: Seq<PolarLine>) -> MeanLine {
    MeanLine {
        angle_in_degrees: mean_angle(m) as u32,
        radius_total: radius_sum(m) as i64,
        count: m.len() as u32,
    }
}


/// The groups that a sequence of clusters holds.
pub open spec fn cluster_views(v: Seq<LineCluster>) -> Seq<Seq<PolarLine>> {
    v.map_values(|c: LineCluster| c@)
}

/// Groups `lines` by greedy first-fit clustering, in input order. `extent` is the larger
/// side of the image the lines were found in.
pub fn cluster_lines(lines: &Vec<PolarLine>, extent: u32) -> (r: Vec<LineCluster>)
    requires
        lines@.len() <= u32::MAX,
    ensures
        cluster_views(r@) == clustered(lines@, extent as int),
        forall|k: int| 0 <= k < r@.len() ==> (#[trigger] r@[k]).wf(),
{
    let mut clusters: Vec<LineCluster> = Vec::new();
    let mut i: usize = 0;
    let ghost e = extent as int;
    while i < lines.len()
        invariant
            i <= lines@.len() <= u32::MAX,
            e == extent as int,
            cluster_views(clusters@) == clustered(lines@.take(i as int), e),
            forall|k: int| 0 <= k < clusters@.len() ==> (#[trigger] clusters@[k]).wf(),
        decreases lines@.len() - i,
    {
        let line = lines[i];
        let ghost cs = clustered(lines@.take(i as int), e);
        proof {
            assert(lines@.take(i + 1).drop_last() =~= lines@.take(i as int));
            assert(lines@.take(i + 1).last() == line);
            lemma_clustered_shape(lines@.take(i as int), e);
        }
        let mut k: usize = 0;
        let mut found = false;
        while !found && k < clusters.len()
            invariant
                k <= clusters@.len(),
                e == extent as int,
                cs == cluster_views(clusters@),
                forall|t: int| 0 <= t < clusters@.len() ==> (#[trigger] clusters@[t]).wf(),
                forall|j: int| 0 <= j < k ==> !joins(line, #[trigger] cs[j], e),
                found ==> k < clusters@.len() && joins(line, cs[k as int], e),
            decreases clusters@.len() - k + (if found { 0int } else { 1int }),
        {
            assert(cs[k as int] == clusters@[k as int]@);
            if clusters[k].accepts(&line, extent) {
                found = true;
            } else {
                k = k + 1;
            }
        }
        proof {
            lemma_first_fit(cs, line, e, 0, k as int);
        }
        if found {
            let mut c = clusters.remove(k);
            assert(c@ == cs[k as int]);
            c.push(line);
            clusters.insert(k, c);
            assert(cluster_views(clusters@) =~= cs.update(k as int, cs[k as int].push(line)));
        } else {
            clusters.push(LineCluster::new(line));
            assert(cluster_views(clusters@) =~= cs.push(seq![line]));
        }
        i = i + 1;
    }
    assert(lines@.take(i as int) =~= lines@);
    clusters
}

/// Cluster `i` comes before cluster `j` when it is larger, or as large and earlier.
pub open spec fn ranks_before(cs: Seq<Seq<PolarLine>>, i: int, j: int) -> bool {
    cs[i].len() > cs[j].len() || (cs[i].len() == cs[j].len() && i < j)
}

/// `idx` lists the four first clusters of `cs` in order of decreasing size, clusters of
/// equal size in their order in `cs`.
pub open spec fn is_top_four(cs: Seq<Seq<PolarLine>>, idx: Seq<usize>) -> bool {
    &&& idx.len() == 4
    &&& forall|a: int| 0 <= a < 4 ==> #[trigger] idx[a] < cs.len()
    &&& forall|a: int, b: int| 0 <= a < b < 4 ==> ranks_before(cs, #[trigger] idx[a] as int, #[trigger] idx[b] as int)
    &&& forall|j: int|
        0 <= j < cs.len() && !idx.contains(j as usize) ==> ranks_before(cs, idx[3] as int, j)
}

/// Indices of the four largest clusters, larger first, ties in their order in `clusters`.
pub fn top_four(clusters: &Vec<LineCluster>) -> (r: Vec<usize>)
    requires
        clusters@.len() >= 4,
    ensures
        is_top_four(cluster_views(clusters@), r@),
{
    let ghost cs = cluster_views(clusters@);
    let n = clusters.len();
    let mut top: Vec<usize> = Vec::new();
    let mut j: usize = 0;
    while j < n
        invariant
            n == clusters@.len() == cs.len(),
            cs == cluster_views(clusters@),
            j <= n,
            top@.len() == if j < 4 { j as int } else { 4 },
            forall|a: int| 0 <= a < top@.len() ==> #[trigger] top@[a] < j,
            forall|a: int, b: int| 0 <= a < b < top@.len() ==> ranks_before(cs, #[trigger] top@[a] as int, #[trigger] top@[b] as int),
            forall|t: int|
                0 <= t < j && !#[trigger] top@.contains(t as usize) ==> top@.len() == 4 && ranks_before(cs, top@[3] as int, t),
        decreases n - j,
    {
        let size = clusters[j].len();
        assert(size == cs[j as int].len());
        let mut pos: usize = 0;
        while pos < top.len() && clusters[top[pos]].len() >= size
            invariant
                pos <= top@.len(),
                n == clusters@.len() == cs.len(),
                cs == cluster_views(clusters@),
                j < n,
                size == cs[j as int].len(),
                forall|a: int| 0 <= a < top@.len() ==> #[trigger] top@[a] < j,
                forall|a: int| 0 <= a < pos ==> cs[#[trigger] top@[a] as int].len() >= size,
                top@.len() == if j < 4 { j as int } else { 4 },
                forall|a: int, b: int| 0 <= a < b < top@.len() ==> ranks_before(cs, #[trigger] top@[a] as int, #[trigger] top@[b] as int),
                forall|t: int|
                    0 <= t < j && !#[trigger] top@.contains(t as usize) ==> top@.len() == 4 && ranks_before(cs, top@[3] as int, t),
            decreases top@.len() - pos,
        {
            assert(clusters@[top@[pos as int] as int]@ == cs[top@[pos as int] as int]);
            pos = pos + 1;
        }
        let ghost old_top = top@;
        if pos < 4 {
            top.insert(pos, j);
            if top.len() > 4 {
                top.pop();
            }
            proof {
                assert forall|a: int, b: int| 0 <= a < b < top@.len() implies ranks_before(cs, #[trigger] top@[a] as int, #[trigger] top@[b] as int) by {
                    if b < pos {
                        assert(top@[a] == old_top[a] && top@[b] == old_top[b]);
                    } else if b == pos {
                        assert(top@[a] == old_top[a]);
                    } else if a == pos {
                        assert(top@[b] == old_top[b - 1]);
                        assert(cs[old_top[pos as int] as int].len() < size);
                        assert(ranks_before(cs, old_top[pos as int] as int, old_top[b - 1] as int) || b - 1 == pos);
                    } else if a < pos {
                        assert(top@[a] == old_top[a] && top@[b] == old_top[b - 1]);
                    } else {
                        assert(top@[a] == old_top[a - 1] && top@[b] == old_top[b - 1]);
                    }
                }
                assert forall|t: int| 0 <= t < j + 1 && !#[trigger] top@.contains(t as usize) implies top@.len() == 4 && ranks_before(cs, top@[3] as int, t) by {
                    if t == j {
                        assert(top@[pos as int] == j);
                        assert(top@.contains(t as usize));
                    } else if old_top.contains(t as usize) {
                        let w = choose|w: int| 0 <= w < old_top.len() && old_top[w] == t as usize;
                        if w < pos {
                            assert(top@[w] == old_top[w]);
                            assert(top@.contains(t as usize));
                        } else if w + 1 < top@.len() {
                            assert(top@[w + 1] == old_top[w]);
                            assert(top@.contains(t as usize));
                        } else {
                            assert(old_top.len() == 4 && w == 3 && top@.len() == 4);
                            if pos < 3 {
                                assert(top@[3] == old_top[2]);
                                assert(ranks_before(cs, old_top[2] as int, old_top[3] as int));
                            } else {
                                assert(top@[3] == j);
                                assert(cs[old_top[3] as int].len() < size);
                            }
                        }
                    } else {
                        assert(old_top.len() == 4);
                        assert(ranks_before(cs, old_top[3] as int, t));
                        assert(top@.len() == 4);
                        if pos < 3 {
                            assert(top@[3] == old_top[2]);
                            assert(ranks_before(cs, old_top[2] as int, old_top[3] as int));
                        } else {
                            assert(top@[3] == j);
                            assert(cs[old_top[3] as int].len() < size);
                        }
                    }
                }
            }
        } else {
            proof {
                assert forall|t: int| 0 <= t < j + 1 && !#[trigger] top@.contains(t as usize) implies top@.len() == 4 && ranks_before(cs, top@[3] as int, t) by {
                    assert(top@.len() == 4);
                    if t == j {
                        assert(cs[top@[3] as int].len() >= size);
                        assert(top@[3] < j);
                    } else {
                        assert(t < j);
                    }
                }
            }
        }
        j = j + 1;
    }
    proof {
        assert forall|j: int| 0 <= j < cs.len() && !#[trigger] top@.contains(j as usize) implies ranks_before(cs, top@[3] as int, j) by {}
    }
    top
}


/// Only one list of indices is the top four of a sequence of clusters.
pub proof fn lemma_top_four_unique(cs: Seq<Seq<PolarLine>>, i1: Seq<usize>, i2: Seq<usize>)
    requires
        is_top_four(cs, i1),
        is_top_four(cs, i2),
    ensures
        i1 == i2,
{
    assert forall|k: int| 0 <= k < 4 implies i1[k] == i2[k] by {
        lemma_top_four_position(cs, i1, i2, k);
    }
    assert(i1 =~= i2);
}

proof fn lemma_top_four_position(cs: Seq<Seq<PolarLine>>, i1: Seq<usize>, i2: Seq<usize>, k: int)
    requires
        is_top_four(cs, i1),
        is_top_four(cs, i2),
        0 <= k < 4,
    ensures
        i1[k] == i2[k],
    decreases k,
{
    if k > 0 {
        lemma_top_four_position(cs, i1, i2, k - 1);
        if k > 1 {
            lemma_top_four_position(cs, i1, i2, k - 2);
        }
        if k > 2 {
            lemma_top_four_position(cs, i1, i2, k - 3);
        }
    }
    if i1[k] != i2[k] {
        lemma_comes_before(cs, i1, i2, k);
        lemma_comes_before(cs, i2, i1, k);
    }
}

/// When two top-four lists agree before position `k` and differ at `k`, the first
/// list's entry at `k` ranks before the second's.
proof fn lemma_comes_before(cs: Seq<Seq<PolarLine>>, i1: Seq<usize>, i2: Seq<usize>, k: int)
    requires
        is_top_four(cs, i1),
        is_top_four(cs, i2),
        0 <= k < 4,
        forall|j: int| 0 <= j < k ==> i1[j] == i2[j],
        i1[k] != i2[k],
    ensures
        ranks_before(cs, i1[k] as int, i2[k] as int),
{
    let t = i2[k];
    if i1.contains(t) {
        let a = choose|a: int| 0 <= a < i1.len() && i1[a] == t;
        if a < k {
            assert(i2[a] == t);
            assert(ranks_before(cs, i2[a] as int, i2[k] as int));
        } else {
            assert(a > k);
        }
    } else {
        assert(ranks_before(cs, i1[3] as int, t as int));
        if k < 3 {
            assert(ranks_before(cs, i1[k] as int, i1[3] as int));
        }
    }
}

/// Clustering depends on the input sequence alone: the same lines in the same order
/// always give the same clusters.
pub proof fn lemma_clustering_deterministic(lines1: Seq<PolarLine>, lines2: Seq<PolarLine>, extent: int)
    requires
        lines1 == lines2,
    ensures
        clustered(lines1, extent) == clustered(lines2, extent),
{
}

/// Fewer than four lines never make four clusters.
pub proof fn lemma_few_lines_few_clusters(lines: Seq<PolarLine>, extent: int)
    requires
        lines.len() < 4,
    ensures
        clustered(lines, extent).len() < 4,
{
    lemma_clustered_shape(lines, extent);
}

} // verus!
