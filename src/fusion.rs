//! Fusion of two opposed views of one axis, and assembly of the two axes
//! into 3D points.
use vstd::prelude::*;

verus! {

/// Disagreement, in pixels, beyond which two estimates of the same vertical
/// position are reported as suspicious.
pub const TOLERANCE: i64 = 60;

/// Where one viewpoint saw one light: pixel column and row.
#[derive(Debug, Clone, Copy, PartialEq, Eq, Structural)]
pub struct Detection {
    pub x: i32,
    pub y: i32,
}

/// One light's fused estimate on one axis pair: the axis-specific coordinate
/// and the shared vertical coordinate.
#[derive(Debug, Clone, Copy, PartialEq, Eq, Structural)]
pub struct Fused {
    pub primary: i64,
    pub secondary: i64,
}

/// Final position of one light.
#[derive(Debug, Clone, Copy, PartialEq, Eq, Structural)]
pub struct Point3D {
    pub x: i64,
    pub y: i64,
    pub z: i64,
}

/// Paired sequences that should cover the same lights do not.
#[derive(Debug, Clone, Copy, PartialEq, Eq, Structural)]
pub enum FusionError {
    /// The two views of one axis pair have different lengths.
    ViewMismatch,
    /// The two fused axis sequences have different lengths.
    AxisMismatch,
}

pub open spec fn abs(n: int) -> int {
    if n < 0 { -n } else { n }
}

/// Integer halving that rounds toward zero.
pub open spec fn half(n: int) -> int {
    if n >= 0 { n / 2 } else { -((-n) / 2) }
}

/// How far apart two views place light `i` vertically.
pub open spec fn y_gap(a: Seq<Detection>, b: Seq<Detection>, i: int) -> int {
    abs(a[i].y - b[i].y)
}

/// The first index, among the first `n`, of least vertical disagreement.
pub open spec fn anchor_spec(a: Seq<Detection>, b: Seq<Detection>, n: int) -> int
    decreases n,
{
    if n <= 1 {
        0
    } else {
        let k = anchor_spec(a, b, n - 1);
        if y_gap(a, b, n - 1) < y_gap(a, b, k) { n - 1 } else { k }
    }
}

/// Index `k` has the least vertical disagreement among the first `n`, and no
/// earlier index ties with it.
pub open spec fn is_first_min(a: Seq<Detection>, b: Seq<Detection>, n: int, k: int) -> bool {
    &&& 0 <= k < n
    &&& forall|j: int| 0 <= j < n ==> #[trigger] y_gap(a, b, j) >= y_gap(a, b, k)
    &&& forall|j: int| 0 <= j < k ==> #[trigger] y_gap(a, b, j) > y_gap(a, b, k)
}

/// First view's coordinate of light `i`, relative to the anchor `k`.
pub open spec fn fudge_a(a: Seq<Detection>, k: int, i: int) -> int {
    a[i].x - a[k].x
}

/// Second view's coordinate of light `i`, relative to the anchor `k` and
/// mirrored, as that camera looks along the axis the other way.
pub open spec fn fudge_b(b: Seq<Detection>, k: int, i: int) -> int {
    b[k].x - b[i].x
}

/// The fused estimate of light `i` given anchor `k`.
pub open spec fn fused_at(a: Seq<Detection>, b: Seq<Detection>, k: int, i: int) -> Fused {
    Fused {
        primary: half(fudge_a(a, k, i) + fudge_b(b, k, i)) as i64,
        secondary: half(a[i].y + b[i].y) as i64,
    }
}

/// The anchor of two whole views.
pub open spec fn anchor_of(a: Seq<Detection>, b: Seq<Detection>) -> int {
    anchor_spec(a, b, a.len() as int)
}

/// The whole fused sequence of two equally long views.
pub open spec fn fuse_spec(a: Seq<Detection>, b: Seq<Detection>) -> Seq<Fused> {
    let k = anchor_of(a, b);
    Seq::new(a.len(), |i: int| fused_at(a, b, k, i))
}

/// The assembled point of one light from its two axis estimates.
pub open spec fn point_at(xf: Fused, zf: Fused) -> Point3D {
    Point3D {
        x: xf.primary,
        y: half(xf.secondary + zf.secondary) as i64,
        z: zf.primary,
    }
}

pub open spec fn assemble_spec(xs: Seq<Fused>, zs: Seq<Fused>) -> Seq<Point3D> {
    Seq::new(xs.len(), |i: int| point_at(xs[i], zs[i]))
}

/// The anchor of the first `n` indices is their first minimum.
pub proof fn lemma_anchor_is_first_min(a: Seq<Detection>, b: Seq<Detection>, n: int)
    requires
        1 <= n <= a.len(),
        n <= b.len(),
    ensures
        is_first_min(a, b, n, anchor_spec(a, b, n)),
    decreases n,
{
    if n > 1 {
        lemma_anchor_is_first_min(a, b, n - 1);
    }
}

fn halve(n: i128) -> (r: i128)
    requires
        n > i128::MIN,
    ensures
        r == half(n as int),
{
    if n >= 0 {
        n / 2
    } else {
        -((-n) / 2)
    }
}

/// The index whose two detections agree best vertically; ties go to the
/// lowest index. This index calibrates the horizontal offsets of both views.
pub fn anchor_index(a: &Vec<Detection>, b: &Vec<Detection>) -> (r: usize)
    requires
        a@.len() == b@.len(),
        a@.len() > 0,
    ensures
        r == anchor_spec(a@, b@, a@.len() as int),
        is_first_min(a@, b@, a@.len() as int, r as int),
{
    let mut best: usize = 0;
    let mut best_gap: i64 = gap(&a[0], &b[0]);
    let mut i: usize = 1;
    while i < a.len()
        invariant
            a@.len() == b@.len(),
            1 <= i <= a@.len(),
            best == anchor_spec(a@, b@, i as int),
            best < i,
            best_gap == y_gap(a@, b@, best as int),
        decreases a@.len() - i,
    {
        let g = gap(&a[i], &b[i]);
        if g < best_gap {
            best = i;
            best_gap = g;
        }
        i = i + 1;
    }
    proof { lemma_anchor_is_first_min(a@, b@, a@.len() as int); }
    best
}

fn gap(p: &Detection, q: &Detection) -> (r: i64)
    ensures
        r == abs(p.y - q.y),
{
    let d = p.y as i64 - q.y as i64;
    if d < 0 { -d } else { d }
}

/// For each light, whether the two views place it more than `TOLERANCE`
/// pixels apart vertically: a sign of a likely mis-detection there.
pub fn view_disagreements(a: &Vec<Detection>, b: &Vec<Detection>) -> (r: Vec<bool>)
    requires
        a@.len() == b@.len(),
    ensures
        r@.len() == a@.len(),
        forall|i: int| 0 <= i < a@.len() ==> r@[i] == (y_gap(a@, b@, i) > TOLERANCE),
{
    let mut r: Vec<bool> = Vec::new();
    let mut i: usize = 0;
    while i < a.len()
        invariant
            a@.len() == b@.len(),
            i <= a@.len(),
            r@.len() == i,
            forall|j: int| 0 <= j < i ==> r@[j] == (y_gap(a@, b@, j) > TOLERANCE),
        decreases a@.len() - i,
    {
        r.push(gap(&a[i], &b[i]) > TOLERANCE);
        i = i + 1;
    }
    r
}

/// Fuses two opposed views of one axis. The anchor index calibrates an
/// offset for each view; each light's first-view coordinate is taken relative
/// to its offset, the second view's mirrored about its own, and the two are
/// averaged, as are the two vertical coordinates (rounding toward zero).
pub fn fuse(a: &Vec<Detection>, b: &Vec<Detection>) -> (r: Result<Vec<Fused>, FusionError>)
    ensures
        a@.len() == b@.len() <==> r is Ok,
        r is Ok ==> r->Ok_0@ == fuse_spec(a@, b@),
        r is Err ==> r->Err_0 == FusionError::ViewMismatch,
{
    if a.len() != b.len() {
        return Err(FusionError::ViewMismatch);
    }
    let mut r: Vec<Fused> = Vec::new();
    if a.len() == 0 {
        assert(r@ =~= fuse_spec(a@, b@));
        return Ok(r);
    }
    let k = anchor_index(a, b);
    let offset_a = a[k].x as i128;
    let offset_b = b[k].x as i128;
    let mut i: usize = 0;
    while i < a.len()
        invariant
            a@.len() == b@.len(),
            k < a@.len(),
            k == anchor_spec(a@, b@, a@.len() as int),
            offset_a == a@[k as int].x,
            offset_b == b@[k as int].x,
            i <= a@.len(),
            r@.len() == i,
            forall|j: int| 0 <= j < i ==> r@[j] == fused_at(a@, b@, k as int, j),
        decreases a@.len() - i,
    {
        let fa = a[i].x as i128 - offset_a;
        let fb = offset_b - b[i].x as i128;
        let primary = halve(fa + fb);
        let secondary = halve(a[i].y as i128 + b[i].y as i128);
        r.push(Fused { primary: primary as i64, secondary: secondary as i64 });
        i = i + 1;
    }
    assert(r@ =~= fuse_spec(a@, b@));
    Ok(r)
}

/// Combines the fused sequences of the two axis pairs into one point per
/// light: `x` and `z` from the axis-specific coordinates, `y` as the average
/// of the two vertical estimates, rounded toward zero.
pub fn assemble(xs: &Vec<Fused>, zs: &Vec<Fused>) -> (r: Result<Vec<Point3D>, FusionError>)
    ensures
        xs@.len() == zs@.len() <==> r is Ok,
        r is Ok ==> r->Ok_0@ == assemble_spec(xs@, zs@),
        r is Err ==> r->Err_0 == FusionError::AxisMismatch,
{
    if xs.len() != zs.len() {
        return Err(FusionError::AxisMismatch);
    }
    let mut r: Vec<Point3D> = Vec::new();
    let mut i: usize = 0;
    while i < xs.len()
        invariant
            xs@.len() == zs@.len(),
            i <= xs@.len(),
            r@.len() == i,
            forall|j: int| 0 <= j < i ==> r@[j] == point_at(xs@[j], zs@[j]),
        decreases xs@.len() - i,
    {
        let xf = xs[i];
        let zf = zs[i];
        let y = halve(xf.secondary as i128 + zf.secondary as i128);
        r.push(Point3D { x: xf.primary, y: y as i64, z: zf.primary });
        i = i + 1;
    }
    assert(r@ =~= assemble_spec(xs@, zs@));
    Ok(r)
}

/// For each light, whether the two axis pairs' vertical estimates differ by
/// more than `TOLERANCE`.
pub fn axis_disagreements(xs: &Vec<Fused>, zs: &Vec<Fused>) -> (r: Vec<bool>)
    requires
        xs@.len() == zs@.len(),
    ensures
        r@.len() == xs@.len(),
        forall|i: int| 0 <= i < xs@.len() ==>
            r@[i] == (abs(xs@[i].secondary - zs@[i].secondary) > TOLERANCE),
{
    let mut r: Vec<bool> = Vec::new();
    let mut i: usize = 0;
    while i < xs.len()
        invariant
            xs@.len() == zs@.len(),
            i <= xs@.len(),
            r@.len() == i,
            forall|j: int| 0 <= j < i ==>
                r@[j] == (abs(xs@[j].secondary - zs@[j].secondary) > TOLERANCE),
        decreases xs@.len() - i,
    {
        let d = xs[i].secondary as i128 - zs[i].secondary as i128;
        let g = if d < 0 { -d } else { d };
        r.push(g > TOLERANCE as i128);
        i = i + 1;
    }
    r
}

/// Fusion is a function of its inputs: two runs on the same views agree.
pub proof fn lemma_fuse_deterministic(
    a: Seq<Detection>,
    b: Seq<Detection>,
    r1: Seq<Fused>,
    r2: Seq<Fused>,
)
    requires
        r1 == fuse_spec(a, b),
        r2 == fuse_spec(a, b),
    ensures
        r1 == r2,
{
}

/// When the second view is an exact mirror of the first about the anchor's
/// offsets, both views give every light the same relative coordinate, and the
/// fused coordinate is that common value.
pub proof fn lemma_mirror_views(a: Seq<Detection>, b: Seq<Detection>)
    requires
        a.len() == b.len(),
        a.len() > 0,
        forall|i: int| 0 <= i < a.len() ==>
            #[trigger] b[i].x == b[anchor_of(a, b)].x - a[i].x + a[anchor_of(a, b)].x,
    ensures
        forall|i: int| 0 <= i < a.len() ==>
            fudge_a(a, anchor_of(a, b), i) == fudge_b(b, anchor_of(a, b), i)
            && #[trigger] fuse_spec(a, b)[i].primary == fudge_a(a, anchor_of(a, b), i),
{
    let k = anchor_of(a, b);
    lemma_anchor_is_first_min(a, b, a.len() as int);
    assert forall|i: int| 0 <= i < a.len() implies
        fudge_a(a, k, i) == fudge_b(b, k, i)
        && #[trigger] fuse_spec(a, b)[i].primary == fudge_a(a, k, i) by {
        assert(b[i].x == b[k].x - a[i].x + a[k].x);
        let f = fudge_a(a, k, i);
        assert(half(f + f) == f) by {
            if f >= 0 {
                assert((2 * f) / 2 == f);
            } else {
                assert((-(2 * f)) / 2 == -f);
            }
        }
    }
}

/// Halving rounds toward zero: its magnitude is half the magnitude, rounded
/// down, and its sign is that of the input. A negative odd sum `n` gives
/// `(n + 1) / 2`, one above the floor.
pub proof fn lemma_half_truncates(n: int)
    ensures
        abs(half(n)) == abs(n) / 2,
        n >= 0 ==> half(n) >= 0,
        n <= 0 ==> half(n) <= 0,
        n < 0 && n % 2 == 1 ==> half(n) == (n + 1) / 2 && half(n) == n / 2 + 1,
{
}

} // verus!
