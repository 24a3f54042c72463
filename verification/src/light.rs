//! Which voxels a light reaches.
use vstd::prelude::*;

verus! {

/// The offset `(x, y, z)` lies in the ball of radius `r` about the origin.
pub open spec fn in_ball(r: int, x: int, y: int, z: int) -> bool {
    x * x + y * y + z * z <= r * r
}

/// Offset `a` comes before offset `b` in the order x, then y, then z.
pub open spec fn lex_less(a: (int, int, int), b: (int, int, int)) -> bool {
    ||| a.0 < b.0
    ||| a.0 == b.0 && a.1 < b.1
    ||| a.0 == b.0 && a.1 == b.1 && a.2 < b.2
}

/// The offset of a point from `start`.
pub open spec fn offset_of(p: (i32, i32, i32), start: (i32, i32, i32)) -> (int, int, int) {
    (p.0 - start.0, p.1 - start.1, p.2 - start.2)
}

/// The point `start + (x, y, z)`.
pub open spec fn shifted(start: (i32, i32, i32), x: int, y: int, z: int) -> (i32, i32, i32) {
    ((start.0 + x) as i32, (start.1 + y) as i32, (start.2 + z) as i32)
}

/// Every point of `pts` lies in the ball of radius `r` about `start`, and
/// their offsets are strictly increasing in the order x, y, z.
pub open spec fn sorted_ball_points(pts: Seq<(i32, i32, i32)>, r: int, start: (i32, i32, i32)) -> bool {
    &&& forall|i: int|
        0 <= i < pts.len() ==> {
            let o = #[trigger] offset_of(pts[i], start);
            &&& -r <= o.0 <= r
            &&& -r <= o.1 <= r
            &&& -r <= o.2 <= r
            &&& in_ball(r, o.0, o.1, o.2)
        }
    &&& forall|i: int, j: int|
        0 <= i < j < pts.len() ==> lex_less(offset_of(pts[i], start), offset_of(pts[j], start))
}

/// Every lattice point of the ball of radius `r` about `start` is in `pts`.
pub open spec fn complete_ball(pts: Seq<(i32, i32, i32)>, r: int, start: (i32, i32, i32)) -> bool {
    forall|x: int, y: int, z: int|
        in_ball(r, x, y, z) && -r <= x <= r && -r <= y <= r && -r <= z <= r ==> #[trigger] pts.contains(
            shifted(start, x, y, z),
        )
}

/// `pts` lists the lattice points of the ball of radius `r` about `start`,
/// each once, in the order x, then y, then z.
pub open spec fn ball_listing(pts: Seq<(i32, i32, i32)>, r: int, start: (i32, i32, i32)) -> bool {
    sorted_ball_points(pts, r, start) && complete_ball(pts, r, start)
}

/// Every point of the box of half-width `r` about `start` is representable.
pub open spec fn room_around(start: (i32, i32, i32), r: int) -> bool {
    &&& i32::MIN + r <= start.0 <= i32::MAX - r
    &&& i32::MIN + r <= start.1 <= i32::MAX - r
    &&& i32::MIN + r <= start.2 <= i32::MAX - r
}

proof fn lemma_square_bound(a: int, r: int)
    requires
        -r <= a <= r,
        0 <= r <= 32767,
    ensures
        0 <= a * a <= r * r <= 1073676289,
{
    assert(0 <= a * a <= r * r) by (nonlinear_arith)
        requires
            -r <= a <= r,
            0 <= r,
    ;
    assert(r * r <= 32767 * 32767) by (nonlinear_arith)
        requires
            0 <= r <= 32767,
    ;
}

/// The lattice points within distance `radius` of `start` (the boundary
/// included), ordered by x, then y, then z; empty for a negative radius.
pub fn points_in_sphere(radius: i32, start: (i32, i32, i32)) -> (points: Vec<(i32, i32, i32)>)
    requires
        i32::MIN < radius <= 32767,
        radius >= 0 ==> {
            &&& i32::MIN + radius <= start.0 <= i32::MAX - radius
            &&& i32::MIN + radius <= start.1 <= i32::MAX - radius
            &&& i32::MIN + radius <= start.2 <= i32::MAX - radius
        },
    ensures
        ball_listing(points@, radius as int, start),
{
    let mut points: Vec<(i32, i32, i32)> = Vec::new();
    if radius < 0 {
        return points;
    }
    proof {
        lemma_square_bound(radius as int, radius as int);
    }
    let r2 = radius * radius;
    let mut x: i32 = -radius;
    while x <= radius
        invariant
            0 <= radius <= 32767,
            r2 == radius * radius,
            r2 <= 1073676289,
            -radius <= x <= radius + 1,
            i32::MIN + radius <= start.0 <= i32::MAX - radius,
            i32::MIN + radius <= start.1 <= i32::MAX - radius,
            i32::MIN + radius <= start.2 <= i32::MAX - radius,
            sorted_ball_points(points@, radius as int, start),
            forall|i: int| 0 <= i < points@.len() ==> (#[trigger] offset_of(points@[i], start)).0 < x,
            forall|a: int, b: int, c: int|
                in_ball(radius as int, a, b, c) && -radius <= a < x && -radius <= b <= radius && -radius
                    <= c <= radius ==> #[trigger] points@.contains(shifted(start, a, b, c)),
        decreases radius + 1 - x,
    {
        proof {
            lemma_square_bound(x as int, radius as int);
        }
        let x2 = x * x;
        let mut y: i32 = -radius;
        while y <= radius
            invariant
                0 <= radius <= 32767,
                r2 == radius * radius,
                r2 <= 1073676289,
                -radius <= x <= radius,
                -radius <= y <= radius + 1,
                x2 == x * x,
                0 <= x2 <= r2,
                i32::MIN + radius <= start.0 <= i32::MAX - radius,
                i32::MIN + radius <= start.1 <= i32::MAX - radius,
                i32::MIN + radius <= start.2 <= i32::MAX - radius,
                sorted_ball_points(points@, radius as int, start),
                forall|i: int|
                    0 <= i < points@.len() ==> lex_less(
                        #[trigger] offset_of(points@[i], start),
                        (x as int, y as int, -radius as int),
                    ),
                forall|a: int, b: int, c: int|
                    in_ball(radius as int, a, b, c) && -radius <= a <= radius && -radius <= b <= radius
                        && -radius <= c <= radius && (a < x || (a == x && b < y))
                        ==> #[trigger] points@.contains(shifted(start, a, b, c)),
            decreases radius + 1 - y,
        {
            proof {
                lemma_square_bound(y as int, radius as int);
            }
            let y2 = y * y;
            proof {
                assert(x2 <= r2 && y2 <= r2) by (nonlinear_arith)
                    requires
                        x2 == x * x,
                        y2 == y * y,
                        r2 == radius * radius,
                        -radius <= x <= radius,
                        -radius <= y <= radius,
                ;
            }
            if x2 + y2 > r2 {
                proof {
                    assert forall|c: int| #![auto] !in_ball(radius as int, x as int, y as int, c) by {
                        assert(x * x + y * y + c * c > radius * radius) by (nonlinear_arith)
                            requires
                                x2 + y2 > r2,
                                x2 == x * x,
                                y2 == y * y,
                                r2 == radius * radius,
                        ;
                    }
                }
                y = y + 1;
                continue;
            }
            let mut z: i32 = -radius;
            while z <= radius
                invariant
                    0 <= radius <= 32767,
                    r2 == radius * radius,
                    r2 <= 1073676289,
                    -radius <= x <= radius,
                    -radius <= y <= radius,
                    -radius <= z <= radius + 1,
                    x2 == x * x,
                    y2 == y * y,
                    x2 + y2 <= r2,
                    x2 >= 0,
                    y2 >= 0,
                    i32::MIN + radius <= start.0 <= i32::MAX - radius,
                    i32::MIN + radius <= start.1 <= i32::MAX - radius,
                    i32::MIN + radius <= start.2 <= i32::MAX - radius,
                    sorted_ball_points(points@, radius as int, start),
                    forall|i: int|
                        0 <= i < points@.len() ==> lex_less(
                            #[trigger] offset_of(points@[i], start),
                            (x as int, y as int, z as int),
                        ),
                    forall|a: int, b: int, c: int|
                        in_ball(radius as int, a, b, c) && -radius <= a <= radius && -radius <= b
                            <= radius && -radius <= c <= radius && (a < x || (a == x && b < y) || (a == x
                            && b == y && c < z)) ==> #[trigger] points@.contains(shifted(start, a, b, c)),
                decreases radius + 1 - z,
            {
                proof {
                    lemma_square_bound(z as int, radius as int);
                }
                let z2 = z * z;
                proof {
                    assert(z2 <= r2) by (nonlinear_arith)
                        requires
                            z2 == z * z,
                            r2 == radius * radius,
                            -radius <= z <= radius,
                    ;
                }
                if x2 + y2 + z2 <= r2 {
                    let p = (start.0 + x, start.1 + y, start.2 + z);
                    let ghost before = points@;
                    points.push(p);
                    proof {
                        assert(offset_of(p, start) == (x as int, y as int, z as int));
                        assert(p == shifted(start, x as int, y as int, z as int));
                        assert forall|a: int, b: int, c: int|
                            in_ball(radius as int, a, b, c) && -radius <= a <= radius && -radius <= b
                                <= radius && -radius <= c <= radius && (a < x || (a == x && b < y) || (a
                                == x && b == y && c < z + 1)) implies #[trigger] points@.contains(
                            shifted(start, a, b, c),
                        ) by {
                            if a == x && b == y && c == z {
                                assert(points@[before.len() as int] == p);
                            } else {
                                assert(before.contains(shifted(start, a, b, c)));
                                let k = choose|k: int|
                                    0 <= k < before.len() && before[k] == shifted(start, a, b, c);
                                assert(points@[k] == before[k]);
                            }
                        }
                    }
                } else {
                    proof {
                        assert(!in_ball(radius as int, x as int, y as int, z as int));
                    }
                }
                z = z + 1;
            }
            y = y + 1;
        }
        x = x + 1;
    }
    points
}

/// Two lists, each strictly increasing in the order x, y, z, that hold the
/// same points are the same list.
proof fn lemma_sorted_unique(a: Seq<(int, int, int)>, b: Seq<(int, int, int)>)
    requires
        forall|i: int, j: int| 0 <= i < j < a.len() ==> lex_less(#[trigger] a[i], #[trigger] a[j]),
        forall|i: int, j: int| 0 <= i < j < b.len() ==> lex_less(#[trigger] b[i], #[trigger] b[j]),
        forall|x: (int, int, int)| a.contains(x) == b.contains(x),
    ensures
        a == b,
    decreases a.len(),
{
    if a.len() == 0 {
        if b.len() > 0 {
            assert(b.contains(b[0]));
        }
        assert(a =~= b);
    } else {
        if b.len() == 0 {
            assert(a.contains(a[0]));
        }
        assert(b.contains(a[0]));
        assert(a.contains(b[0]));
        let k = choose|k: int| 0 <= k < b.len() && b[k] == a[0];
        let j = choose|j: int| 0 <= j < a.len() && a[j] == b[0];
        if k > 0 {
            assert(lex_less(b[0], b[k]));
            if j > 0 {
                assert(lex_less(a[0], a[j]));
            }
        }
        assert(a[0] == b[0]);
        let ta = a.drop_first();
        let tb = b.drop_first();
        assert forall|x: (int, int, int)| ta.contains(x) == tb.contains(x) by {
            if ta.contains(x) {
                let i = choose|i: int| 0 <= i < ta.len() && ta[i] == x;
                assert(a[i + 1] == x);
                assert(lex_less(a[0], a[i + 1]));
                assert(a.contains(x));
                let m = choose|m: int| 0 <= m < b.len() && b[m] == x;
                assert(m != 0);
                assert(tb[m - 1] == x);
            }
            if tb.contains(x) {
                let i = choose|i: int| 0 <= i < tb.len() && tb[i] == x;
                assert(b[i + 1] == x);
                assert(lex_less(b[0], b[i + 1]));
                assert(b.contains(x));
                let m = choose|m: int| 0 <= m < a.len() && a[m] == x;
                assert(m != 0);
                assert(ta[m - 1] == x);
            }
        }
        assert forall|i: int, j: int| 0 <= i < j < ta.len() implies lex_less(#[trigger] ta[i], #[trigger] ta[j]) by {
            assert(ta[i] == a[i + 1] && ta[j] == a[j + 1]);
        }
        assert forall|i: int, j: int| 0 <= i < j < tb.len() implies lex_less(#[trigger] tb[i], #[trigger] tb[j]) by {
            assert(tb[i] == b[i + 1] && tb[j] == b[j + 1]);
        }
        lemma_sorted_unique(ta, tb);
        assert(a =~= seq![a[0]] + ta);
        assert(b =~= seq![b[0]] + tb);
    }
}

/// The offsets of the points of `pts` from `start`.
pub open spec fn offsets(pts: Seq<(i32, i32, i32)>, start: (i32, i32, i32)) -> Seq<(int, int, int)> {
    pts.map_values(|p: (i32, i32, i32)| offset_of(p, start))
}

proof fn lemma_listing_offsets(pts: Seq<(i32, i32, i32)>, r: int, start: (i32, i32, i32))
    requires
        0 <= r,
        room_around(start, r),
        ball_listing(pts, r, start),
    ensures
        forall|i: int, j: int|
            0 <= i < j < offsets(pts, start).len() ==> lex_less(
                #[trigger] offsets(pts, start)[i],
                #[trigger] offsets(pts, start)[j],
            ),
        forall|x: (int, int, int)|
            offsets(pts, start).contains(x) == (in_ball(r, x.0, x.1, x.2) && -r <= x.0 <= r && -r <= x.1 <= r
                && -r <= x.2 <= r),
{
    let o = offsets(pts, start);
    assert forall|x: (int, int, int)|
        o.contains(x) == (in_ball(r, x.0, x.1, x.2) && -r <= x.0 <= r && -r <= x.1 <= r && -r <= x.2
            <= r) by {
        if o.contains(x) {
            let i = choose|i: int| 0 <= i < o.len() && o[i] == x;
            assert(offset_of(pts[i], start) == x);
        }
        if in_ball(r, x.0, x.1, x.2) && -r <= x.0 <= r && -r <= x.1 <= r && -r <= x.2 <= r {
            assert(pts.contains(shifted(start, x.0, x.1, x.2)));
            let k = choose|k: int| 0 <= k < pts.len() && pts[k] == shifted(start, x.0, x.1, x.2);
            assert(o[k] == x);
        }
    }
}

/// Moving the centre moves every point: listed as `points_in_sphere` lists
/// them, the lattice points of a ball about `start` are those of the ball
/// about the origin, each shifted by `start`, in the same order.
pub proof fn lemma_sphere_translates(
    a: Seq<(i32, i32, i32)>,
    b: Seq<(i32, i32, i32)>,
    r: int,
    start: (i32, i32, i32),
)
    requires
        0 <= r <= 32767,
        room_around(start, r),
        ball_listing(a, r, start),
        ball_listing(b, r, (0i32, 0i32, 0i32)),
    ensures
        a == b.map_values(|p: (i32, i32, i32)| shifted(start, p.0 as int, p.1 as int, p.2 as int)),
{
    let origin = (0i32, 0i32, 0i32);
    lemma_listing_offsets(a, r, start);
    lemma_listing_offsets(b, r, origin);
    lemma_sorted_unique(offsets(a, start), offsets(b, origin));
    let m = b.map_values(|p: (i32, i32, i32)| shifted(start, p.0 as int, p.1 as int, p.2 as int));
    assert forall|i: int| 0 <= i < a.len() implies a[i] == m[i] by {
        assert(offsets(a, start)[i] == offsets(b, origin)[i]);
        assert(offset_of(a[i], start) == offset_of(b[i], origin));
    }
    assert(a =~= m);
}

} // verus!
