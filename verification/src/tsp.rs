//! A visiting order for a set of points, improved by 2-opt local search.
//! The route is a path: it does not return to where it started.

use vstd::prelude::*;

verus! {

/// The largest coordinate for which distances are computed.
pub const MAX_COORD: usize = 0x7FFF_FFFF;

/// The square of the distance between two points.
pub open spec fn dist_sq(a: (usize, usize), b: (usize, usize)) -> int {
    (a.0 - b.0) * (a.0 - b.0) + (a.1 - b.1) * (a.1 - b.1)
}

/// Both coordinates of every point are at most `MAX_COORD`.
pub open spec fn in_range(points: Seq<(usize, usize)>) -> bool {
    forall|i: int| 0 <= i < points.len() ==> (#[trigger] points[i]).0 <= MAX_COORD && points[i].1
        <= MAX_COORD
}

/// The sum of the squared distances along `order` from place `a` to place `b`.
pub open spec fn seg_len(order: Seq<usize>, points: Seq<(usize, usize)>, a: int, b: int) -> int
    decreases b - a,
{
    if b <= a {
        0
    } else {
        seg_len(order, points, a, b - 1) + dist_sq(
            points[order[b - 1] as int],
            points[order[b] as int],
        )
    }
}

/// The sum of the squared distances between the points that follow each other in `order`.
pub open spec fn path_len(order: Seq<usize>, points: Seq<(usize, usize)>) -> int {
    seg_len(order, points, 0, order.len() - 1)
}

/// `route` visits each of `n` points once.
pub open spec fn is_perm(route: Seq<usize>, n: int) -> bool {
    &&& route.len() == n
    &&& forall|i: int| 0 <= i < n ==> (#[trigger] route[i]) < n
    &&& forall|i: int, j: int| 0 <= i < j < n ==> #[trigger] route[i] != #[trigger] route[j]
}

/// `idx` is the first of the points that are nearest to `target`.
pub open spec fn is_nearest(points: Seq<(usize, usize)>, target: (usize, usize), idx: int) -> bool {
    &&& 0 <= idx < points.len()
    &&& forall|j: int|
        0 <= j < points.len() ==> dist_sq(points[idx], target) <= dist_sq(
            #[trigger] points[j],
            target,
        )
    &&& forall|j: int|
        0 <= j < idx ==> dist_sq(points[idx], target) < dist_sq(#[trigger] points[j], target)
}

/// The top right corner of a grid `width` cells wide.
pub open spec fn corner(width: usize) -> (usize, usize) {
    (
        0,
        if width == 0 {
            0
        } else {
            (width - 1) as usize
        },
    )
}

/// The order `start, start + 1, ..` through `n` points, wrapping around at the end.
pub open spec fn rotated(n: int, start: int) -> Seq<usize> {
    Seq::new(
        n as nat,
        |i: int|
            if start + i < n {
                (start + i) as usize
            } else {
                (start + i - n) as usize
            },
    )
}

/// `order` with the places from `lo` to `hi` in reverse.
pub open spec fn reversed_range(order: Seq<usize>, lo: int, hi: int) -> Seq<usize> {
    Seq::new(
        order.len(),
        |j: int|
            if lo <= j <= hi {
                order[lo + hi - j]
            } else {
                order[j]
            },
    )
}

/// What the 2-opt move on the links after places `i` and `k` would save.
pub open spec fn gain(route: Seq<usize>, points: Seq<(usize, usize)>, i: int, k: int) -> int {
    dist_sq(points[route[i] as int], points[route[i + 1] as int]) + dist_sq(
        points[route[k] as int],
        points[route[k + 1] as int],
    ) - dist_sq(points[route[i] as int], points[route[k] as int]) - dist_sq(
        points[route[i + 1] as int],
        points[route[k + 1] as int],
    )
}

/// The route after the 2-opt move on the links after places `i` and `k`
/// was tried: the part between them is reversed where that saves length.
pub open spec fn tried(route: Seq<usize>, points: Seq<(usize, usize)>, i: int, k: int) -> Seq<usize> {
    if gain(route, points, i, k) > 0 {
        reversed_range(route, i + 1, k)
    } else {
        route
    }
}

/// The route after the moves on the link after place `i` and each link
/// from place `i + 2` up to, but not counting, place `upto` were tried in turn.
pub open spec fn swept_links(route: Seq<usize>, points: Seq<(usize, usize)>, i: int, upto: int) -> Seq<
    usize,
>
    decreases upto - i,
{
    if upto <= i + 2 {
        route
    } else {
        tried(swept_links(route, points, i, upto - 1), points, i, upto - 1)
    }
}

/// The route after, for each place `i` below `upto` in turn, the moves on
/// its link and every later link were tried.
pub open spec fn swept_places(route: Seq<usize>, points: Seq<(usize, usize)>, upto: int) -> Seq<usize>
    decreases upto,
{
    if upto <= 0 {
        route
    } else {
        swept_links(swept_places(route, points, upto - 1), points, upto - 1, route.len() - 1)
    }
}

/// The route after one round: every 2-opt move tried once, in order.
pub open spec fn round(route: Seq<usize>, points: Seq<(usize, usize)>) -> Seq<usize> {
    swept_places(route, points, route.len() - 2)
}

/// The route after `m` rounds.
pub open spec fn rounds(route: Seq<usize>, points: Seq<(usize, usize)>, m: nat) -> Seq<usize>
    decreases m,
{
    if m == 0 {
        route
    } else {
        round(rounds(route, points, (m - 1) as nat), points)
    }
}

/// `route` is what rounds of 2-opt moves make of `first`: it is reached
/// after some number of rounds, and one more round leaves it as it is.
pub open spec fn polished(first: Seq<usize>, points: Seq<(usize, usize)>, route: Seq<usize>) -> bool {
    exists|m: nat| route == #[trigger] rounds(first, points, m) && round(route, points) == route
}

/// Rounds after rounds are rounds.
pub proof fn lemma_rounds_add(first: Seq<usize>, points: Seq<(usize, usize)>, a: nat, b: nat)
    ensures
        rounds(first, points, a + b) == rounds(rounds(first, points, a), points, b),
    decreases b,
{
    if b > 0 {
        lemma_rounds_add(first, points, a, (b - 1) as nat);
        assert(rounds(first, points, a + b) == round(
            rounds(first, points, (a + b - 1) as nat),
            points,
        ));
    }
}

/// A route that a round leaves as it is stays as it is.
pub proof fn lemma_rounds_rest(route: Seq<usize>, points: Seq<(usize, usize)>, m: nat)
    requires
        round(route, points) == route,
    ensures
        rounds(route, points, m) == route,
    decreases m,
{
    if m > 0 {
        lemma_rounds_rest(route, points, (m - 1) as nat);
    }
}

/// The rounds fix the route: what they make of a first route is one route.
pub proof fn lemma_polished_one(
    first: Seq<usize>,
    points: Seq<(usize, usize)>,
    a: Seq<usize>,
    b: Seq<usize>,
)
    requires
        polished(first, points, a),
        polished(first, points, b),
    ensures
        a == b,
{
    let ma = choose|m: nat| a == #[trigger] rounds(first, points, m) && round(a, points) == a;
    let mb = choose|m: nat| b == #[trigger] rounds(first, points, m) && round(b, points) == b;
    if ma <= mb {
        lemma_rounds_add(first, points, ma, (mb - ma) as nat);
        lemma_rounds_rest(a, points, (mb - ma) as nat);
    } else {
        lemma_rounds_add(first, points, mb, (ma - mb) as nat);
        lemma_rounds_rest(b, points, (ma - mb) as nat);
    }
}

/// No 2-opt move shortens the route.
pub open spec fn two_opt_stable(route: Seq<usize>, points: Seq<(usize, usize)>) -> bool {
    forall|i: int, k: int|
        0 <= i && i + 2 <= k && k + 1 < route.len() ==> #[trigger] gain(route, points, i, k) <= 0
}

/// Squared distances between points in range are symmetric and fit in 63 bits.
pub proof fn lemma_dist_bounds(a: (usize, usize), b: (usize, usize))
    requires
        a.0 <= MAX_COORD,
        a.1 <= MAX_COORD,
        b.0 <= MAX_COORD,
        b.1 <= MAX_COORD,
    ensures
        0 <= dist_sq(a, b) <= 0x7FFF_FFFF_0000_0002,
        dist_sq(a, b) == dist_sq(b, a),
        0 <= (a.0 - b.0) * (a.0 - b.0) <= 0x3FFF_FFFF_0000_0001,
        0 <= (a.1 - b.1) * (a.1 - b.1) <= 0x3FFF_FFFF_0000_0001,
{
    let dx = a.0 - b.0;
    let dy = a.1 - b.1;
    assert(0 <= dx * dx <= 0x3FFF_FFFF_0000_0001) by (nonlinear_arith)
        requires
            -0x7FFF_FFFF <= dx <= 0x7FFF_FFFF,
    ;
    assert(0 <= dy * dy <= 0x3FFF_FFFF_0000_0001) by (nonlinear_arith)
        requires
            -0x7FFF_FFFF <= dy <= 0x7FFF_FFFF,
    ;
    assert((a.0 - b.0) * (a.0 - b.0) == (b.0 - a.0) * (b.0 - a.0)) by (nonlinear_arith);
    assert((a.1 - b.1) * (a.1 - b.1) == (b.1 - a.1) * (b.1 - a.1)) by (nonlinear_arith);
}

/// The square of the distance between two points.
pub fn euclidean_sq(a: (usize, usize), b: (usize, usize)) -> (d: u64)
    requires
        a.0 <= MAX_COORD,
        a.1 <= MAX_COORD,
        b.0 <= MAX_COORD,
        b.1 <= MAX_COORD,
    ensures
        d == dist_sq(a, b),
{
    proof {
        lemma_dist_bounds(a, b);
    }
    let dx = a.0 as i64 - b.0 as i64;
    let dy = a.1 as i64 - b.1 as i64;
    assert(dx * dx == (a.0 - b.0) * (a.0 - b.0));
    assert(dy * dy == (a.1 - b.1) * (a.1 - b.1));
    (dx * dx + dy * dy) as u64
}

/// A part of a route is no longer than a part that holds it.
pub proof fn lemma_seg_len_grows(
    order: Seq<usize>,
    points: Seq<(usize, usize)>,
    a: int,
    b: int,
    c: int,
)
    requires
        in_range(points),
        0 <= a <= b <= c < order.len(),
        forall|i: int| 0 <= i < order.len() ==> (#[trigger] order[i]) < points.len(),
    ensures
        0 <= seg_len(order, points, a, b) <= seg_len(order, points, a, c),
    decreases c - a,
{
    if c > a {
        if b < c {
            lemma_seg_len_grows(order, points, a, b, c - 1);
        } else {
            lemma_seg_len_grows(order, points, a, b - 1, c - 1);
        }
        assert(order[c - 1] < points.len() && order[c] < points.len());
        lemma_dist_bounds(points[order[c - 1] as int], points[order[c] as int]);
    }
}

/// The sum of the squared distances between the points that follow each other in `order`.
pub fn path_length(order: &[usize], points: &[(usize, usize)]) -> (len: u64)
    requires
        in_range(points@),
        forall|i: int| 0 <= i < order@.len() ==> (#[trigger] order@[i]) < points@.len(),
        path_len(order@, points@) <= u64::MAX,
    ensures
        len == path_len(order@, points@),
{
    let mut sum: u64 = 0;
    if order.len() < 2 {
        return sum;
    }
    let mut j: usize = 1;
    while j < order.len()
        invariant
            in_range(points@),
            forall|i: int| 0 <= i < order@.len() ==> (#[trigger] order@[i]) < points@.len(),
            path_len(order@, points@) <= u64::MAX,
            1 <= j <= order@.len(),
            sum == seg_len(order@, points@, 0, j - 1),
        decreases order@.len() - j,
    {
        proof {
            lemma_seg_len_grows(order@, points@, 0, j as int, order@.len() - 1);
        }
        let a = order[j - 1];
        let b = order[j];
        assert(points@[a as int].0 <= MAX_COORD);
        assert(points@[b as int].0 <= MAX_COORD);
        let d = euclidean_sq(points[a], points[b]);
        sum = sum + d;
        j = j + 1;
    }
    sum
}

/// Two routes that agree from place `a` to place `b` are equally long there.
pub proof fn lemma_seg_len_same(
    r1: Seq<usize>,
    r2: Seq<usize>,
    points: Seq<(usize, usize)>,
    a: int,
    b: int,
)
    requires
        forall|j: int| a <= j <= b ==> r1[j] == r2[j],
    ensures
        seg_len(r1, points, a, b) == seg_len(r2, points, a, b),
    decreases b - a,
{
    if b > a {
        lemma_seg_len_same(r1, r2, points, a, b - 1);
    }
}

/// The length of a part is the length of its first piece plus that of the rest.
pub proof fn lemma_seg_len_split(
    order: Seq<usize>,
    points: Seq<(usize, usize)>,
    a: int,
    b: int,
    c: int,
)
    requires
        a <= b <= c,
    ensures
        seg_len(order, points, a, c) == seg_len(order, points, a, b) + seg_len(order, points, b, c),
    decreases c - b,
{
    if c > b {
        lemma_seg_len_split(order, points, a, b, c - 1);
    }
}

/// A part walked backwards is as long as walked forwards.
pub proof fn lemma_seg_len_reversed(
    r: Seq<usize>,
    points: Seq<(usize, usize)>,
    lo: int,
    hi: int,
    t: int,
)
    requires
        in_range(points),
        0 <= lo <= hi < r.len(),
        0 <= t <= hi - lo,
        forall|i: int| 0 <= i < r.len() ==> (#[trigger] r[i]) < points.len(),
    ensures
        seg_len(reversed_range(r, lo, hi), points, lo, lo + t) == seg_len(r, points, hi - t, hi),
    decreases t,
{
    let rev = reversed_range(r, lo, hi);
    if t > 0 {
        lemma_seg_len_reversed(r, points, lo, hi, t - 1);
        lemma_seg_len_split(r, points, hi - t, hi - t + 1, hi);
        assert(seg_len(r, points, hi - t, hi - t + 1) == dist_sq(
            points[r[hi - t] as int],
            points[r[hi - t + 1] as int],
        )) by {
            assert(seg_len(r, points, hi - t, hi - t) == 0);
        }
        assert(rev[lo + t - 1] == r[hi - t + 1]);
        assert(rev[lo + t] == r[hi - t]);
        assert(r[hi - t] < points.len() && r[hi - t + 1] < points.len());
        lemma_dist_bounds(points[r[hi - t] as int], points[r[hi - t + 1] as int]);
    }
}

/// What a 2-opt move does to the length of the route.
pub proof fn lemma_two_opt_move(r: Seq<usize>, points: Seq<(usize, usize)>, i: int, k: int)
    requires
        in_range(points),
        0 <= i,
        i + 2 <= k,
        k + 1 < r.len(),
        forall|j: int| 0 <= j < r.len() ==> (#[trigger] r[j]) < points.len(),
    ensures
        path_len(reversed_range(r, i + 1, k), points) == path_len(r, points) - gain(r, points, i, k),
{
    let rev = reversed_range(r, i + 1, k);
    let n = r.len() as int;
    lemma_seg_len_split(r, points, 0, i, n - 1);
    lemma_seg_len_split(r, points, i, i + 1, n - 1);
    lemma_seg_len_split(r, points, i + 1, k, n - 1);
    lemma_seg_len_split(r, points, k, k + 1, n - 1);
    lemma_seg_len_split(rev, points, 0, i, n - 1);
    lemma_seg_len_split(rev, points, i, i + 1, n - 1);
    lemma_seg_len_split(rev, points, i + 1, k, n - 1);
    lemma_seg_len_split(rev, points, k, k + 1, n - 1);
    lemma_seg_len_same(r, rev, points, 0, i);
    lemma_seg_len_same(r, rev, points, k + 1, n - 1);
    lemma_seg_len_reversed(r, points, i + 1, k, k - i - 1);
    assert(seg_len(r, points, i, i + 1) == dist_sq(points[r[i] as int], points[r[i + 1] as int]))
        by {
        assert(seg_len(r, points, i, i) == 0);
    }
    assert(seg_len(r, points, k, k + 1) == dist_sq(points[r[k] as int], points[r[k + 1] as int]))
        by {
        assert(seg_len(r, points, k, k) == 0);
    }
    assert(seg_len(rev, points, i, i + 1) == dist_sq(points[r[i] as int], points[r[k] as int]))
        by {
        assert(seg_len(rev, points, i, i) == 0);
        assert(rev[i] == r[i]);
        assert(rev[i + 1] == r[k]);
    }
    assert(seg_len(rev, points, k, k + 1) == dist_sq(
        points[r[i + 1] as int],
        points[r[k + 1] as int],
    )) by {
        assert(seg_len(rev, points, k, k) == 0);
        assert(rev[k] == r[i + 1]);
        assert(rev[k + 1] == r[k + 1]);
    }
}

/// A route with a part reversed visits the same points.
pub proof fn lemma_reversed_perm(r: Seq<usize>, n: int, lo: int, hi: int)
    requires
        is_perm(r, n),
        0 <= lo <= hi < n,
    ensures
        is_perm(reversed_range(r, lo, hi), n),
        reversed_range(r, lo, hi)[0] == (if lo == 0 {
            r[hi]
        } else {
            r[0]
        }),
{
    let rev = reversed_range(r, lo, hi);
    assert forall|i: int, j: int| 0 <= i < j < n implies #[trigger] rev[i] != #[trigger] rev[j] by {
        let si = if lo <= i <= hi {
            lo + hi - i
        } else {
            i
        };
        let sj = if lo <= j <= hi {
            lo + hi - j
        } else {
            j
        };
        assert(rev[i] == r[si] && rev[j] == r[sj]);
        if si < sj {
            assert(r[si] != r[sj]);
        } else {
            assert(r[sj] != r[si]);
        }
    }
}

/// Reverses the places from `lo` to `hi` of the route.
fn reverse_range(route: &mut Vec<usize>, lo: usize, hi: usize)
    requires
        lo <= hi < old(route)@.len(),
    ensures
        final(route)@ == reversed_range(old(route)@, lo as int, hi as int),
{
    let ghost start = route@;
    let mut a = lo;
    let mut b = hi;
    while a < b
        invariant
            lo <= a,
            b <= hi,
            a + b == lo + hi,
            a <= b + 1,
            hi < start.len(),
            route@.len() == start.len(),
            forall|j: int|
                0 <= j < start.len() ==> (#[trigger] route@[j]) == (if (lo <= j < a) || (b < j
                    <= hi) {
                    start[lo + hi - j]
                } else {
                    start[j]
                }),
        decreases hi - a,
    {
        let x = route[a];
        let y = route[b];
        route[a] = y;
        route[b] = x;
        a = a + 1;
        b = b - 1;
    }
    assert(route@ =~= reversed_range(start, lo as int, hi as int));
}

/// The first of the points nearest to `target`.
fn nearest(points: &[(usize, usize)], target: (usize, usize)) -> (idx: usize)
    requires
        points@.len() > 0,
        in_range(points@),
        target.0 <= MAX_COORD,
        target.1 <= MAX_COORD,
    ensures
        is_nearest(points@, target, idx as int),
{
    let mut best: usize = 0;
    assert(points@[0].0 <= MAX_COORD);
    let mut best_d = euclidean_sq(points[0], target);
    let mut j: usize = 1;
    while j < points.len()
        invariant
            in_range(points@),
            target.0 <= MAX_COORD,
            target.1 <= MAX_COORD,
            1 <= j <= points@.len(),
            0 <= best < j,
            best_d == dist_sq(points@[best as int], target),
            forall|i: int| 0 <= i < j ==> best_d <= dist_sq(#[trigger] points@[i], target),
            forall|i: int| 0 <= i < best ==> best_d < dist_sq(#[trigger] points@[i], target),
        decreases points@.len() - j,
    {
        assert(points@[j as int].0 <= MAX_COORD);
        let d = euclidean_sq(points[j], target);
        if d < best_d {
            best = j;
            best_d = d;
        }
        j = j + 1;
    }
    best
}

/// A visiting order for the points, as indices into `points`. The route
/// starts at the first of the points nearest to the top right corner
/// `(0, width - 1)` and goes through the points in their given order,
/// wrapping around; with four points or more it is then improved by 2-opt
/// moves, which reverse a part of the route where that makes it shorter,
/// until no such move is left. Lengths are sums of squared distances.
pub fn optimize_route_with_2opt(points: &[(usize, usize)], width: usize) -> (route: Vec<usize>)
    requires
        in_range(points@),
        width <= MAX_COORD + 1,
    ensures
        is_perm(route@, points@.len() as int),
        points@.len() < 2 ==> route@ == rotated(points@.len() as int, 0),
        points@.len() >= 2 ==> exists|start: int|
            {
                &&& #[trigger] is_nearest(points@, corner(width), start)
                &&& route@[0] == start
                &&& points@.len() < 4 ==> route@ == rotated(points@.len() as int, start)
                &&& path_len(route@, points@) <= path_len(
                    rotated(points@.len() as int, start),
                    points@,
                )
                &&& points@.len() >= 4 ==> two_opt_stable(route@, points@)
                &&& points@.len() >= 4 ==> polished(
                    rotated(points@.len() as int, start),
                    points@,
                    route@,
                )
            },
{
    let n = points.len();
    let mut route: Vec<usize> = Vec::new();
    if n < 2 {
        if n == 1 {
            route.push(0);
        }
        assert(route@ =~= rotated(n as int, 0));
        return route;
    }
    let top_right = (0usize, width.saturating_sub(1));
    let start_idx = nearest(points, top_right);
    let mut i: usize = 0;
    while i < n
        invariant
            n == points@.len(),
            start_idx < n,
            0 <= i <= n,
            route@.len() == i,
            forall|j: int| 0 <= j < i ==> (#[trigger] route@[j]) == rotated(n as int, start_idx as int)[j],
        decreases n - i,
    {
        if n - start_idx > i {
            route.push(start_idx + i);
        } else {
            route.push(i - (n - start_idx));
        }
        i = i + 1;
    }
    let ghost first = rotated(n as int, start_idx as int);
    proof {
        assert(route@ =~= first);
        assert(is_perm(first, n as int)) by {
            assert forall|a: int, b: int| 0 <= a < b < n implies #[trigger] first[a]
                != #[trigger] first[b] by {}
        }
    }
    proof {
        assert(top_right == corner(width));
        assert(is_nearest(points@, corner(width), start_idx as int));
        lemma_seg_len_grows(route@, points@, 0, 0, n - 1);
    }
    if n < 4 {
        return route;
    }
    let mut improved = true;
    let ghost mut done: nat = 0;
    while improved
        invariant
            n == points@.len(),
            n >= 4,
            in_range(points@),
            is_perm(route@, n as int),
            route@[0] == start_idx,
            is_nearest(points@, corner(width), start_idx as int),
            first == rotated(n as int, start_idx as int),
            route@ == rounds(first, points@, done),
            !improved ==> round(route@, points@) == route@,
            path_len(route@, points@) <= path_len(first, points@),
            !improved ==> two_opt_stable(route@, points@),
            0 <= path_len(route@, points@),
        decreases path_len(route@, points@), (if improved { 1int } else { 0int }),
    {
        improved = false;
        let ghost before = route@;
        let mut i: usize = 0;
        while i < n - 2
            invariant
                n == points@.len(),
                n >= 4,
                in_range(points@),
                is_perm(route@, n as int),
                route@[0] == start_idx,
                0 <= i <= n - 2,
                before.len() == n,
                route@ == swept_places(before, points@, i as int),
                path_len(route@, points@) <= path_len(before, points@),
                0 <= path_len(route@, points@),
                improved ==> path_len(route@, points@) < path_len(before, points@),
                !improved ==> route@ == before && forall|a: int, b: int|
                    0 <= a < i && a + 2 <= b && b + 1 < n ==> #[trigger] gain(
                        route@,
                        points@,
                        a,
                        b,
                    ) <= 0,
            decreases n - 2 - i,
        {
            let ghost row_start = route@;
            let mut k: usize = i + 2;
            while k < n - 1
                invariant
                    before.len() == n,
                    row_start == swept_places(before, points@, i as int),
                    route@ == swept_links(row_start, points@, i as int, k as int),
                    n == points@.len(),
                    n >= 4,
                    in_range(points@),
                    is_perm(route@, n as int),
                    route@[0] == start_idx,
                    0 <= i < n - 2,
                    i + 2 <= k <= n - 1,
                    path_len(route@, points@) <= path_len(before, points@),
                    0 <= path_len(route@, points@),
                    improved ==> path_len(route@, points@) < path_len(before, points@),
                    !improved ==> route@ == before && forall|a: int, b: int|
                        0 <= a < i && a + 2 <= b && b + 1 < n ==> #[trigger] gain(
                            route@,
                            points@,
                            a,
                            b,
                        ) <= 0,
                    !improved ==> forall|b: int|
                        i + 2 <= b < k ==> #[trigger] gain(route@, points@, i as int, b) <= 0,
                decreases n - 1 - k,
            {
                let a = route[i];
                let b = route[i + 1];
                let c = route[k];
                let d = route[k + 1];
                proof {
                    assert(route@[i as int] < n && route@[i + 1] < n && route@[k as int] < n
                        && route@[k + 1] < n);
                    assert(points@[a as int].0 <= MAX_COORD);
                    assert(points@[b as int].0 <= MAX_COORD);
                    assert(points@[c as int].0 <= MAX_COORD);
                    assert(points@[d as int].0 <= MAX_COORD);
                    lemma_dist_bounds(points@[a as int], points@[b as int]);
                    lemma_dist_bounds(points@[c as int], points@[d as int]);
                    lemma_dist_bounds(points@[a as int], points@[c as int]);
                    lemma_dist_bounds(points@[b as int], points@[d as int]);
                }
                let current = euclidean_sq(points[a], points[b]) + euclidean_sq(
                    points[c],
                    points[d],
                );
                let candidate = euclidean_sq(points[a], points[c]) + euclidean_sq(
                    points[b],
                    points[d],
                );
                assert(gain(route@, points@, i as int, k as int) == current - candidate);
                if candidate < current {
                    let ghost r0 = route@;
                    reverse_range(&mut route, i + 1, k);
                    proof {
                        lemma_two_opt_move(r0, points@, i as int, k as int);
                        lemma_reversed_perm(r0, n as int, i + 1, k as int);
                        lemma_seg_len_grows(route@, points@, 0, 0, n - 1);
                    }
                    improved = true;
                }
                k = k + 1;
            }
            i = i + 1;
        }
        proof {
            assert(route@ == round(before, points@));
            done = done + 1;
        }
    }
    proof {
        assert(is_nearest(points@, corner(width), start_idx as int));
        assert(polished(first, points@, route@));
    }
    route
}

} // verus!
