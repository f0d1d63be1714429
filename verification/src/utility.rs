//! Grid positions and the four directions.
//!
//! A direction is a pair of offsets added with wrap-around, so that a step
//! up or to the left needs no negative number: one less is `usize::MAX`
//! more, and a step off the top or the left edge lands far outside the grid.

use vstd::prelude::*;

verus! {

/// One step back, as an offset: adding it with wrap-around takes one away.
pub const N1: usize = usize::MAX;

/// The offsets of a step up.
pub const UP: (usize, usize) = (N1, 0);

/// The offsets of a step down.
pub const DOWN: (usize, usize) = (1, 0);

/// The offsets of a step to the left.
pub const LEFT: (usize, usize) = (0, N1);

/// The offsets of a step to the right.
pub const RIGHT: (usize, usize) = (0, 1);

/// The four directions in the order in which every search tries them.
pub const ADJ: [(usize, usize); 4] = [RIGHT, UP, LEFT, DOWN];

/// The `i`-th direction: right, up, left, down.
pub open spec fn direction(i: int) -> (usize, usize) {
    if i == 0 {
        RIGHT
    } else if i == 1 {
        UP
    } else if i == 2 {
        LEFT
    } else {
        DOWN
    }
}

/// `d` is one of the four directions.
pub open spec fn is_direction(d: (usize, usize)) -> bool {
    d == RIGHT || d == UP || d == LEFT || d == DOWN
}

/// `a + d` with wrap-around.
pub open spec fn shift(a: usize, d: usize) -> usize {
    if a + d > usize::MAX {
        (a + d - usize::MAX - 1) as usize
    } else {
        (a + d) as usize
    }
}

/// The cell one step from `pos`, if it lies in the `h` by `w` grid.
pub open spec fn step(pos: (usize, usize), h: usize, w: usize, d: (usize, usize)) -> Option<
    (usize, usize),
> {
    let n = (shift(pos.0, d.0), shift(pos.1, d.1));
    if n.0 < h && n.1 < w {
        Some(n)
    } else {
        None
    }
}

/// How far `k` steps by the offset `d` lead: `usize::MAX` stands for one back.
pub open spec fn stride(d: usize, k: int) -> int {
    if d == usize::MAX {
        -k
    } else if d == 0 {
        0
    } else if d == 1 {
        k
    } else {
        k * d
    }
}

/// The point `k` steps from `(r, c)` in direction `d`, in plain integers.
pub open spec fn moved(r: int, c: int, d: (usize, usize), k: int) -> (int, int) {
    (r + stride(d.0, k), c + stride(d.1, k))
}

/// How many cells lie beyond the grid cell `pos` in direction `d`.
pub open spec fn reach(pos: (usize, usize), h: usize, w: usize, d: (usize, usize)) -> nat {
    if d == RIGHT {
        (w - 1 - pos.1) as nat
    } else if d == LEFT {
        pos.1 as nat
    } else if d == UP {
        pos.0 as nat
    } else {
        (h - 1 - pos.0) as nat
    }
}

/// The cells beyond the grid cell `pos` in direction `d`, nearest first.
pub open spec fn run(pos: (usize, usize), h: usize, w: usize, d: (usize, usize)) -> Seq<
    (usize, usize),
> {
    Seq::new(
        reach(pos, h, w, d),
        |k: int|
            (
                moved(pos.0 as int, pos.1 as int, d, k + 1).0 as usize,
                moved(pos.0 as int, pos.1 as int, d, k + 1).1 as usize,
            ),
    )
}

/// The cells met when walking from `pos` in direction `d` until the walk
/// leaves the grid, nearest first.
pub open spec fn ray(pos: (usize, usize), h: usize, w: usize, d: (usize, usize)) -> Seq<
    (usize, usize),
> {
    match step(pos, h, w, d) {
        None => Seq::empty(),
        Some(n) => seq![n] + run(n, h, w, d),
    }
}

/// The cell as a list, empty where there is none.
pub open spec fn one_or_none(o: Option<(usize, usize)>) -> Seq<(usize, usize)> {
    match o {
        Some(n) => seq![n],
        None => Seq::empty(),
    }
}

/// The neighbours of `pos` that lie in the grid, in the order right, up, left, down.
pub open spec fn neighbors(pos: (usize, usize), h: usize, w: usize) -> Seq<(usize, usize)> {
    one_or_none(step(pos, h, w, RIGHT)) + one_or_none(step(pos, h, w, UP)) + one_or_none(
        step(pos, h, w, LEFT),
    ) + one_or_none(step(pos, h, w, DOWN))
}

/// From a cell of the grid, the walk in direction `d` visits exactly the
/// cells `1, 2, ..` steps away, up to the edge.
pub proof fn lemma_ray_from_inside(pos: (usize, usize), h: usize, w: usize, d: (usize, usize))
    requires
        pos.0 < h,
        pos.1 < w,
        is_direction(d),
    ensures
        ray(pos, h, w, d) == run(pos, h, w, d),
        forall|k: int|
            0 <= k < reach(pos, h, w, d) ==> {
                let m = moved(pos.0 as int, pos.1 as int, d, k + 1);
                &&& 0 <= m.0 < h
                &&& 0 <= m.1 < w
                &&& (#[trigger] run(pos, h, w, d)[k]) == (m.0 as usize, m.1 as usize)
            },
{
    assert(ray(pos, h, w, d) =~= run(pos, h, w, d));
}

/// Stepping over a grid whose size is fixed by the caller.
pub trait GridUtility {
    /// The position that the value stands for.
    spec fn pos(&self) -> (usize, usize);

    /// The neighbours inside the grid.
    fn adj(&self, h: usize, w: usize) -> (res: Vec<(usize, usize)>)
        ensures
            res@ == neighbors(self.pos(), h, w),
    ;

    /// The cells in direction `dir`, nearest first, up to the edge of the grid.
    fn while_dir(&self, h: usize, w: usize, dir: (usize, usize)) -> (res: Vec<(usize, usize)>)
        requires
            is_direction(dir),
        ensures
            res@ == ray(self.pos(), h, w, dir),
    ;

    /// One step by the offsets `dir`, or `None` where that leaves the grid.
    fn dir(&self, h: usize, w: usize, dir: (usize, usize)) -> (res: Option<(usize, usize)>)
        ensures
            res == step(self.pos(), h, w, dir),
    ;

    fn up(&self, h: usize, w: usize) -> (res: Option<(usize, usize)>)
        ensures
            res == step(self.pos(), h, w, UP),
    {
        self.dir(h, w, UP)
    }

    fn down(&self, h: usize, w: usize) -> (res: Option<(usize, usize)>)
        ensures
            res == step(self.pos(), h, w, DOWN),
    {
        self.dir(h, w, DOWN)
    }

    fn left(&self, h: usize, w: usize) -> (res: Option<(usize, usize)>)
        ensures
            res == step(self.pos(), h, w, LEFT),
    {
        self.dir(h, w, LEFT)
    }

    fn right(&self, h: usize, w: usize) -> (res: Option<(usize, usize)>)
        ensures
            res == step(self.pos(), h, w, RIGHT),
    {
        self.dir(h, w, RIGHT)
    }
}

impl GridUtility for (usize, usize) {
    open spec fn pos(&self) -> (usize, usize) {
        *self
    }

    fn adj(&self, h: usize, w: usize) -> (res: Vec<(usize, usize)>) {
        let mut res: Vec<(usize, usize)> = Vec::new();
        let mut i: usize = 0;
        while i < 4
            invariant
                0 <= i <= 4,
                res@ == if i == 0 {
                    Seq::<(usize, usize)>::empty()
                } else if i == 1 {
                    one_or_none(step(*self, h, w, RIGHT))
                } else if i == 2 {
                    one_or_none(step(*self, h, w, RIGHT)) + one_or_none(step(*self, h, w, UP))
                } else if i == 3 {
                    one_or_none(step(*self, h, w, RIGHT)) + one_or_none(step(*self, h, w, UP))
                        + one_or_none(step(*self, h, w, LEFT))
                } else {
                    neighbors(*self, h, w)
                },
            decreases 4 - i,
        {
            if let Some(n) = self.dir(h, w, ADJ[i]) {
                res.push(n);
            }
            i = i + 1;
        }
        res
    }

    fn while_dir(&self, h: usize, w: usize, dir: (usize, usize)) -> (res: Vec<(usize, usize)>) {
        let mut res: Vec<(usize, usize)> = Vec::new();
        let first = self.dir(h, w, dir);
        if let Some(start) = first {
            res.push(start);
            let mut cur = start;
            loop
                invariant
                    is_direction(dir),
                    start.0 < h,
                    start.1 < w,
                    cur.0 < h,
                    cur.1 < w,
                    res@.len() >= 1,
                    res@.len() - 1 <= reach(start, h, w, dir),
                    res@ == seq![start] + run(start, h, w, dir).take(res@.len() - 1),
                    cur == res@.last(),
                ensures
                    res@ == seq![start] + run(start, h, w, dir),
                decreases reach(start, h, w, dir) - (res@.len() - 1),
            {
                let next = cur.dir(h, w, dir);
                proof {
                    lemma_ray_from_inside(start, h, w, dir);
                    let done = res@.len() - 1;
                    if done > 0 {
                        assert(cur == run(start, h, w, dir)[done - 1]);
                    }
                }
                match next {
                    None => {
                        proof {
                            assert(res@.len() - 1 == reach(start, h, w, dir));
                            assert(run(start, h, w, dir).take(res@.len() - 1) =~= run(
                                start,
                                h,
                                w,
                                dir,
                            ));
                        }
                        break ;
                    },
                    Some(n) => {
                        proof {
                            let done = res@.len() - 1;
                            assert(done < reach(start, h, w, dir));
                            assert(n == run(start, h, w, dir)[done]);
                            assert(run(start, h, w, dir).take(done + 1) =~= run(
                                start,
                                h,
                                w,
                                dir,
                            ).take(done).push(n));
                        }
                        res.push(n);
                        cur = n;
                    },
                }
            }
        }
        res
    }

    fn dir(&self, h: usize, w: usize, dir: (usize, usize)) -> (res: Option<(usize, usize)>) {
        let (dr, dc) = dir;
        let nr = self.0.wrapping_add(dr);
        let nc = self.1.wrapping_add(dc);
        if nr < h && nc < w {
            Some((nr, nc))
        } else {
            None
        }
    }
}

} // verus!
