//! Robots patrolling a wrapping grid.
//!
//! Each robot has a position and a velocity; one step of size `n` moves it
//! `n` times its velocity, wrapping around the grid in both directions.
//! The safety score multiplies the number of robots in each of the four
//! quadrants; robots on the middle lines count for no quadrant.

use vstd::prelude::*;

verus! {

/// A cell of the grid.
#[derive(Debug, PartialEq, Clone, Copy)]
pub struct Position {
    pub x: usize,
    pub y: usize,
}

/// A velocity in cells per step, possibly negative.
#[derive(Debug, PartialEq, Clone, Copy)]
pub struct Velocity {
    pub x: i16,
    pub y: i16,
}

/// A robot: where it stands and how it moves.
#[derive(Debug, PartialEq)]
pub struct Robot {
    pub pos: Position,
    pub velocity: Velocity,
}

/// The grid with its patrolling robots.
#[derive(Debug, PartialEq)]
pub struct Grid {
    pub size_x: usize,
    pub size_y: usize,
    pub robots: Vec<Robot>,
}

impl Position {
    pub fn new(x: usize, y: usize) -> (p: Position)
        ensures
            p == (Position { x, y }),
    {
        Position { x, y }
    }
}

impl Velocity {
    pub fn new(x: i16, y: i16) -> (v: Velocity)
        ensures
            v == (Velocity { x, y }),
    {
        Velocity { x, y }
    }
}

/// Where a coordinate lands after `n` steps of velocity `v` on an axis of
/// length `size`, wrapping around.
pub open spec fn wrap_coord(p: int, n: int, v: int, size: int) -> int {
    (p + n * v) % size
}

impl Robot {
    pub fn new(pos: Position, velocity: Velocity) -> (r: Robot)
        ensures
            r == (Robot { pos, velocity }),
    {
        Robot { pos, velocity }
    }

    /// Advance the robot `n` steps at its velocity, wrapping around the
    /// grid in both directions.
    pub fn step(&mut self, n: &usize, size_x: &usize, size_y: &usize)
        requires
            0 < *size_x <= 32767,
            0 < *size_y <= 32767,
            old(self).pos.x < *size_x,
            old(self).pos.y < *size_y,
            *n <= 32767,
        ensures
            final(self).velocity == old(self).velocity,
            final(self).pos.x as int == wrap_coord(
                old(self).pos.x as int,
                *n as int,
                old(self).velocity.x as int,
                *size_x as int,
            ),
            final(self).pos.y as int == wrap_coord(
                old(self).pos.y as int,
                *n as int,
                old(self).velocity.y as int,
                *size_y as int,
            ),
            final(self).pos.x < *size_x,
            final(self).pos.y < *size_y,
    {
        let new_x = Self::wrap_exec(self.pos.x, *n, self.velocity.x, *size_x);
        let new_y = Self::wrap_exec(self.pos.y, *n, self.velocity.y, *size_y);
        self.pos = Position::new(new_x, new_y);
    }

    /// One axis of the wrapping step.
    fn wrap_exec(p: usize, n: usize, v: i16, size: usize) -> (r: usize)
        requires
            0 < size <= 32767,
            p < size,
            n <= 32767,
        ensures
            r as int == wrap_coord(p as int, n as int, v as int, size as int),
            r < size,
    {
        proof {
            assert(-1073741824 <= n as int * v as int <= 1073741824) by (nonlinear_arith)
                requires
                    0 <= n as int <= 32767,
                    -32768 <= v as int <= 32767,
            ;
            assert(1073741824 * (size as int) <= 0x7fff_ffff_0000_0000) by (nonlinear_arith)
                requires
                    1 <= size as int <= 32767,
            ;
            assert(0 <= 1073741824 * (size as int) - 1073741824) by (nonlinear_arith)
                requires
                    1 <= size as int,
            ;
        }
        let t: i64 = (p as i64) + (n as i64) * (v as i64);
        // shift into nonnegative territory by a whole number of laps
        let shifted: i64 = t + 1073741824i64 * (size as i64);
        proof {
            assert(0 <= shifted) by (nonlinear_arith)
                requires
                    t == p as i64 + n as i64 * v as i64,
                    0 <= p < size as i64,
                    0 <= n as i64 <= 32767,
                    -32768 <= v as i64 <= 32767,
                    shifted == t + 1073741824i64 * (size as i64),
                    1 <= size as i64 <= 32767,
            ;
            assert(shifted <= 0x7fff_ffff_ffff_ffffi64) by (nonlinear_arith)
                requires
                    t == p as i64 + n as i64 * v as i64,
                    0 <= p < size as i64,
                    0 <= n as i64 <= 32767,
                    -32768 <= v as i64 <= 32767,
                    shifted == t + 1073741824i64 * (size as i64),
                    1 <= size as i64 <= 32767,
            ;
        }
        let m = shifted % (size as i64);
        proof {
            vstd::arithmetic::div_mod::lemma_mod_bound(shifted as int, size as int);
            vstd::arithmetic::div_mod::lemma_mod_multiples_vanish(
                1073741824int,
                t as int,
                size as int,
            );
        }
        m as usize
    }
}

/// How many of the first `k` robots the predicate holds of.
pub open spec fn count_where(rs: Seq<Robot>, k: int, f: spec_fn(Robot) -> bool) -> int
    decreases k,
{
    if k <= 0 {
        0
    } else {
        count_where(rs, k - 1, f) + if f(rs[k - 1]) {
            1int
        } else {
            0
        }
    }
}

proof fn lemma_count_where_bounds(rs: Seq<Robot>, k: int, f: spec_fn(Robot) -> bool)
    ensures
        0 <= count_where(rs, k, f) <= if k >= 0 {
            k
        } else {
            0
        },
    decreases k,
{
    if k > 0 {
        lemma_count_where_bounds(rs, k - 1, f);
    }
}

impl Grid {
    pub fn new(size_x: usize, size_y: usize, robots: Vec<Robot>) -> (g: Grid)
        ensures
            g == (Grid { size_x, size_y, robots }),
    {
        Grid { size_x, size_y, robots }
    }

    /// Every robot stands on the grid, and the grid fits the wrapping step.
    pub open spec fn wf(self) -> bool {
        &&& 0 < self.size_x <= 32767
        &&& 0 < self.size_y <= 32767
        &&& forall|k: int|
            0 <= k < self.robots@.len() ==> {
                &&& (#[trigger] self.robots@[k]).pos.x < self.size_x
                &&& self.robots@[k].pos.y < self.size_y
            }
    }

    /// Advance every robot by `steps` steps at its velocity.
    pub fn simulate(&mut self, steps: usize)
        requires
            old(self).wf(),
            steps <= 32767,
        ensures
            final(self).wf(),
            final(self).size_x == old(self).size_x,
            final(self).size_y == old(self).size_y,
            final(self).robots@.len() == old(self).robots@.len(),
            forall|k: int|
                0 <= k < old(self).robots@.len() ==> {
                    &&& (#[trigger] final(self).robots@[k]).velocity == old(
                        self,
                    ).robots@[k].velocity
                    &&& final(self).robots@[k].pos.x as int == wrap_coord(
                        old(self).robots@[k].pos.x as int,
                        steps as int,
                        old(self).robots@[k].velocity.x as int,
                        old(self).size_x as int,
                    )
                    &&& final(self).robots@[k].pos.y as int == wrap_coord(
                        old(self).robots@[k].pos.y as int,
                        steps as int,
                        old(self).robots@[k].velocity.y as int,
                        old(self).size_y as int,
                    )
                },
    {
        let sx = self.size_x;
        let sy = self.size_y;
        let mut k: usize = 0;
        while k < self.robots.len()
            invariant
                0 < sx <= 32767,
                0 < sy <= 32767,
                sx == self.size_x,
                sy == self.size_y,
                sx == old(self).size_x,
                sy == old(self).size_y,
                steps <= 32767,
                k <= self.robots@.len(),
                self.robots@.len() == old(self).robots@.len(),
                old(self).wf(),
                forall|q: int|
                    k <= q < self.robots@.len() ==> (#[trigger] self.robots@[q]) == old(
                        self,
                    ).robots@[q],
                forall|q: int|
                    0 <= q < k ==> {
                        &&& (#[trigger] self.robots@[q]).velocity == old(self).robots@[q].velocity
                        &&& self.robots@[q].pos.x < sx
                        &&& self.robots@[q].pos.y < sy
                        &&& self.robots@[q].pos.x as int == wrap_coord(
                            old(self).robots@[q].pos.x as int,
                            steps as int,
                            old(self).robots@[q].velocity.x as int,
                            sx as int,
                        )
                        &&& self.robots@[q].pos.y as int == wrap_coord(
                            old(self).robots@[q].pos.y as int,
                            steps as int,
                            old(self).robots@[q].velocity.y as int,
                            sy as int,
                        )
                    },
            decreases self.robots@.len() - k,
        {
            proof {
                assert(self.robots@[k as int] == old(self).robots@[k as int]);
                assert(old(self).robots@[k as int].pos.x < sx);
                assert(old(self).robots@[k as int].pos.y < sy);
            }
            let p = self.robots[k].pos;
            let v = self.robots[k].velocity;
            let mut r = Robot { pos: p, velocity: v };
            r.step(&steps, &sx, &sy);
            self.robots[k] = r;
            k = k + 1;
        }
    }

    /// The lower x bound, upper x bound, lower y bound and upper y bound of
    /// the quadrant split: robots at most the low bound are left or upper,
    /// robots at least the high bound are right or lower.
    pub open spec fn quad_x0(self) -> int {
        self.size_x as int / 2 - 1
    }

    pub open spec fn quad_x1(self) -> int {
        self.size_x as int / 2 + 1
    }

    pub open spec fn quad_y0(self) -> int {
        self.size_y as int / 2 - 1
    }

    pub open spec fn quad_y1(self) -> int {
        self.size_y as int / 2 + 1
    }

    /// The number of robots in the upper-left quadrant.
    pub open spec fn count_ul(self) -> int {
        count_where(
            self.robots@,
            self.robots@.len() as int,
            |r: Robot| r.pos.y <= self.quad_y0() && r.pos.x <= self.quad_x0(),
        )
    }

    /// The number of robots in the upper-right quadrant.
    pub open spec fn count_ur(self) -> int {
        count_where(
            self.robots@,
            self.robots@.len() as int,
            |r: Robot| r.pos.y <= self.quad_y0() && r.pos.x >= self.quad_x1(),
        )
    }

    /// The number of robots in the lower-left quadrant.
    pub open spec fn count_ll(self) -> int {
        count_where(
            self.robots@,
            self.robots@.len() as int,
            |r: Robot| r.pos.y >= self.quad_y1() && r.pos.x <= self.quad_x0(),
        )
    }

    /// The number of robots in the lower-right quadrant.
    pub open spec fn count_lr(self) -> int {
        count_where(
            self.robots@,
            self.robots@.len() as int,
            |r: Robot| r.pos.y >= self.quad_y1() && r.pos.x >= self.quad_x1(),
        )
    }

    /// The quadrant safety score: the number of robots in each of the four
    /// quadrants, multiplied.  Robots on the middle lines count nowhere.
    pub fn calculate_quad_score(&self) -> (score: usize)
        requires
            2 <= self.size_x,
            2 <= self.size_y,
            self.count_ll() * self.count_lr() <= usize::MAX,
            self.count_ll() * self.count_lr() * self.count_ul() <= usize::MAX,
            self.count_ll() * self.count_lr() * self.count_ul() * self.count_ur() <= usize::MAX,
        ensures
            score as int == self.count_ll() * self.count_lr() * self.count_ul()
                * self.count_ur(),
    {
        let quad_x0 = self.size_x / 2 - 1;
        let quad_x1 = self.size_x / 2 + 1;
        let quad_y0 = self.size_y / 2 - 1;
        let quad_y1 = self.size_y / 2 + 1;
        let ghost fll = |r: Robot| r.pos.y >= self.quad_y1() && r.pos.x <= self.quad_x0();
        let ghost flr = |r: Robot| r.pos.y >= self.quad_y1() && r.pos.x >= self.quad_x1();
        let ghost ful = |r: Robot| r.pos.y <= self.quad_y0() && r.pos.x <= self.quad_x0();
        let ghost fur = |r: Robot| r.pos.y <= self.quad_y0() && r.pos.x >= self.quad_x1();
        let mut lower_left_count: usize = 0;
        let mut lower_right_count: usize = 0;
        let mut upper_left_count: usize = 0;
        let mut upper_right_count: usize = 0;
        let mut k: usize = 0;
        while k < self.robots.len()
            invariant
                2 <= self.size_x,
                2 <= self.size_y,
                quad_x0 as int == self.quad_x0(),
                quad_x1 as int == self.quad_x1(),
                quad_y0 as int == self.quad_y0(),
                quad_y1 as int == self.quad_y1(),
                k <= self.robots@.len(),
                lower_left_count as int == count_where(self.robots@, k as int, fll),
                lower_right_count as int == count_where(self.robots@, k as int, flr),
                upper_left_count as int == count_where(self.robots@, k as int, ful),
                upper_right_count as int == count_where(self.robots@, k as int, fur),
                fll == (|r: Robot| r.pos.y >= self.quad_y1() && r.pos.x <= self.quad_x0()),
                flr == (|r: Robot| r.pos.y >= self.quad_y1() && r.pos.x >= self.quad_x1()),
                ful == (|r: Robot| r.pos.y <= self.quad_y0() && r.pos.x <= self.quad_x0()),
                fur == (|r: Robot| r.pos.y <= self.quad_y0() && r.pos.x >= self.quad_x1()),
            decreases self.robots@.len() - k,
        {
            proof {
                lemma_count_where_bounds(self.robots@, k as int, fll);
                lemma_count_where_bounds(self.robots@, k as int, flr);
                lemma_count_where_bounds(self.robots@, k as int, ful);
                lemma_count_where_bounds(self.robots@, k as int, fur);
            }
            let r = &self.robots[k];
            let is_lower = r.pos.y >= quad_y1;
            let is_upper = r.pos.y <= quad_y0;
            let is_left = r.pos.x <= quad_x0;
            let is_right = r.pos.x >= quad_x1;
            if is_lower && is_left {
                lower_left_count = lower_left_count + 1;
            }
            if is_lower && is_right {
                lower_right_count = lower_right_count + 1;
            }
            if is_upper && is_right {
                upper_right_count = upper_right_count + 1;
            }
            if is_upper && is_left {
                upper_left_count = upper_left_count + 1;
            }
            k = k + 1;
        }
        proof {
            lemma_mul_chain_bounds(
                self.count_ll(),
                self.count_lr(),
                self.count_ul(),
                self.count_ur(),
            );
        }
        lower_left_count * lower_right_count * upper_left_count * upper_right_count
    }
}

/// In a chain of products of nonnegative factors, every partial product is
/// nonnegative.
proof fn lemma_mul_chain_bounds(a: int, b: int, c: int, d: int)
    requires
        0 <= a,
        0 <= b,
        0 <= c,
        0 <= d,
    ensures
        0 <= a * b,
        0 <= a * b * c,
        0 <= a * b * c * d,
    decreases 0int,
{
    assert(0 <= a * b) by (nonlinear_arith)
        requires
            0 <= a,
            0 <= b,
    ;
    assert(0 <= a * b * c) by (nonlinear_arith)
        requires
            0 <= a * b,
            0 <= c,
    ;
    assert(0 <= a * b * c * d) by (nonlinear_arith)
        requires
            0 <= a * b * c,
            0 <= d,
    ;
}

} // verus!
