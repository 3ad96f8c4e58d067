//! Hiking-trail counting over a rectangular height map.
//!
//! A map holds a height in [0, 9] for every cell.  A route starts at a
//! trailhead (a height-0 cell) and moves left, right, up or down, each step
//! onto a cell exactly one higher, until it reaches height 9.  The total
//! route count of a map is the number of such routes, summed over all
//! trailheads; two routes that reach the same height-9 cell along different
//! paths both count.

use vstd::prelude::*;

use crate::GridError;

verus! {

/// An action on a map: one step in one of the four axis directions.
pub enum Move {
    Left,
    Right,
    Up,
    Down,
}

/// A grid coordinate: `x` counts columns, `y` counts rows.
#[derive(PartialEq, Eq, Hash, Copy, Clone, Debug)]
pub struct Position {
    pub x: usize,
    pub y: usize,
}

impl Position {
    /// Position initialisation from two coordinates.
    pub fn new(x: usize, y: usize) -> (p: Position)
        ensures
            p == (Position { x, y }),
    {
        Position { x, y }
    }
}

/// A height on the map; valid heights lie in [0, 9].
#[derive(Debug, PartialEq, Clone, Copy)]
pub struct Height(pub u8);

impl Height {
    /// Create a height, refusing any value above nine.
    pub fn new(value: &u8) -> (r: Option<Height>)
        ensures
            r == if *value < 10 {
                Some(Height(*value))
            } else {
                None::<Height>
            },
    {
        if *value < 10 {
            Some(Height(*value))
        } else {
            None
        }
    }

    /// Get the underlying height value.
    pub fn value(self) -> (v: u8)
        ensures
            v == self.0,
    {
        self.0
    }
}

/// A walk over the map: the positions stepped on, in order.
#[derive(Debug, PartialEq)]
pub struct Route {
    pub positions: Vec<Position>,
}

/// The failure of a step: off the map, or not exactly one step up.
#[derive(Debug, PartialEq)]
pub enum Error {
    InvalidMove,
}

/// The sum of all height-0 positions of the first `t` cells of row `y`, in
/// column order.
pub open spec fn row_zeros(r: Seq<u8>, y: usize, t: int) -> Seq<Position>
    decreases t,
{
    if t <= 0 {
        Seq::empty()
    } else {
        row_zeros(r, y, t - 1) + if r[t - 1] == 0 {
            seq![Position { x: (t - 1) as usize, y }]
        } else {
            Seq::empty()
        }
    }
}

/// All height-0 positions of the first `t` rows, in row-major order.
pub open spec fn grid_zeros(g: Seq<Seq<u8>>, t: int) -> Seq<Position>
    decreases t,
{
    if t <= 0 {
        Seq::empty()
    } else {
        grid_zeros(g, t - 1) + row_zeros(g[t - 1], (t - 1) as usize, g[t - 1].len() as int)
    }
}

/// A map is a rectangular grid of heights, with its trailheads (the
/// height-0 cells) found once at construction and kept.
#[derive(Debug, PartialEq)]
pub struct TrailMap {
    pub grid: Vec<Vec<Height>>,
    pub trailheads: Vec<Position>,
    pub max_x: usize,
    pub max_y: usize,
}

impl TrailMap {
    /// The grid is rectangular and non-empty, heights are valid, and the
    /// remembered trailheads lie on the map.
    pub open spec fn wf(self) -> bool {
        &&& 0 < self.max_x
        &&& 0 < self.max_y
        &&& self.grid@.len() == self.max_y
        &&& forall|y: int| 0 <= y < self.max_y ==> (#[trigger] self.grid@[y])@.len() == self.max_x
        &&& forall|x: int, y: int|
            0 <= x < self.max_x && 0 <= y < self.max_y ==> (#[trigger] self.grid@[y]@[x]).0 <= 9
        &&& forall|k: int|
            0 <= k < self.trailheads@.len() ==> {
                &&& (#[trigger] self.trailheads@[k]).x < self.max_x
                &&& self.trailheads@[k].y < self.max_y
            }
    }

    pub open spec fn in_bounds(self, x: int, y: int) -> bool {
        0 <= x < self.max_x && 0 <= y < self.max_y
    }

    /// The height of the cell at (x, y).
    pub open spec fn height_at(self, x: int, y: int) -> int {
        self.grid@[y]@[x].0 as int
    }

    /// The step one cell along (dx, dy) stays on the map and climbs by
    /// exactly one.
    pub open spec fn ascends(self, x: int, y: int, dx: int, dy: int) -> bool {
        &&& self.in_bounds(x + dx, y + dy)
        &&& self.height_at(x + dx, y + dy) == self.height_at(x, y) + 1
    }

    /// How many distinct strictly-ascending unit-step routes lead from the
    /// cell at (x, y) to a height-9 cell.  The count depends only on the map
    /// and the cell, not on how the cell was reached.
    pub open spec fn trail_count(self, x: int, y: int) -> nat
        decreases 9 - self.height_at(x, y),
    {
        if !self.in_bounds(x, y) {
            0
        } else if self.height_at(x, y) >= 9 {
            if self.height_at(x, y) == 9 {
                1
            } else {
                0
            }
        } else {
            (if self.ascends(x, y, -1, 0) {
                self.trail_count(x - 1, y)
            } else {
                0
            }) + (if self.ascends(x, y, 1, 0) {
                self.trail_count(x + 1, y)
            } else {
                0
            }) + (if self.ascends(x, y, 0, -1) {
                self.trail_count(x, y - 1)
            } else {
                0
            }) + (if self.ascends(x, y, 0, 1) {
                self.trail_count(x, y + 1)
            } else {
                0
            })
        }
    }

    /// The route counts of the first `k` trailheads, summed.
    pub open spec fn total_trails_upto(self, k: int) -> nat
        decreases k,
    {
        if k <= 0 {
            0
        } else {
            self.total_trails_upto(k - 1) + self.trail_count(
                self.trailheads@[k - 1].x as int,
                self.trailheads@[k - 1].y as int,
            )
        }
    }

    /// The total route count of the map: over every trailhead, the number
    /// of routes from it, summed.
    pub open spec fn total_trails(self) -> nat {
        self.total_trails_upto(self.trailheads@.len() as int)
    }

    /// Read in a map from a rectangular grid of raw height values, finding
    /// the trailheads along the way in row-major order.
    pub fn read(vec_grid: Vec<Vec<u8>>) -> (m: TrailMap)
        requires
            0 < vec_grid@.len(),
            0 < vec_grid@[0]@.len(),
            forall|y: int|
                0 <= y < vec_grid@.len() ==> (#[trigger] vec_grid@[y])@.len()
                    == vec_grid@[0]@.len(),
            forall|x: int, y: int|
                0 <= y < vec_grid@.len() && 0 <= x < vec_grid@[0]@.len()
                    ==> (#[trigger] vec_grid@[y]@[x]) < 10,
        ensures
            m.wf(),
            m.max_y == vec_grid@.len(),
            m.max_x == vec_grid@[0]@.len(),
            forall|x: int, y: int|
                m.in_bounds(x, y) ==> #[trigger] m.height_at(x, y) == vec_grid@[y]@[x],
            m.trailheads@ == grid_zeros(
                vec_grid@.map_values(|r: Vec<u8>| r@),
                vec_grid@.len() as int,
            ),
    {
        let ghost rows = vec_grid@.map_values(|r: Vec<u8>| r@);
        let max_y = vec_grid.len();
        let max_x = vec_grid[0].len();
        let mut grid: Vec<Vec<Height>> = Vec::new();
        let mut trailheads: Vec<Position> = Vec::new();
        let mut j: usize = 0;
        while j < max_y
            invariant
                j <= max_y,
                rows == vec_grid@.map_values(|r: Vec<u8>| r@),
                max_y == vec_grid@.len(),
                max_x == vec_grid@[0]@.len(),
                forall|y: int|
                    0 <= y < max_y ==> (#[trigger] vec_grid@[y])@.len() == max_x,
                forall|x: int, y: int|
                    0 <= y < max_y && 0 <= x < max_x ==> (#[trigger] vec_grid@[y]@[x]) < 10,
                grid@.len() == j,
                forall|y: int| 0 <= y < j ==> (#[trigger] grid@[y])@.len() == max_x,
                forall|x: int, y: int|
                    0 <= y < j && 0 <= x < max_x ==> (#[trigger] grid@[y]@[x]).0
                        == vec_grid@[y]@[x],
                trailheads@ == grid_zeros(rows, j as int),
                forall|k: int|
                    0 <= k < trailheads@.len() ==> (#[trigger] trailheads@[k]).x < max_x
                        && trailheads@[k].y < max_y,
            decreases max_y - j,
        {
            let row = &vec_grid[j];
            let mut hrow: Vec<Height> = Vec::new();
            let mut i: usize = 0;
            while i < max_x
                invariant
                    i <= max_x,
                    j < max_y,
                    rows == vec_grid@.map_values(|r: Vec<u8>| r@),
                    max_y == vec_grid@.len(),
                    max_x == vec_grid@[0]@.len(),
                    row == &vec_grid[j as int],
                    row@.len() == max_x,
                    forall|x: int| 0 <= x < max_x ==> (#[trigger] row@[x]) < 10,
                    hrow@.len() == i,
                    forall|x: int| 0 <= x < i ==> (#[trigger] hrow@[x]).0 == row@[x],
                    trailheads@ == grid_zeros(rows, j as int) + row_zeros(
                        rows[j as int],
                        j,
                        i as int,
                    ),
                    forall|k: int|
                        0 <= k < trailheads@.len() ==> (#[trigger] trailheads@[k]).x < max_x
                            && trailheads@[k].y < max_y,
                decreases max_x - i,
            {
                let element = row[i];
                let height = Height::new(&element).unwrap();
                hrow.push(height);
                if element == 0 {
                    trailheads.push(Position::new(i, j));
                }
                proof {
                    assert(rows[j as int] == vec_grid@[j as int]@);
                    assert(rows[j as int][i as int] == row@[i as int]);
                }
                i = i + 1;
            }
            grid.push(hrow);
            proof {
                assert(rows[j as int].len() == max_x);
            }
            j = j + 1;
        }
        TrailMap { grid, trailheads, max_x, max_y }
    }

    /// Validate a grid of raw height values and read it in: an empty or
    /// ragged grid is malformed, a value above nine is an invalid height.
    pub fn build(vec_grid: Vec<Vec<u8>>) -> (r: Result<TrailMap, GridError>)
        ensures
            match r {
                Ok(m) => {
                    &&& 0 < vec_grid@.len()
                    &&& 0 < vec_grid@[0]@.len()
                    &&& forall|y: int|
                        0 <= y < vec_grid@.len() ==> (#[trigger] vec_grid@[y])@.len()
                            == vec_grid@[0]@.len()
                    &&& forall|x: int, y: int|
                        0 <= y < vec_grid@.len() && 0 <= x < vec_grid@[0]@.len()
                            ==> (#[trigger] vec_grid@[y]@[x]) < 10
                    &&& m.wf()
                    &&& m.max_y == vec_grid@.len()
                    &&& m.max_x == vec_grid@[0]@.len()
                    &&& forall|x: int, y: int|
                        m.in_bounds(x, y) ==> #[trigger] m.height_at(x, y) == vec_grid@[y]@[x]
                    &&& m.trailheads@ == grid_zeros(
                        vec_grid@.map_values(|r: Vec<u8>| r@),
                        vec_grid@.len() as int,
                    )
                },
                Err(e) => {
                    ||| (e == GridError::MalformedInput && (vec_grid@.len() == 0
                        || vec_grid@[0]@.len() == 0 || exists|y: int|
                        0 <= y < vec_grid@.len() && (#[trigger] vec_grid@[y])@.len()
                            != vec_grid@[0]@.len()))
                    ||| (e == GridError::InvalidHeight && exists|x: int, y: int|
                        0 <= y < vec_grid@.len() && 0 <= x < vec_grid@[y]@.len()
                            && (#[trigger] vec_grid@[y]@[x]) >= 10)
                },
            },
    {
        if vec_grid.len() == 0 {
            return Err(GridError::MalformedInput);
        }
        if vec_grid[0].len() == 0 {
            return Err(GridError::MalformedInput);
        }
        let width = vec_grid[0].len();
        let mut j: usize = 0;
        while j < vec_grid.len()
            invariant
                j <= vec_grid@.len(),
                0 < vec_grid@.len(),
                width == vec_grid@[0]@.len(),
                forall|y: int| 0 <= y < j ==> (#[trigger] vec_grid@[y])@.len() == width,
                forall|x: int, y: int|
                    0 <= y < j && 0 <= x < width ==> (#[trigger] vec_grid@[y]@[x]) < 10,
            decreases vec_grid@.len() - j,
        {
            if vec_grid[j].len() != width {
                return Err(GridError::MalformedInput);
            }
            let mut i: usize = 0;
            while i < width
                invariant
                    i <= width,
                    j < vec_grid@.len(),
                    width == vec_grid@[0]@.len(),
                    vec_grid@[j as int]@.len() == width,
                    forall|x: int| 0 <= x < i ==> (#[trigger] vec_grid@[j as int]@[x]) < 10,
                decreases width - i,
            {
                if vec_grid[j][i] >= 10 {
                    return Err(GridError::InvalidHeight);
                }
                i = i + 1;
            }
            j = j + 1;
        }
        Ok(TrailMap::read(vec_grid))
    }

    /// How many routes lead from the cell at (x, y) to a height-9 cell.
    pub fn count_paths_from(&self, x: usize, y: usize) -> (n: u64)
        requires
            self.wf(),
            self.in_bounds(x as int, y as int),
        ensures
            n as int == self.trail_count(x as int, y as int),
        decreases 9 - self.height_at(x as int, y as int),
    {
        proof {
            lemma_trail_count_bound(*self, x as int, y as int);
            lemma_pow4_mono((9 - self.height_at(x as int, y as int)) as nat, 9);
            lemma_pow4_nine();
            assert(self.trail_count(x as int, y as int) <= 262144);
        }
        let h = self.grid[y][x].0;
        if h == 9 {
            return 1;
        }
        let mut n: u64 = 0;
        if x > 0 && self.grid[y][x - 1].0 == h + 1 {
            n = n + self.count_paths_from(x - 1, y);
        }
        if x + 1 < self.max_x && self.grid[y][x + 1].0 == h + 1 {
            n = n + self.count_paths_from(x + 1, y);
        }
        if y > 0 && self.grid[y - 1][x].0 == h + 1 {
            n = n + self.count_paths_from(x, y - 1);
        }
        if y + 1 < self.max_y && self.grid[y + 1][x].0 == h + 1 {
            n = n + self.count_paths_from(x, y + 1);
        }
        n
    }

    /// The total route count of the map: for every trailhead, count the
    /// routes from it, and sum the counts.
    pub fn count_trails(&self) -> (total: u64)
        requires
            self.wf(),
            self.total_trails() <= u64::MAX,
        ensures
            total as int == self.total_trails(),
    {
        let mut total: u64 = 0;
        let mut k: usize = 0;
        while k < self.trailheads.len()
            invariant
                self.wf(),
                self.total_trails() <= u64::MAX,
                k <= self.trailheads@.len(),
                total as int == self.total_trails_upto(k as int),
            decreases self.trailheads@.len() - k,
        {
            proof {
                lemma_total_trails_mono(*self, k as int + 1, self.trailheads@.len() as int);
            }
            let th = self.trailheads[k];
            let n = self.count_paths_from(th.x, th.y);
            total = total + n;
            k = k + 1;
        }
        total
    }
}

/// From any cell, at most `4^(9 - h)` routes can ascend, since each step
/// chooses among four directions and at most nine steps are possible.
proof fn lemma_trail_count_bound(m: TrailMap, x: int, y: int)
    ensures
        m.trail_count(x, y) <= pow4((9 - m.height_at(x, y)) as nat),
    decreases 9 - m.height_at(x, y),
{
    if m.in_bounds(x, y) && m.height_at(x, y) < 9 {
        let h = m.height_at(x, y);
        let e = (9 - (h + 1)) as nat;
        if m.ascends(x, y, -1, 0) {
            lemma_trail_count_bound(m, x - 1, y);
        }
        if m.ascends(x, y, 1, 0) {
            lemma_trail_count_bound(m, x + 1, y);
        }
        if m.ascends(x, y, 0, -1) {
            lemma_trail_count_bound(m, x, y - 1);
        }
        if m.ascends(x, y, 0, 1) {
            lemma_trail_count_bound(m, x, y + 1);
        }
        assert(pow4((9 - h) as nat) == 4 * pow4(e));
    }
}

/// Four to the power `e`.
pub open spec fn pow4(e: nat) -> nat
    decreases e,
{
    if e == 0 {
        1
    } else {
        4 * pow4((e - 1) as nat)
    }
}

/// Four to a higher power is no smaller.
proof fn lemma_pow4_mono(a: nat, b: nat)
    requires
        a <= b,
    ensures
        pow4(a) <= pow4(b),
    decreases b,
{
    if a < b {
        lemma_pow4_mono(a, (b - 1) as nat);
    }
}

proof fn lemma_pow4_nine()
    ensures
        pow4(9) == 262144,
{
    assert(pow4(0) == 1);
    assert(pow4(1) == 4);
    assert(pow4(2) == 16);
    assert(pow4(3) == 64);
    assert(pow4(4) == 256);
    assert(pow4(5) == 1024);
    assert(pow4(6) == 4096);
    assert(pow4(7) == 16384);
    assert(pow4(8) == 65536);
    assert(pow4(9) == 262144);
}

/// The running total over the trailheads never shrinks.
proof fn lemma_total_trails_mono(m: TrailMap, k1: int, k2: int)
    requires
        0 <= k1 <= k2,
    ensures
        m.total_trails_upto(k1) <= m.total_trails_upto(k2),
    decreases k2 - k1,
{
    if k1 < k2 {
        lemma_total_trails_mono(m, k1, k2 - 1);
    }
}

impl Route {
    /// A fresh route standing on its trailhead.
    pub fn new(trailhead: Position) -> (r: Route)
        ensures
            r.positions@ == seq![trailhead],
    {
        let positions = vec![trailhead];
        Route { positions }
    }

    /// The position the route currently stands on.
    pub open spec fn head(self) -> Position {
        self.positions@[self.positions@.len() - 1]
    }

    /// The route may take the move: the step stays on the map and climbs by
    /// exactly one.
    pub open spec fn may_move(self, m: Move, map: TrailMap) -> bool {
        let p = self.head();
        match m {
            Move::Left => map.ascends(p.x as int, p.y as int, -1, 0),
            Move::Right => map.ascends(p.x as int, p.y as int, 1, 0),
            Move::Up => map.ascends(p.x as int, p.y as int, 0, -1),
            Move::Down => map.ascends(p.x as int, p.y as int, 0, 1),
        }
    }

    /// Where the move would land.
    pub open spec fn move_target(self, m: Move) -> Position {
        let p = self.head();
        match m {
            Move::Left => Position { x: (p.x - 1) as usize, y: p.y },
            Move::Right => Position { x: (p.x + 1) as usize, y: p.y },
            Move::Up => Position { x: p.x, y: (p.y - 1) as usize },
            Move::Down => Position { x: p.x, y: (p.y + 1) as usize },
        }
    }

    /// Take one step: extend the route by the move's target cell if the
    /// step stays on the map and climbs by exactly one, and refuse the move
    /// otherwise.
    pub fn action_move(&self, m: &Move, map: &TrailMap) -> (r: Result<Route, Error>)
        requires
            map.wf(),
            0 < self.positions@.len(),
            self.head().x < map.max_x,
            self.head().y < map.max_y,
        ensures
            r is Ok <==> self.may_move(*m, *map),
            r is Ok ==> r->Ok_0.positions@ == self.positions@.push(self.move_target(*m)),
            r is Err ==> r->Err_0 == Error::InvalidMove,
    {
        let last_pos = *self.positions.last().unwrap();
        let current_value = map.grid[last_pos.y][last_pos.x].value();
        match m {
            Move::Left => {
                if last_pos.x == 0 {
                    return Err(Error::InvalidMove);
                }
                let new_pos = Position::new(last_pos.x - 1, last_pos.y);
                let next_value = map.grid[new_pos.y][new_pos.x].value();
                if next_value > current_value && next_value - current_value == 1 {
                    let mut result = Route { positions: self.positions.clone() };
                    result.positions.push(new_pos);
                    Ok(result)
                } else {
                    Err(Error::InvalidMove)
                }
            },
            Move::Right => {
                if last_pos.x == map.max_x - 1 {
                    return Err(Error::InvalidMove);
                }
                let new_pos = Position::new(last_pos.x + 1, last_pos.y);
                let next_value = map.grid[new_pos.y][new_pos.x].value();
                if next_value > current_value && next_value - current_value == 1 {
                    let mut result = Route { positions: self.positions.clone() };
                    result.positions.push(new_pos);
                    Ok(result)
                } else {
                    Err(Error::InvalidMove)
                }
            },
            Move::Up => {
                if last_pos.y == 0 {
                    return Err(Error::InvalidMove);
                }
                let new_pos = Position::new(last_pos.x, last_pos.y - 1);
                let next_value = map.grid[new_pos.y][new_pos.x].value();
                if next_value > current_value && next_value - current_value == 1 {
                    let mut result = Route { positions: self.positions.clone() };
                    result.positions.push(new_pos);
                    Ok(result)
                } else {
                    Err(Error::InvalidMove)
                }
            },
            Move::Down => {
                if last_pos.y == map.max_y - 1 {
                    return Err(Error::InvalidMove);
                }
                let new_pos = Position::new(last_pos.x, last_pos.y + 1);
                let next_value = map.grid[new_pos.y][new_pos.x].value();
                if next_value > current_value && next_value - current_value == 1 {
                    let mut result = Route { positions: self.positions.clone() };
                    result.positions.push(new_pos);
                    Ok(result)
                } else {
                    Err(Error::InvalidMove)
                }
            },
        }
    }
}

/// The views of the routes: each route as its position sequence.
pub open spec fn routes_view(rs: Seq<Route>) -> Seq<Seq<Position>> {
    rs.map_values(|r: Route| r.positions@)
}

/// A route is live on the map: non-empty and standing on the map.
pub open spec fn route_live(r: Route, map: TrailMap) -> bool {
    &&& 0 < r.positions@.len()
    &&& r.head().x < map.max_x
    &&& r.head().y < map.max_y
}

/// The routes one route becomes after one step: for each of the four moves
/// that it may take, in the order left, right, up, down, the route extended
/// by that step.
pub open spec fn extend_one(r: Route, map: TrailMap) -> Seq<Seq<Position>> {
    (if r.may_move(Move::Left, map) {
        seq![r.positions@.push(r.move_target(Move::Left))]
    } else {
        Seq::empty()
    }) + (if r.may_move(Move::Right, map) {
        seq![r.positions@.push(r.move_target(Move::Right))]
    } else {
        Seq::empty()
    }) + (if r.may_move(Move::Up, map) {
        seq![r.positions@.push(r.move_target(Move::Up))]
    } else {
        Seq::empty()
    }) + (if r.may_move(Move::Down, map) {
        seq![r.positions@.push(r.move_target(Move::Down))]
    } else {
        Seq::empty()
    })
}

/// The routes the first `k` routes become after one step, in order.
pub open spec fn extend_upto(rs: Seq<Route>, map: TrailMap, k: int) -> Seq<Seq<Position>>
    decreases k,
{
    if k <= 0 {
        Seq::empty()
    } else {
        extend_upto(rs, map, k - 1) + extend_one(rs[k - 1], map)
    }
}

/// Take a vector of routes and calculate the next step for each: every
/// route is replaced by its extensions by the four moves, in the order
/// left, right, up, down; a route with no valid step is dropped.
pub fn iterate_routes(routes: Vec<Route>, map: &TrailMap) -> (result: Vec<Route>)
    requires
        map.wf(),
        forall|k: int| 0 <= k < routes@.len() ==> route_live(#[trigger] routes@[k], *map),
    ensures
        routes_view(result@) == extend_upto(routes@, *map, routes@.len() as int),
        forall|k: int| 0 <= k < result@.len() ==> route_live(#[trigger] result@[k], *map),
{
    let mut result: Vec<Route> = Vec::new();
    let mut k: usize = 0;
    while k < routes.len()
        invariant
            map.wf(),
            forall|q: int| 0 <= q < routes@.len() ==> route_live(#[trigger] routes@[q], *map),
            k <= routes@.len(),
            routes_view(result@) == extend_upto(routes@, *map, k as int),
            forall|q: int| 0 <= q < result@.len() ==> route_live(#[trigger] result@[q], *map),
        decreases routes@.len() - k,
    {
        let route = &routes[k];
        let ghost before = result@;
        match route.action_move(&Move::Left, map) {
            Ok(r) => {
                proof {
                    assert(r.head() == route.move_target(Move::Left));
                    assert(route_live(r, *map));
                }
                result.push(r);
            },
            Err(_) => {},
        }
        match route.action_move(&Move::Right, map) {
            Ok(r) => {
                proof {
                    assert(r.head() == route.move_target(Move::Right));
                    assert(route_live(r, *map));
                }
                result.push(r);
            },
            Err(_) => {},
        }
        match route.action_move(&Move::Up, map) {
            Ok(r) => {
                proof {
                    assert(r.head() == route.move_target(Move::Up));
                    assert(route_live(r, *map));
                }
                result.push(r);
            },
            Err(_) => {},
        }
        match route.action_move(&Move::Down, map) {
            Ok(r) => {
                proof {
                    assert(r.head() == route.move_target(Move::Down));
                    assert(route_live(r, *map));
                }
                result.push(r);
            },
            Err(_) => {},
        }
        proof {
            assert(routes_view(result@) =~= routes_view(before) + extend_one(
                routes@[k as int],
                *map,
            ));
            assert(routes_view(result@) =~= extend_upto(routes@, *map, k as int + 1));
        }
        k = k + 1;
    }
    result
}

} // verus!
