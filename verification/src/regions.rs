//! Region labeling over a rectangular grid of crop labels.
//!
//! A garden is a grid of plants; plants with equal labels that touch along
//! an edge belong to the same region.  A single labeling pass partitions the
//! grid into regions (connected components under 4-directional adjacency),
//! records for every plant how many of its four sides face a different label
//! or the outside (its contribution to the region's perimeter), and how many
//! convex corners it contributes (from which the region's side count is
//! derived).  Two fence prices follow: area times perimeter, and area times
//! side count.

use vstd::prelude::*;

use crate::GridError;

verus! {

/// A single cell of the garden: its crop label, its coordinates, and the
/// per-cell results of the labeling pass (unset until the pass runs).
#[derive(Debug, Clone, Copy, PartialEq)]
pub struct Plant {
    pub label: char,
    pub i: usize,
    pub j: usize,
    pub group: Option<usize>,
    pub borders: Option<usize>,
    pub edges: Option<usize>,
}

impl Plant {
    /// A fresh plant with no region, border count or corner count yet.
    pub fn new(c: char, i: usize, j: usize) -> (p: Plant)
        ensures
            p == (Plant {
                label: c,
                i,
                j,
                group: None::<usize>,
                borders: None::<usize>,
                edges: None::<usize>,
            }),
    {
        Plant { label: c, i, j, group: None, borders: None, edges: None }
    }
}

/// A rectangular garden of plants, `size_i` columns by `size_j` rows,
/// together with the number of regions once the labeling pass has run.
#[derive(Debug, PartialEq)]
pub struct Garden {
    pub plants: Vec<Vec<Plant>>,
    pub n_groups: Option<usize>,
    pub size_i: usize,
    pub size_j: usize,
}

/// Whether two grid positions touch along an edge (4-directional adjacency).
pub open spec fn adjacent(a: (int, int), b: (int, int)) -> bool {
    ||| (a.0 == b.0 && (a.1 == b.1 + 1 || a.1 + 1 == b.1))
    ||| (a.1 == b.1 && (a.0 == b.0 + 1 || a.0 + 1 == b.0))
}

/// The region id a search run assigns: the parent's id when there is one,
/// the fresh starting id otherwise.
pub open spec fn search_gid(parent_group: Option<usize>, starting: Option<usize>) -> usize {
    match parent_group {
        Some(p) => p,
        None => match starting {
            Some(s) => s,
            None => 0,
        },
    }
}

/// A grid position as mathematical integers.
pub open spec fn ip(c: (usize, usize)) -> (int, int) {
    (c.0 as int, c.1 as int)
}

/// How many of the first `t` plants of a row are still unassigned.
pub open spec fn row_unassigned(r: Seq<Plant>, t: int) -> int
    decreases t,
{
    if t <= 0 {
        0
    } else {
        row_unassigned(r, t - 1) + if r[t - 1].group is None {
            1int
        } else {
            0
        }
    }
}

/// How many plants of the first `t` rows are still unassigned.
pub open spec fn grid_unassigned(rows: Seq<Seq<Plant>>, t: int) -> int
    decreases t,
{
    if t <= 0 {
        0
    } else {
        grid_unassigned(rows, t - 1) + row_unassigned(rows[t - 1], rows[t - 1].len() as int)
    }
}

proof fn lemma_row_unassigned_nonneg(r: Seq<Plant>, t: int)
    ensures
        0 <= row_unassigned(r, t),
    decreases t,
{
    if t > 0 {
        lemma_row_unassigned_nonneg(r, t - 1);
    }
}

proof fn lemma_grid_unassigned_nonneg(rows: Seq<Seq<Plant>>, t: int)
    ensures
        0 <= grid_unassigned(rows, t),
    decreases t,
{
    if t > 0 {
        lemma_grid_unassigned_nonneg(rows, t - 1);
        lemma_row_unassigned_nonneg(rows[t - 1], rows[t - 1].len() as int);
    }
}

proof fn lemma_row_unassigned_update(r: Seq<Plant>, i: int, p: Plant, t: int)
    requires
        0 <= i < r.len(),
        r[i].group is None,
        p.group is Some,
        t <= r.len(),
    ensures
        row_unassigned(r.update(i, p), t) == row_unassigned(r, t) - if i < t {
            1int
        } else {
            0
        },
    decreases t,
{
    if t > 0 {
        lemma_row_unassigned_update(r, i, p, t - 1);
    }
}

proof fn lemma_grid_unassigned_update(rows: Seq<Seq<Plant>>, j: int, row2: Seq<Plant>, t: int)
    requires
        0 <= j < rows.len(),
        t <= rows.len(),
        row2.len() == rows[j].len(),
        row_unassigned(row2, row2.len() as int) == row_unassigned(rows[j], rows[j].len() as int)
            - 1,
    ensures
        grid_unassigned(rows.update(j, row2), t) == grid_unassigned(rows, t) - if j < t {
            1int
        } else {
            0
        },
    decreases t,
{
    if t > 0 {
        lemma_grid_unassigned_update(rows, j, row2, t - 1);
    }
}

/// The plant at `c` has been visited by the current search run: it was
/// unassigned in `g0` and now carries the run's region id and its counts.
pub open spec fn marked(g0: Garden, g: Garden, gid: usize, c: (int, int)) -> bool {
    &&& g0.in_bounds(c.0, c.1)
    &&& g0.group_at(c.0, c.1) is None
    &&& g.at(c.0, c.1) == g0.visited_plant(c.0, c.1, gid)
}

/// The position is still on the search worklist.
pub open spec fn in_stack(st: Seq<(usize, usize)>, c: (int, int)) -> bool {
    exists|k: int| 0 <= k < st.len() && ip(#[trigger] st[k]) == c
}

impl Garden {
    /// The grid is rectangular, non-empty, and every plant records its own
    /// coordinates.
    pub open spec fn wf(self) -> bool {
        &&& 0 < self.size_i
        &&& 0 < self.size_j
        &&& self.plants@.len() == self.size_j
        &&& forall|j: int|
            0 <= j < self.size_j ==> (#[trigger] self.plants@[j])@.len() == self.size_i
        &&& forall|i: int, j: int|
            0 <= i < self.size_i && 0 <= j < self.size_j ==> {
                &&& (#[trigger] self.at(i, j)).i == i
                &&& self.at(i, j).j == j
            }
    }

    pub open spec fn in_bounds(self, i: int, j: int) -> bool {
        0 <= i < self.size_i && 0 <= j < self.size_j
    }

    pub open spec fn at(self, i: int, j: int) -> Plant {
        self.plants@[j]@[i]
    }

    pub open spec fn label_at(self, i: int, j: int) -> char {
        self.at(i, j).label
    }

    pub open spec fn group_at(self, i: int, j: int) -> Option<usize> {
        self.at(i, j).group
    }

    /// The neighbor one step (di, dj) away exists and carries the same label.
    pub open spec fn same_label(self, i: int, j: int, di: int, dj: int) -> bool {
        &&& self.in_bounds(i + di, j + dj)
        &&& self.label_at(i + di, j + dj) == self.label_at(i, j)
    }

    /// How many of the four sides of the plant at (i, j) face the outside or
    /// a different label: its contribution to its region's perimeter.
    pub open spec fn border_count(self, i: int, j: int) -> int {
        (if self.same_label(i, j, -1, 0) { 0int } else { 1 })
            + (if self.same_label(i, j, 1, 0) { 0int } else { 1 })
            + (if self.same_label(i, j, 0, -1) { 0int } else { 1 })
            + (if self.same_label(i, j, 0, 1) { 0int } else { 1 })
    }

    /// How many convex corners the plant at (i, j) contributes: one for each
    /// quadrant (pair of adjacent axis directions) in which neither axis
    /// neighbor shares the label.
    pub open spec fn corner_count(self, i: int, j: int) -> int {
        (if !self.same_label(i, j, 0, -1) && !self.same_label(i, j, 1, 0) { 1int } else { 0 })
            + (if !self.same_label(i, j, 0, 1) && !self.same_label(i, j, 1, 0) { 1int } else { 0 })
            + (if !self.same_label(i, j, 0, 1) && !self.same_label(i, j, -1, 0) { 1int } else { 0 })
            + (if !self.same_label(i, j, 0, -1) && !self.same_label(i, j, -1, 0) { 1int } else { 0 })
    }

    /// The value a plant takes when the labeling pass visits it with region
    /// id `gid`.
    pub open spec fn visited_plant(self, i: int, j: int, gid: usize) -> Plant {
        Plant {
            group: Some(gid),
            borders: Some(self.border_count(i, j) as usize),
            edges: Some(self.corner_count(i, j) as usize),
            ..self.at(i, j)
        }
    }

    /// Two gardens agree on everything the labeling pass never changes:
    /// sizes and, plant by plant, label and coordinates.
    pub open spec fn same_skeleton(self, other: Garden) -> bool {
        &&& self.size_i == other.size_i
        &&& self.size_j == other.size_j
        &&& forall|i: int, j: int|
            self.in_bounds(i, j) ==> {
                &&& (#[trigger] self.at(i, j)).label == other.at(i, j).label
                &&& self.at(i, j).i == other.at(i, j).i
                &&& self.at(i, j).j == other.at(i, j).j
            }
    }

    /// A path of positions, each in bounds, pairwise adjacent, all carrying
    /// the label of its first position, and all still unassigned.
    pub open spec fn is_free_path(self, p: Seq<(int, int)>) -> bool {
        &&& 0 < p.len()
        &&& forall|k: int|
            0 <= k < p.len() ==> {
                &&& self.in_bounds((#[trigger] p[k]).0, p[k].1)
                &&& self.group_at(p[k].0, p[k].1) is None
                &&& self.label_at(p[k].0, p[k].1) == self.label_at(p[0].0, p[0].1)
            }
        &&& forall|k: int| 0 <= k < p.len() - 1 ==> adjacent(p[k], #[trigger] p[k + 1])
    }

    /// There is a free path from `a` to `c`.
    pub open spec fn reaches(self, a: (int, int), c: (int, int)) -> bool {
        exists|p: Seq<(int, int)>|
            self.is_free_path(p) && p[0] == a && p[p.len() - 1] == c
    }

    /// A path of positions, each in bounds, pairwise adjacent, all carrying
    /// the label of its first position (assignment ignored).
    pub open spec fn is_label_path(self, p: Seq<(int, int)>) -> bool {
        &&& 0 < p.len()
        &&& forall|k: int|
            0 <= k < p.len() ==> {
                &&& self.in_bounds((#[trigger] p[k]).0, p[k].1)
                &&& self.label_at(p[k].0, p[k].1) == self.label_at(p[0].0, p[0].1)
            }
        &&& forall|k: int| 0 <= k < p.len() - 1 ==> adjacent(p[k], #[trigger] p[k + 1])
    }

    /// The positions belong to the same region: they are connected by a
    /// same-label path.
    pub open spec fn connected(self, a: (int, int), c: (int, int)) -> bool {
        exists|p: Seq<(int, int)>|
            self.is_label_path(p) && p[0] == a && p[p.len() - 1] == c
    }

    /// No plant has been assigned to a region yet.
    pub open spec fn all_unassigned(self) -> bool {
        forall|i: int, j: int|
            self.in_bounds(i, j) ==> (#[trigger] self.group_at(i, j)) is None
    }

    /// Whether the same-label neighbor exists in each of the four axis
    /// directions: (up, down, left, right).
    fn neighbor_flags(&self, i: usize, j: usize) -> (r: (bool, bool, bool, bool))
        requires
            self.wf(),
            self.in_bounds(i as int, j as int),
        ensures
            r.0 == self.same_label(i as int, j as int, 0, -1),
            r.1 == self.same_label(i as int, j as int, 0, 1),
            r.2 == self.same_label(i as int, j as int, -1, 0),
            r.3 == self.same_label(i as int, j as int, 1, 0),
    {
        let lab = self.plants[j][i].label;
        let up = j > 0 && self.plants[j - 1][i].label == lab;
        let down = j + 1 < self.size_j && self.plants[j + 1][i].label == lab;
        let left = i > 0 && self.plants[j][i - 1].label == lab;
        let right = i + 1 < self.size_i && self.plants[j][i + 1].label == lab;
        (up, down, left, right)
    }

    /// Count the convex corners the plant at (i, j) contributes and record
    /// the count in its `edges` field, leaving every other plant alone.
    pub fn count_edges(&mut self, i: usize, j: usize)
        requires
            old(self).wf(),
            old(self).in_bounds(i as int, j as int),
        ensures
            final(self).wf(),
            final(self).same_skeleton(*old(self)),
            final(self).n_groups == old(self).n_groups,
            forall|a: int, b: int|
                old(self).in_bounds(a, b) && (a != i as int || b != j as int)
                    ==> final(self).at(a, b) == old(self).at(a, b),
            final(self).at(i as int, j as int) == (Plant {
                edges: Some(old(self).corner_count(i as int, j as int) as usize),
                ..old(self).at(i as int, j as int)
            }),
    {
        let (up, down, left, right) = self.neighbor_flags(i, j);
        let mut edges: usize = 0;
        if !up && !right {
            edges = edges + 1;
        }
        if !down && !right {
            edges = edges + 1;
        }
        if !down && !left {
            edges = edges + 1;
        }
        if !up && !left {
            edges = edges + 1;
        }
        let p = self.plants[j][i];
        self.plants[j][i] = Plant { edges: Some(edges), ..p };
        proof {
            assert forall|a: int, b: int|
                0 <= a < self.size_i && 0 <= b < self.size_j implies {
                    &&& (#[trigger] self.at(a, b)).i == a
                    &&& self.at(a, b).j == b
                } by {
                if a != i as int || b != j as int {
                    assert(self.at(a, b) == old(self).at(a, b));
                }
            }
        }
    }

    /// Record region id, perimeter contribution and corner count for the
    /// plant at (i, j), leaving every other plant alone.
    fn mark_visit(&mut self, i: usize, j: usize, gid: usize)
        requires
            old(self).wf(),
            old(self).in_bounds(i as int, j as int),
        ensures
            final(self).wf(),
            final(self).same_skeleton(*old(self)),
            final(self).n_groups == old(self).n_groups,
            forall|a: int, b: int|
                old(self).in_bounds(a, b) && (a != i as int || b != j as int)
                    ==> final(self).at(a, b) == old(self).at(a, b),
            final(self).at(i as int, j as int) == old(self).visited_plant(i as int, j as int, gid),
    {
        let (up, down, left, right) = self.neighbor_flags(i, j);
        let mut same: usize = 0;
        if up {
            same = same + 1;
        }
        if down {
            same = same + 1;
        }
        if left {
            same = same + 1;
        }
        if right {
            same = same + 1;
        }
        let mut edges: usize = 0;
        if !up && !right {
            edges = edges + 1;
        }
        if !down && !right {
            edges = edges + 1;
        }
        if !down && !left {
            edges = edges + 1;
        }
        if !up && !left {
            edges = edges + 1;
        }
        let p = self.plants[j][i];
        self.plants[j][i] = Plant {
            group: Some(gid),
            borders: Some(4 - same),
            edges: Some(edges),
            ..p
        };
        proof {
            assert forall|a: int, b: int|
                0 <= a < self.size_i && 0 <= b < self.size_j implies {
                    &&& (#[trigger] self.at(a, b)).i == a
                    &&& self.at(a, b).j == b
                } by {
                if a != i as int || b != j as int {
                    assert(self.at(a, b) == old(self).at(a, b));
                }
            }
        }
    }
}

impl Garden {
    /// One neighbor step of the region search: if the plant at (ni, nj)
    /// carries the sought label and is still unassigned, visit it and put it
    /// on the worklist; otherwise change nothing.
    fn visit_neighbor(
        plant_grid: &mut Garden,
        stack: &mut Vec<(usize, usize)>,
        ni: usize,
        nj: usize,
        lab: char,
        gid: usize,
        Ghost(g0): Ghost<Garden>,
        Ghost(s): Ghost<(int, int)>,
        Ghost(c): Ghost<(int, int)>,
    )
        requires
            g0.wf(),
            old(plant_grid).wf(),
            old(plant_grid).same_skeleton(g0),
            old(plant_grid).n_groups == g0.n_groups,
            g0.in_bounds(ni as int, nj as int),
            g0.in_bounds(c.0, c.1),
            adjacent(c, (ni as int, nj as int)),
            g0.reaches(s, c),
            lab == g0.label_at(c.0, c.1),
            forall|a: int, b: int|
                g0.in_bounds(a, b) ==> (#[trigger] old(plant_grid).at(a, b)) == g0.at(a, b) || (
                marked(g0, *old(plant_grid), gid, (a, b)) && g0.reaches(s, (a, b))),
        ensures
            final(plant_grid).wf(),
            final(plant_grid).same_skeleton(g0),
            final(plant_grid).n_groups == g0.n_groups,
            forall|a: int, b: int|
                g0.in_bounds(a, b) ==> (#[trigger] final(plant_grid).at(a, b)) == g0.at(a, b) || (
                marked(g0, *final(plant_grid), gid, (a, b)) && g0.reaches(s, (a, b))),
            // only the target plant can change
            forall|a: int, b: int|
                g0.in_bounds(a, b) && (a != ni as int || b != nj as int) ==> (
                #[trigger] final(plant_grid).at(a, b)) == old(plant_grid).at(a, b),
            // visited plants stay exactly as they are
            forall|x: int, y: int|
                #[trigger] marked(g0, *old(plant_grid), gid, (x, y)) ==> marked(
                    g0,
                    *final(plant_grid),
                    gid,
                    (x, y),
                ),
            // assigned plants stay assigned and unchanged
            forall|x: int, y: int|
                g0.in_bounds(x, y) && (#[trigger] old(plant_grid).group_at(x, y)) is Some
                    ==> final(plant_grid).at(x, y) == old(plant_grid).at(x, y),
            // after the step a matching neighbor is certainly assigned
            g0.label_at(ni as int, nj as int) == lab ==> final(plant_grid).group_at(
                ni as int,
                nj as int,
            ) is Some,
            // the worklist only grows, keeping what it held
            old(stack)@.len() <= final(stack)@.len(),
            forall|k: int|
                0 <= k < old(stack)@.len() ==> (#[trigger] final(stack)@[k]) == old(stack)@[k],
            forall|c2: (int, int)| in_stack(old(stack)@, c2) ==> in_stack(final(stack)@, c2),
            forall|k: int|
                old(stack)@.len() <= k < final(stack)@.len() ==> marked(
                    g0,
                    *final(plant_grid),
                    gid,
                    ip(#[trigger] final(stack)@[k]),
                ),
            // a plant that changed sits on the worklist
            forall|a: int, b: int|
                g0.in_bounds(a, b) && (#[trigger] final(plant_grid).at(a, b))
                    != old(plant_grid).at(a, b) ==> in_stack(final(stack)@, (a, b)),
            // the search measure never grows
            2 * final(plant_grid).unassigned_total() + final(stack)@.len()
                <= 2 * old(plant_grid).unassigned_total() + old(stack)@.len(),
    {
        let np = plant_grid.plants[nj][ni];
        let ghost n = (ni as int, nj as int);
        proof {
            assert(np == plant_grid.at(n.0, n.1));
            assert(np.label == g0.label_at(n.0, n.1)) by {
                assert(plant_grid.at(n.0, n.1).label == g0.at(n.0, n.1).label);
            }
        }
        if np.label == lab && np.group.is_none() {
            let ghost gb = *plant_grid;
            proof {
                assert(gb.at(n.0, n.1) == g0.at(n.0, n.1));
                assert(g0.group_at(n.0, n.1) is None);
                assert(g0.label_at(n.0, n.1) == g0.label_at(c.0, c.1));
                lemma_reaches_step(g0, s, c, n);
                lemma_skeleton_counts(g0, gb, n.0, n.1);
            }
            plant_grid.mark_visit(ni, nj, gid);
            stack.push((ni, nj));
            proof {
                assert(plant_grid.at(n.0, n.1) == g0.visited_plant(n.0, n.1, gid));
                assert(marked(g0, *plant_grid, gid, n));
                lemma_unassigned_mark(gb, *plant_grid, n.0, n.1);
                assert(ip(stack@[stack@.len() - 1]) == n);
                assert(in_stack(stack@, n));
                assert forall|c2: (int, int)| in_stack(old(stack)@, c2) implies in_stack(
                    stack@,
                    c2,
                ) by {
                    let k = choose|k: int|
                        0 <= k < old(stack)@.len() && ip(old(stack)@[k]) == c2;
                    assert(ip(stack@[k]) == c2);
                }
                assert forall|a: int, b: int|
                    0 <= a < g0.size_i && 0 <= b < g0.size_j implies {
                        &&& (#[trigger] plant_grid.at(a, b)).i == a
                        &&& plant_grid.at(a, b).j == b
                    } by {}
            }
        }
    }

    /// Flood the still-unassigned region around `start_plant_pos`.
    ///
    /// If the start plant already belongs to a region, nothing changes and
    /// the call reports so.  Otherwise every plant reachable from the start
    /// through unassigned same-label plants is visited: it receives the
    /// region id (the parent's, or else the fresh starting id), its border
    /// count and its corner count.  No other plant changes.
    #[verifier::rlimit(100)]
    pub fn search(
        start_plant_pos: (usize, usize),
        parent_plant_pos: Option<(usize, usize)>,
        parent_group: Option<usize>,
        plant_grid: &mut Garden,
        starting_group_index: Option<usize>,
    ) -> (already: bool)
        requires
            old(plant_grid).wf(),
            old(plant_grid).in_bounds(start_plant_pos.0 as int, start_plant_pos.1 as int),
            parent_group is Some || starting_group_index is Some,
        ensures
            already == (old(plant_grid).group_at(
                start_plant_pos.0 as int,
                start_plant_pos.1 as int,
            ) is Some),
            already ==> *final(plant_grid) == *old(plant_grid),
            !already ==> {
                let g0 = *old(plant_grid);
                let g = *final(plant_grid);
                let gid = search_gid(parent_group, starting_group_index);
                let s = ip(start_plant_pos);
                &&& g.wf()
                &&& g.same_skeleton(g0)
                &&& g.n_groups == g0.n_groups
                &&& forall|a: int, b: int|
                    g0.in_bounds(a, b) && g0.reaches(s, (a, b)) ==> (#[trigger] g.at(a, b))
                        == g0.visited_plant(a, b, gid)
                &&& forall|a: int, b: int|
                    g0.in_bounds(a, b) && !g0.reaches(s, (a, b)) ==> (#[trigger] g.at(a, b))
                        == g0.at(a, b)
            },
    {
        let si = start_plant_pos.0;
        let sj = start_plant_pos.1;
        let ghost g0 = *plant_grid;
        let ghost s = (si as int, sj as int);
        if plant_grid.plants[sj][si].group.is_some() {
            return true;
        }
        let gid = match parent_group {
            Some(p) => p,
            None => starting_group_index.unwrap(),
        };
        proof {
            lemma_reaches_self(g0, s);
        }
        plant_grid.mark_visit(si, sj, gid);
        let mut stack: Vec<(usize, usize)> = Vec::new();
        stack.push(start_plant_pos);
        proof {
            assert(ip(stack@[0]) == s);
            assert(in_stack(stack@, s));
        }
        while stack.len() > 0
            invariant
                g0 == *old(plant_grid),
                g0.wf(),
                g0.in_bounds(s.0, s.1),
                s == (si as int, sj as int),
                g0.group_at(s.0, s.1) is None,
                gid == search_gid(parent_group, starting_group_index),
                plant_grid.wf(),
                plant_grid.same_skeleton(g0),
                plant_grid.n_groups == g0.n_groups,
                marked(g0, *plant_grid, gid, s),
                forall|a: int, b: int|
                    g0.in_bounds(a, b) ==> (#[trigger] plant_grid.at(a, b)) == g0.at(a, b) || (
                    marked(g0, *plant_grid, gid, (a, b)) && g0.reaches(s, (a, b))),
                forall|k: int|
                    0 <= k < stack@.len() ==> marked(g0, *plant_grid, gid, ip(
                        #[trigger] stack@[k],
                    )),
                forall|a: int, b: int|
                    #[trigger] marked(g0, *plant_grid, gid, (a, b)) && !in_stack(
                        stack@,
                        (a, b),
                    ) ==> {
                        &&& (g0.same_label(a, b, -1, 0) ==> plant_grid.group_at(a - 1, b) is Some)
                        &&& (g0.same_label(a, b, 1, 0) ==> plant_grid.group_at(a + 1, b) is Some)
                        &&& (g0.same_label(a, b, 0, -1) ==> plant_grid.group_at(a, b - 1) is Some)
                        &&& (g0.same_label(a, b, 0, 1) ==> plant_grid.group_at(a, b + 1) is Some)
                    },
            decreases 2 * plant_grid.unassigned_total() + stack@.len(),
        {
            proof {
                lemma_grid_unassigned_nonneg(plant_grid.rows(), plant_grid.rows().len() as int);
            }
            let ghost prev_grid = *plant_grid;
            let ghost prev_stack = stack@;
            let cur = stack.pop().unwrap();
            let ci = cur.0;
            let cj = cur.1;
            let ghost c = ip(cur);
            proof {
                assert(cur == prev_stack[prev_stack.len() - 1]);
                assert(marked(g0, *plant_grid, gid, c));
            }
            let lab = plant_grid.plants[cj][ci].label;
            proof {
                assert(lab == g0.label_at(c.0, c.1)) by {
                    assert(plant_grid.at(c.0, c.1).label == g0.at(c.0, c.1).label);
                }
            }
            let ghost mid_grid = *plant_grid;
            let ghost mid_stack = stack@;
            proof {
                // a visited plant that is not the grid original must have
                // been reached by the search
                assert(g0.reaches(s, c)) by {
                    assert(plant_grid.at(c.0, c.1) != g0.at(c.0, c.1));
                }
            }
            if ci > 0 {
                Garden::visit_neighbor(
                    plant_grid,
                    &mut stack,
                    ci - 1,
                    cj,
                    lab,
                    gid,
                    Ghost(g0),
                    Ghost(s),
                    Ghost(c),
                );
            }
            if cj > 0 {
                Garden::visit_neighbor(
                    plant_grid,
                    &mut stack,
                    ci,
                    cj - 1,
                    lab,
                    gid,
                    Ghost(g0),
                    Ghost(s),
                    Ghost(c),
                );
            }
            if ci + 1 < plant_grid.size_i {
                Garden::visit_neighbor(
                    plant_grid,
                    &mut stack,
                    ci + 1,
                    cj,
                    lab,
                    gid,
                    Ghost(g0),
                    Ghost(s),
                    Ghost(c),
                );
            }
            if cj + 1 < plant_grid.size_j {
                Garden::visit_neighbor(
                    plant_grid,
                    &mut stack,
                    ci,
                    cj + 1,
                    lab,
                    gid,
                    Ghost(g0),
                    Ghost(s),
                    Ghost(c),
                );
            }
            proof {
                assert forall|a: int, b: int|
                    #[trigger] marked(g0, *plant_grid, gid, (a, b)) && !in_stack(
                        stack@,
                        (a, b),
                    ) implies {
                    &&& (g0.same_label(a, b, -1, 0) ==> plant_grid.group_at(a - 1, b) is Some)
                    &&& (g0.same_label(a, b, 1, 0) ==> plant_grid.group_at(a + 1, b) is Some)
                    &&& (g0.same_label(a, b, 0, -1) ==> plant_grid.group_at(a, b - 1) is Some)
                    &&& (g0.same_label(a, b, 0, 1) ==> plant_grid.group_at(a, b + 1) is Some)
                } by {
                    if a == c.0 && b == c.1 {
                        // the four neighbor steps above ran for this plant
                        assert(g0.label_at(a, b) == lab);
                    } else {
                        // the plant did not change this iteration: a changed
                        // plant would still be on the worklist
                        assert(plant_grid.at(a, b) == mid_grid.at(a, b));
                        assert(marked(g0, mid_grid, gid, (a, b)));
                        // it is not on the worklist now, so it was not before
                        assert forall|k: int| 0 <= k < prev_stack.len() implies ip(
                            #[trigger] prev_stack[k],
                        ) != (a, b) by {
                            if k < prev_stack.len() - 1 {
                                assert(mid_stack[k] == prev_stack[k]);
                                assert(stack@[k] == prev_stack[k]);
                                assert(in_stack(stack@, ip(prev_stack[k])));
                            } else {
                                assert(ip(prev_stack[k]) == c);
                            }
                        }
                        assert(!in_stack(prev_stack, (a, b)));
                        assert(marked(g0, prev_grid, gid, (a, b)));
                    }
                }
                lemma_grid_unassigned_nonneg(plant_grid.rows(), plant_grid.rows().len() as int);
            }
        }
        proof {
            assert forall|a: int, b: int|
                g0.in_bounds(a, b) && g0.reaches(s, (a, b)) implies (#[trigger] plant_grid.at(
                a,
                b,
            )) == g0.visited_plant(a, b, gid) by {
                let p = choose|p: Seq<(int, int)>|
                    g0.is_free_path(p) && p[0] == s && p[p.len() - 1] == (a, b);
                assert forall|x: int, y: int|
                    #[trigger] marked(g0, *plant_grid, gid, (x, y)) implies {
                    &&& (g0.same_label(x, y, -1, 0) ==> plant_grid.group_at(x - 1, y) is Some)
                    &&& (g0.same_label(x, y, 1, 0) ==> plant_grid.group_at(x + 1, y) is Some)
                    &&& (g0.same_label(x, y, 0, -1) ==> plant_grid.group_at(x, y - 1) is Some)
                    &&& (g0.same_label(x, y, 0, 1) ==> plant_grid.group_at(x, y + 1) is Some)
                } by {
                    assert(!in_stack(stack@, (x, y)));
                }
                lemma_free_path_all_marked(g0, *plant_grid, gid, s, p);
                assert(marked(g0, *plant_grid, gid, (a, b)));
            }
            assert forall|a: int, b: int|
                g0.in_bounds(a, b) && !g0.reaches(s, (a, b)) implies (#[trigger] plant_grid.at(
                a,
                b,
            )) == g0.at(a, b) by {}
        }
        false
    }

    /// Build a garden from a rectangular, non-empty character grid, with
    /// every plant unassigned.
    pub fn new(grid: Vec<Vec<char>>) -> (g: Garden)
        requires
            0 < grid@.len(),
            0 < grid@[0]@.len(),
            forall|j: int| 0 <= j < grid@.len() ==> (#[trigger] grid@[j])@.len() == grid@[0]@.len(),
        ensures
            g.wf(),
            g.all_unassigned(),
            g.n_groups is None,
            g.size_j == grid@.len(),
            g.size_i == grid@[0]@.len(),
            forall|a: int, b: int|
                g.in_bounds(a, b) ==> (#[trigger] g.at(a, b)) == (Plant {
                    label: grid@[b]@[a],
                    i: a as usize,
                    j: b as usize,
                    group: None::<usize>,
                    borders: None::<usize>,
                    edges: None::<usize>,
                }),
    {
        let size_j = grid.len();
        let size_i = grid[0].len();
        let mut plants: Vec<Vec<Plant>> = Vec::new();
        let mut j: usize = 0;
        while j < size_j
            invariant
                j <= size_j,
                size_j == grid@.len(),
                size_i == grid@[0]@.len(),
                forall|b: int| 0 <= b < size_j ==> (#[trigger] grid@[b])@.len() == size_i,
                plants@.len() == j,
                forall|b: int| 0 <= b < j ==> (#[trigger] plants@[b])@.len() == size_i,
                forall|a: int, b: int|
                    0 <= b < j && 0 <= a < size_i ==> (#[trigger] plants@[b]@[a]) == (Plant {
                        label: grid@[b]@[a],
                        i: a as usize,
                        j: b as usize,
                        group: None::<usize>,
                        borders: None::<usize>,
                        edges: None::<usize>,
                    }),
            decreases size_j - j,
        {
            let row = &grid[j];
            let mut prow: Vec<Plant> = Vec::new();
            let mut i: usize = 0;
            while i < size_i
                invariant
                    i <= size_i,
                    j < size_j,
                    size_j == grid@.len(),
                    size_i == grid@[0]@.len(),
                    row == &grid[j as int],
                    row@.len() == size_i,
                    prow@.len() == i,
                    forall|a: int|
                        0 <= a < i ==> (#[trigger] prow@[a]) == (Plant {
                            label: grid@[j as int]@[a],
                            i: a as usize,
                            j: j as usize,
                            group: None::<usize>,
                            borders: None::<usize>,
                            edges: None::<usize>,
                        }),
                decreases size_i - i,
            {
                prow.push(Plant::new(row[i], i, j));
                i = i + 1;
            }
            plants.push(prow);
            j = j + 1;
        }
        Garden { plants, n_groups: None, size_i, size_j }
    }

    /// Validate a character grid and build the garden: an empty grid, an
    /// empty first row, or ragged rows are malformed input.
    pub fn build(grid: Vec<Vec<char>>) -> (r: Result<Garden, GridError>)
        ensures
            match r {
                Ok(g) => {
                    &&& 0 < grid@.len()
                    &&& 0 < grid@[0]@.len()
                    &&& forall|j: int|
                        0 <= j < grid@.len() ==> (#[trigger] grid@[j])@.len() == grid@[0]@.len()
                    &&& g.wf()
                    &&& g.all_unassigned()
                    &&& g.n_groups is None
                    &&& g.size_j == grid@.len()
                    &&& g.size_i == grid@[0]@.len()
                    &&& forall|a: int, b: int|
                        g.in_bounds(a, b) ==> (#[trigger] g.at(a, b)) == (Plant {
                            label: grid@[b]@[a],
                            i: a as usize,
                            j: b as usize,
                            group: None::<usize>,
                            borders: None::<usize>,
                            edges: None::<usize>,
                        })
                },
                Err(e) => {
                    &&& e == GridError::MalformedInput
                    &&& (grid@.len() == 0 || grid@[0]@.len() == 0 || exists|j: int|
                        0 <= j < grid@.len() && (#[trigger] grid@[j])@.len() != grid@[0]@.len())
                },
            },
    {
        if grid.len() == 0 {
            return Err(GridError::MalformedInput);
        }
        if grid[0].len() == 0 {
            return Err(GridError::MalformedInput);
        }
        let width = grid[0].len();
        let mut j: usize = 1;
        while j < grid.len()
            invariant
                1 <= j <= grid@.len(),
                width == grid@[0]@.len(),
                forall|b: int| 0 <= b < j ==> (#[trigger] grid@[b])@.len() == width,
            decreases grid@.len() - j,
        {
            if grid[j].len() != width {
                return Err(GridError::MalformedInput);
            }
            j = j + 1;
        }
        Ok(Garden::new(grid))
    }

    /// Label the whole garden in one scan: walk the cells in row-major
    /// order, and flood a fresh region from every cell whose region has not
    /// been visited yet.  Region ids are handed out densely, in the scan
    /// order of each region's first cell, and every plant ends up with its
    /// region id, border count and corner count.
    #[verifier::rlimit(100)]
    pub fn find_neighbours_and_borders(&mut self)
        requires
            old(self).wf(),
            old(self).all_unassigned(),
            old(self).size_i * old(self).size_j <= usize::MAX,
        ensures
            final(self).labeled_from(*old(self)),
    {
        let ghost g0 = *self;
        let w = self.size_i;
        let h = self.size_j;
        let mut starting_index: usize = 0;
        proof {
            assert(g0.scanned_upto(g0, 0)) by {
                assert forall|a: int, b: int| g0.in_bounds(a, b) implies !((
                #[trigger] g0.group_at(a, b)) is Some) && !(g0.scan_idx(g0.region_start((a, b)))
                    < 0) by {
                    lemma_region_start_exists(g0, (a, b));
                    let d = g0.region_start((a, b));
                    assert(g0.in_bounds(d.0, d.1)) by {
                        let p = choose|p: Seq<(int, int)>|
                            g0.is_label_path(p) && p[0] == (a, b) && p[p.len() - 1] == d;
                        assert(g0.in_bounds(p[p.len() - 1].0, p[p.len() - 1].1));
                    }
                    lemma_scan_idx_bounds(g0, d);
                }
            }
        }
        let mut j: usize = 0;
        while j < h
            invariant
                g0 == *old(self),
                g0.wf(),
                g0.all_unassigned(),
                g0.size_i * g0.size_j <= usize::MAX,
                w == g0.size_i,
                h == g0.size_j,
                j <= h,
                self.scanned_upto(g0, j as int * g0.size_i),
                starting_index as int == g0.starts_below(j as int * g0.size_i),
            decreases h - j,
        {
            let mut i: usize = 0;
            while i < w
                invariant
                    g0 == *old(self),
                    g0.wf(),
                    g0.all_unassigned(),
                    g0.size_i * g0.size_j <= usize::MAX,
                    w == g0.size_i,
                    h == g0.size_j,
                    j < h,
                    i <= w,
                    self.scanned_upto(g0, j as int * g0.size_i + i),
                    starting_index as int == g0.starts_below(j as int * g0.size_i + i),
                decreases w - i,
            {
                let ghost t = j as int * g0.size_i + i;
                let ghost p = (i as int, j as int);
                let ghost gpre = *self;
                proof {
                    lemma_scan_idx_bounds(g0, p);
                    assert(g0.scan_idx(p) == t);
                    assert(g0.cell_at_scan(t) == p);
                    lemma_region_start_exists(g0, p);
                    lemma_starts_below_at_most(g0, t);
                }
                let is_new = Garden::search((i, j), None, None, self, Some(starting_index));
                if !is_new {
                    proof {
                        lemma_find_scan_step_fresh(g0, gpre, *self, p, t, starting_index);
                    }
                    starting_index = starting_index + 1;
                } else {
                    proof {
                        lemma_find_scan_step_seen(g0, *self, p, t);
                    }
                }
                i = i + 1;
            }
            proof {
                assert((j as int + 1) * g0.size_i == j as int * g0.size_i + w) by (nonlinear_arith)
                    requires
                        w == g0.size_i,
                ;
            }
            j = j + 1;
        }
        proof {
            assert(j as int * g0.size_i == g0.size_i * g0.size_j) by (nonlinear_arith)
                requires
                    j == g0.size_j,
            ;
            assert forall|a: int, b: int| g0.in_bounds(a, b) implies (#[trigger] self.group_at(
                a,
                b,
            )) is Some by {
                lemma_region_start_exists(g0, (a, b));
                let d = g0.region_start((a, b));
                assert(g0.in_bounds(d.0, d.1)) by {
                    let q = choose|q: Seq<(int, int)>|
                        g0.is_label_path(q) && q[0] == (a, b) && q[q.len() - 1] == d;
                    assert(g0.in_bounds(q[q.len() - 1].0, q[q.len() - 1].1));
                }
                lemma_scan_idx_bounds(g0, d);
            }
        }
        let ghost gfin = *self;
        self.n_groups = Some(starting_index);
        proof {
            assert(self.plants == gfin.plants);
            assert forall|a: int, b: int| g0.in_bounds(a, b) implies (#[trigger] self.at(a, b))
                == gfin.at(a, b) by {}
            assert(self.wf());
            assert(self.same_skeleton(g0));
            assert forall|a: int, b: int| g0.in_bounds(a, b) implies (#[trigger] self.at(a, b))
                == g0.visited_plant(a, b, g0.region_id((a, b)) as usize) by {
                assert(gfin.group_at(a, b) is Some);
                assert(gfin.at(a, b) == g0.visited_plant(a, b, g0.region_id((a, b)) as usize));
            }
        }
    }

    /// The grid of plants as a sequence of rows of plants.
    pub open spec fn rows(self) -> Seq<Seq<Plant>> {
        self.plants@.map_values(|r: Vec<Plant>| r@)
    }

    /// The area of the region `gid`: how many plants belong to it.
    pub open spec fn group_area(self, gid: usize) -> int {
        grid_sum(self.rows(), self.rows().len() as int, area_f(gid))
    }

    /// The perimeter of the region `gid`: the borders of its plants summed.
    pub open spec fn group_perimeter(self, gid: usize) -> int {
        grid_sum(self.rows(), self.rows().len() as int, border_f(gid))
    }

    /// The corners of the region `gid`: the corner counts of its plants
    /// summed.  This equals the region's number of convex corners.
    pub open spec fn group_corners(self, gid: usize) -> int {
        grid_sum(self.rows(), self.rows().len() as int, corner_f(gid))
    }

    /// The number of sides of the region `gid`.  A region with the minimum
    /// four convex corners is rectangle-like and has four sides; every
    /// convex corner beyond the four adds one concave corner as well, hence
    /// two further sides.
    pub open spec fn group_sides(self, gid: usize) -> int {
        if self.group_corners(gid) > 4 {
            4 + 2 * (self.group_corners(gid) - 4)
        } else {
            4
        }
    }

    /// The fence price of the first `k` regions at classic pricing: the sum
    /// of area times perimeter.
    pub open spec fn perimeter_cost_upto(self, k: int) -> int
        decreases k,
    {
        if k <= 0 {
            0
        } else {
            self.perimeter_cost_upto(k - 1) + self.group_area((k - 1) as usize)
                * self.group_perimeter((k - 1) as usize)
        }
    }

    /// The fence price of the whole garden at classic pricing.
    pub open spec fn perimeter_cost(self) -> int {
        self.perimeter_cost_upto(self.n_groups->Some_0 as int)
    }

    /// The fence price of the first `k` regions at bulk pricing: the sum of
    /// area times side count.
    pub open spec fn side_cost_upto(self, k: int) -> int
        decreases k,
    {
        if k <= 0 {
            0
        } else {
            self.side_cost_upto(k - 1) + self.group_area((k - 1) as usize) * self.group_sides(
                (k - 1) as usize,
            )
        }
    }

    /// The fence price of the whole garden at bulk pricing.
    pub open spec fn side_cost(self) -> int {
        self.side_cost_upto(self.n_groups->Some_0 as int)
    }

    /// The garden has been fully labeled: every plant carries a region id
    /// below the recorded region count together with its border and corner
    /// counts, and every region id below the count is in use.
    pub open spec fn well_labeled(self) -> bool {
        &&& self.wf()
        &&& self.size_i * self.size_j <= usize::MAX
        &&& self.n_groups is Some
        &&& forall|a: int, b: int|
            self.in_bounds(a, b) ==> {
                &&& (#[trigger] self.at(a, b)).group is Some
                &&& self.at(a, b).group->Some_0 < self.n_groups->Some_0
                &&& self.at(a, b).borders is Some
                &&& self.at(a, b).borders->Some_0 <= 4
                &&& self.at(a, b).edges is Some
                &&& self.at(a, b).edges->Some_0 <= 4
            }
        &&& forall|g: int| 0 <= g < self.n_groups->Some_0 ==> #[trigger] self.group_used(g)
    }

    /// Some plant belongs to the region `g`.
    pub open spec fn group_used(self, g: int) -> bool {
        exists|a: int, b: int|
            self.in_bounds(a, b) && (#[trigger] self.at(a, b)).group == Some(g as usize)
    }

    /// Walk the whole grid once and add up, over the plants of the region
    /// `gid`, their number, their border counts, and their corner counts.
    #[verifier::rlimit(50)]
    fn group_metrics(&self, gid: usize, count_corners: bool) -> (r: (u64, u64, u64))
        requires
            self.well_labeled(),
            1 <= self.group_area(gid),
            !count_corners ==> self.group_area(gid) * self.group_perimeter(gid) <= u64::MAX,
            count_corners ==> self.group_area(gid) * self.group_sides(gid) <= u64::MAX,
        ensures
            r.0 as int == self.group_area(gid),
            !count_corners ==> r.1 as int == self.group_perimeter(gid),
            count_corners ==> r.2 as int == self.group_corners(gid),
    {
        let ghost rows = self.rows();
        let ghost hh = rows.len() as int;
        let ghost af = area_f(gid);
        let ghost bf = border_f(gid);
        let ghost cf = corner_f(gid);
        proof {
            assert(rows.len() == self.size_j);
            assert forall|k: int| 0 <= k < rows.len() implies (#[trigger] rows[k]).len()
                == self.size_i as int by {
                assert(rows[k] == self.plants@[k]@);
            }
            assert forall|p: Plant| 0 <= #[trigger] af(p) <= 1 by {}
            assert forall|p: Plant| 0 <= #[trigger] bf(p) by {}
            assert forall|p: Plant| 0 <= #[trigger] cf(p) by {}
            lemma_grid_sum_bounds(rows, hh, self.size_i as int, af, 0, 1);
            assert(1 * hh * self.size_i == self.size_i * self.size_j) by (nonlinear_arith)
                requires
                    hh == self.size_j as int,
            ;
            // the full perimeter and corner sums fit below u64::MAX
            if !count_corners {
                lemma_grid_sum_prefix(rows, 0, hh, bf);
                assert(self.group_perimeter(gid) <= self.group_area(gid)
                    * self.group_perimeter(gid)) by (nonlinear_arith)
                    requires
                        1 <= self.group_area(gid),
                        0 <= self.group_perimeter(gid),
                ;
            } else {
                lemma_grid_sum_prefix(rows, 0, hh, cf);
                assert(self.group_sides(gid) <= self.group_area(gid) * self.group_sides(gid))
                    by (nonlinear_arith)
                    requires
                        1 <= self.group_area(gid),
                        4 <= self.group_sides(gid),
                ;
                assert(self.group_corners(gid) <= self.group_sides(gid) + 4);
            }
        }
        let mut area: u64 = 0;
        let mut per: u64 = 0;
        let mut corners: u64 = 0;
        let mut j: usize = 0;
        while j < self.size_j
            invariant
                self.well_labeled(),
                rows == self.rows(),
                hh == rows.len() as int,
                af == area_f(gid),
                bf == border_f(gid),
                cf == corner_f(gid),
                j <= self.size_j,
                area as int == grid_sum(rows, j as int, af),
                !count_corners ==> per as int == grid_sum(rows, j as int, bf),
                count_corners ==> corners as int == grid_sum(rows, j as int, cf),
                grid_sum(rows, hh, af) <= usize::MAX,
                !count_corners ==> grid_sum(rows, hh, bf) <= u64::MAX,
                count_corners ==> grid_sum(rows, hh, cf) <= u64::MAX,
            decreases self.size_j - j,
        {
            let mut i: usize = 0;
            while i < self.size_i
                invariant
                    self.well_labeled(),
                    rows == self.rows(),
                    hh == rows.len() as int,
                    af == area_f(gid),
                    bf == border_f(gid),
                    cf == corner_f(gid),
                    j < self.size_j,
                    i <= self.size_i,
                    area as int == grid_sum(rows, j as int, af) + row_sum(
                        rows[j as int],
                        i as int,
                        af,
                    ),
                    !count_corners ==> per as int == grid_sum(rows, j as int, bf) + row_sum(
                        rows[j as int],
                        i as int,
                        bf,
                    ),
                    count_corners ==> corners as int == grid_sum(rows, j as int, cf) + row_sum(
                        rows[j as int],
                        i as int,
                        cf,
                    ),
                    grid_sum(rows, hh, af) <= usize::MAX,
                    !count_corners ==> grid_sum(rows, hh, bf) <= u64::MAX,
                    count_corners ==> grid_sum(rows, hh, cf) <= u64::MAX,
                decreases self.size_i - i,
            {
                let p = self.plants[j][i];
                proof {
                    assert(rows[j as int] == self.plants@[j as int]@);
                    assert(p == rows[j as int][i as int]);
                    assert(p == self.at(i as int, j as int));
                    // the extended partial sums stay below the full sums
                    lemma_row_sum_prefix(rows[j as int], i + 1, self.size_i as int, af);
                    lemma_row_sum_prefix(rows[j as int], i + 1, self.size_i as int, bf);
                    lemma_row_sum_prefix(rows[j as int], i + 1, self.size_i as int, cf);
                    lemma_grid_sum_prefix(rows, j + 1, hh, af);
                    lemma_grid_sum_prefix(rows, j + 1, hh, bf);
                    lemma_grid_sum_prefix(rows, j + 1, hh, cf);
                }
                let matched = match p.group {
                    Some(g) => g == gid,
                    None => false,
                };
                if matched {
                    area = area + 1;
                    if !count_corners {
                        per = per + (p.borders.unwrap() as u64);
                    } else {
                        corners = corners + (p.edges.unwrap() as u64);
                    }
                }
                i = i + 1;
            }
            j = j + 1;
        }
        (area, per, corners)
    }

    /// The fence price of the garden at classic pricing: over every region,
    /// its area times its perimeter, summed.
    pub fn get_cost(&self) -> (cost: u64)
        requires
            self.well_labeled(),
            self.perimeter_cost() <= u64::MAX,
        ensures
            cost as int == self.perimeter_cost(),
    {
        let n = self.n_groups.unwrap();
        let mut cost: u64 = 0;
        let mut gid: usize = 0;
        while gid < n
            invariant
                self.well_labeled(),
                self.perimeter_cost() <= u64::MAX,
                n == self.n_groups->Some_0,
                gid <= n,
                cost as int == self.perimeter_cost_upto(gid as int),
            decreases n - gid,
        {
            proof {
                assert(self.group_used(gid as int));
                lemma_group_area_pos(*self, gid);
                lemma_perimeter_cost_mono(*self, 0, gid as int);
                lemma_perimeter_cost_mono(*self, gid as int + 1, n as int);
                assert(self.perimeter_cost_upto(gid as int + 1) == self.perimeter_cost_upto(
                    gid as int,
                ) + self.group_area(gid) * self.group_perimeter(gid));
            }
            let (area, per, _) = self.group_metrics(gid, false);
            cost = cost + area * per;
            gid = gid + 1;
        }
        cost
    }

    /// The fence price of the garden at bulk pricing: over every region, its
    /// area times its number of sides, summed.
    pub fn get_cost_2(&self) -> (cost: u64)
        requires
            self.well_labeled(),
            self.side_cost() <= u64::MAX,
        ensures
            cost as int == self.side_cost(),
    {
        let n = self.n_groups.unwrap();
        let mut cost: u64 = 0;
        let mut gid: usize = 0;
        while gid < n
            invariant
                self.well_labeled(),
                self.side_cost() <= u64::MAX,
                n == self.n_groups->Some_0,
                gid <= n,
                cost as int == self.side_cost_upto(gid as int),
            decreases n - gid,
        {
            proof {
                assert(self.group_used(gid as int));
                lemma_group_area_pos(*self, gid);
                lemma_side_cost_mono(*self, 0, gid as int);
                lemma_side_cost_mono(*self, gid as int + 1, n as int);
                assert(self.side_cost_upto(gid as int + 1) == self.side_cost_upto(gid as int)
                    + self.group_area(gid) * self.group_sides(gid));
                assert(self.group_sides(gid) <= self.group_area(gid) * self.group_sides(gid))
                    by (nonlinear_arith)
                    requires
                        1 <= self.group_area(gid),
                        4 <= self.group_sides(gid),
                ;
            }
            let (area, _, corners) = self.group_metrics(gid, true);
            let number_sides: u64 = if corners > 4 {
                4 + 2 * (corners - 4)
            } else {
                4
            };
            proof {
                assert(number_sides as int == self.group_sides(gid));
            }
            cost = cost + area * number_sides;
            gid = gid + 1;
        }
        cost
    }

    /// How many plants of the whole grid are still unassigned.
    pub open spec fn unassigned_total(self) -> int {
        grid_unassigned(self.rows(), self.rows().len() as int)
    }
}

impl Garden {
    /// Row-major scan position of a grid cell.
    pub open spec fn scan_idx(self, c: (int, int)) -> int {
        c.1 * self.size_i + c.0
    }

    /// The grid cell at a row-major scan position.
    pub open spec fn cell_at_scan(self, t: int) -> (int, int) {
        (t % self.size_i as int, t / self.size_i as int)
    }

    /// `d` is the first cell of `c`'s region in scan order.
    pub open spec fn is_region_start(self, d: (int, int), c: (int, int)) -> bool {
        &&& self.connected(c, d)
        &&& forall|e: (int, int)|
            self.connected(c, e) ==> self.scan_idx(d) <= #[trigger] self.scan_idx(e)
    }

    /// The first cell of `c`'s region in scan order.
    pub open spec fn region_start(self, c: (int, int)) -> (int, int) {
        choose|d: (int, int)| self.is_region_start(d, c)
    }

    /// How many of the cells at scan positions below `t` begin a region:
    /// exactly the region ids the labeling pass hands out while scanning
    /// those positions.
    pub open spec fn starts_below(self, t: int) -> int
        decreases t,
    {
        if t <= 0 {
            0
        } else {
            self.starts_below(t - 1) + if self.is_region_start(
                self.cell_at_scan(t - 1),
                self.cell_at_scan(t - 1),
            ) {
                1int
            } else {
                0
            }
        }
    }

    /// The region id the labeling pass gives the cell `c`: the number of
    /// regions whose first cell is scanned before `c`'s region's first cell.
    pub open spec fn region_id(self, c: (int, int)) -> int {
        self.starts_below(self.scan_idx(self.region_start(c)))
    }

    /// What a finished labeling pass over the garden `g0` leaves behind:
    /// every plant carries its region id, its border count and its corner
    /// count, and the region count is recorded.  The labels alone determine
    /// all of it.
    pub open spec fn labeled_from(self, g0: Garden) -> bool {
        &&& self.wf()
        &&& self.same_skeleton(g0)
        &&& g0.size_i * g0.size_j <= usize::MAX
        &&& self.n_groups == Some(
            (g0.starts_below(g0.size_i as int * g0.size_j as int)) as usize,
        )
        &&& forall|a: int, b: int|
            g0.in_bounds(a, b) ==> (#[trigger] self.at(a, b)) == g0.visited_plant(
                a,
                b,
                g0.region_id((a, b)) as usize,
            )
    }
}

/// Every in-bounds cell is connected to itself.
proof fn lemma_connected_refl(g: Garden, c: (int, int))
    requires
        g.in_bounds(c.0, c.1),
    ensures
        g.connected(c, c),
{
    let p: Seq<(int, int)> = seq![c];
    assert(g.is_label_path(p));
    assert(p[0] == c && p[p.len() - 1] == c);
}

/// Connectivity is symmetric: a same-label path reverses.
proof fn lemma_connected_sym(g: Garden, a: (int, int), b: (int, int))
    requires
        g.connected(a, b),
    ensures
        g.connected(b, a),
{
    let p = choose|p: Seq<(int, int)>|
        g.is_label_path(p) && p[0] == a && p[p.len() - 1] == b;
    let n = p.len() as int;
    let q = Seq::new(p.len(), |k: int| p[n - 1 - k]);
    assert(g.is_label_path(q)) by {
        assert(q[0] == p[n - 1]);
        assert(g.label_at(p[n - 1].0, p[n - 1].1) == g.label_at(p[0].0, p[0].1));
        assert forall|k: int| 0 <= k < q.len() implies {
            &&& g.in_bounds((#[trigger] q[k]).0, q[k].1)
            &&& g.label_at(q[k].0, q[k].1) == g.label_at(q[0].0, q[0].1)
        } by {
            assert(q[k] == p[n - 1 - k]);
        }
        assert forall|k: int| 0 <= k < q.len() - 1 implies adjacent(q[k], #[trigger] q[k + 1]) by {
            assert(q[k] == p[n - 1 - k] && q[k + 1] == p[n - 2 - k]);
            assert(adjacent(p[n - 2 - k], p[(n - 2 - k) + 1]));
        }
    }
    assert(q[0] == b && q[q.len() - 1] == a);
}

/// Connectivity is transitive: same-label paths concatenate.
proof fn lemma_connected_trans(g: Garden, a: (int, int), b: (int, int), c: (int, int))
    requires
        g.connected(a, b),
        g.connected(b, c),
    ensures
        g.connected(a, c),
{
    let p = choose|p: Seq<(int, int)>|
        g.is_label_path(p) && p[0] == a && p[p.len() - 1] == b;
    let q = choose|q: Seq<(int, int)>|
        g.is_label_path(q) && q[0] == b && q[q.len() - 1] == c;
    let r = p + q.subrange(1, q.len() as int);
    assert(g.label_at(b.0, b.1) == g.label_at(a.0, a.1));
    assert(g.is_label_path(r)) by {
        assert(r[0] == p[0]);
        assert forall|k: int| 0 <= k < r.len() implies {
            &&& g.in_bounds((#[trigger] r[k]).0, r[k].1)
            &&& g.label_at(r[k].0, r[k].1) == g.label_at(r[0].0, r[0].1)
        } by {
            if k < p.len() {
                assert(r[k] == p[k]);
            } else {
                assert(r[k] == q[k - p.len() + 1]);
            }
        }
        assert forall|k: int| 0 <= k < r.len() - 1 implies adjacent(r[k], #[trigger] r[k + 1]) by {
            if k + 1 < p.len() {
                assert(r[k] == p[k] && r[k + 1] == p[k + 1]);
            } else if k + 1 == p.len() {
                assert(r[k] == p[p.len() - 1] && r[k + 1] == q[1]);
                assert(adjacent(q[0int], q[0int + 1]));
            } else {
                assert(r[k] == q[k - p.len() + 1] && r[k + 1] == q[k - p.len() + 2]);
                let m = k - p.len() + 1;
                assert(adjacent(q[m], q[m + 1]));
            }
        }
    }
    assert(r[0] == a && r[r.len() - 1] == c);
}

/// Scan positions determine cells: two in-bounds cells with the same scan
/// position are the same cell.
proof fn lemma_scan_idx_injective(g: Garden, c: (int, int), d: (int, int))
    requires
        g.wf(),
        g.in_bounds(c.0, c.1),
        g.in_bounds(d.0, d.1),
        g.scan_idx(c) == g.scan_idx(d),
    ensures
        c == d,
{
    let w = g.size_i as int;
    let t = g.scan_idx(c);
    vstd::arithmetic::div_mod::lemma_fundamental_div_mod_converse(t, w, c.1, c.0);
    vstd::arithmetic::div_mod::lemma_fundamental_div_mod_converse(t, w, d.1, d.0);
}

/// A cell's scan position lies within the scan range of the grid.
proof fn lemma_scan_idx_bounds(g: Garden, c: (int, int))
    requires
        g.wf(),
        g.in_bounds(c.0, c.1),
    ensures
        0 <= g.scan_idx(c) < g.size_i * g.size_j,
        g.cell_at_scan(g.scan_idx(c)) == c,
{
    let w = g.size_i as int;
    assert(0 <= c.1 * w && c.1 * w + w <= g.size_j * w) by (nonlinear_arith)
        requires
            0 <= c.1,
            c.1 < g.size_j,
            0 < w,
    ;
    assert(g.size_j * w == g.size_i * g.size_j) by (nonlinear_arith)
        requires
            w == g.size_i as int,
    ;
    vstd::arithmetic::div_mod::lemma_fundamental_div_mod_converse(g.scan_idx(c), w, c.1, c.0);
}

/// Connected cells share the same region start.
proof fn lemma_same_region_start(g: Garden, a: (int, int), b: (int, int))
    requires
        g.wf(),
        g.connected(a, b),
    ensures
        g.region_start(a) == g.region_start(b),
        g.is_region_start(g.region_start(a), a),
        g.is_region_start(g.region_start(b), b),
{
    lemma_region_start_exists(g, a);
    let da = g.region_start(a);
    assert(g.is_region_start(da, a));
    lemma_region_start_exists(g, b);
    let db = g.region_start(b);
    assert(g.is_region_start(db, b));
    lemma_connected_sym(g, a, b);
    // da starts b's region as well
    assert(g.is_region_start(da, b)) by {
        lemma_connected_trans(g, b, a, da);
        assert forall|e: (int, int)| g.connected(b, e) implies g.scan_idx(da)
            <= #[trigger] g.scan_idx(e) by {
            lemma_connected_trans(g, a, b, e);
        }
    }
    assert(g.scan_idx(da) <= g.scan_idx(db));
    assert(g.scan_idx(db) <= g.scan_idx(da)) by {
        lemma_connected_trans(g, b, a, da);
    }
    // both are in bounds, being connected to b
    assert(g.in_bounds(da.0, da.1)) by {
        let p = choose|p: Seq<(int, int)>|
            g.is_label_path(p) && p[0] == b && p[p.len() - 1] == da;
        assert(g.in_bounds(p[p.len() - 1].0, p[p.len() - 1].1));
    }
    assert(g.in_bounds(db.0, db.1)) by {
        let p = choose|p: Seq<(int, int)>|
            g.is_label_path(p) && p[0] == b && p[p.len() - 1] == db;
        assert(g.in_bounds(p[p.len() - 1].0, p[p.len() - 1].1));
    }
    lemma_scan_idx_injective(g, da, db);
}

/// Every in-bounds cell's region has a first cell in scan order.
proof fn lemma_region_start_exists(g: Garden, c: (int, int))
    requires
        g.wf(),
        g.in_bounds(c.0, c.1),
    ensures
        g.is_region_start(g.region_start(c), c),
    decreases g.scan_idx(c),
{
    lemma_connected_refl(g, c);
    lemma_scan_idx_bounds(g, c);
    if forall|e: (int, int)|
        g.connected(c, e) ==> g.scan_idx(c) <= #[trigger] g.scan_idx(e) {
        assert(g.is_region_start(c, c));
    } else {
        let e = choose|e: (int, int)| g.connected(c, e) && !(g.scan_idx(c) <= g.scan_idx(e));
        assert(g.connected(c, e) && g.scan_idx(e) < g.scan_idx(c));
        assert(g.in_bounds(e.0, e.1)) by {
            let p = choose|p: Seq<(int, int)>|
                g.is_label_path(p) && p[0] == c && p[p.len() - 1] == e;
            assert(g.in_bounds(p[p.len() - 1].0, p[p.len() - 1].1));
        }
        lemma_scan_idx_bounds(g, e);
        lemma_region_start_exists(g, e);
        let d = g.region_start(e);
        assert(g.is_region_start(d, e));
        assert(g.is_region_start(d, c)) by {
            lemma_connected_trans(g, c, e, d);
            assert forall|f: (int, int)| g.connected(c, f) implies g.scan_idx(d)
                <= #[trigger] g.scan_idx(f) by {
                lemma_connected_sym(g, c, e);
                lemma_connected_trans(g, e, c, f);
            }
        }
        let dc = g.region_start(c);
        assert(g.is_region_start(dc, c));
    }
}

/// Counting region starts is monotone in the scan position.
proof fn lemma_starts_below_monotone(g: Garden, t1: int, t2: int)
    requires
        t1 <= t2,
    ensures
        g.starts_below(t1) <= g.starts_below(t2),
    decreases t2 - t1,
{
    if t1 < t2 {
        lemma_starts_below_monotone(g, t1, t2 - 1);
    }
}

/// No more regions can start below a position than there are cells there.
proof fn lemma_starts_below_at_most(g: Garden, t: int)
    ensures
        g.starts_below(t) <= if t >= 0 {
            t
        } else {
            0
        },
        0 <= g.starts_below(t),
    decreases t,
{
    if t > 0 {
        lemma_starts_below_at_most(g, t - 1);
    }
}

/// The region id of every cell lies below the total number of regions.
proof fn lemma_region_id_bounds(g: Garden, c: (int, int))
    requires
        g.wf(),
        g.in_bounds(c.0, c.1),
    ensures
        0 <= g.region_id(c) < g.starts_below(g.size_i as int * g.size_j as int),
{
    lemma_region_start_exists(g, c);
    let d = g.region_start(c);
    assert(g.in_bounds(d.0, d.1)) by {
        let p = choose|p: Seq<(int, int)>|
            g.is_label_path(p) && p[0] == c && p[p.len() - 1] == d;
        assert(g.in_bounds(p[p.len() - 1].0, p[p.len() - 1].1));
    }
    lemma_scan_idx_bounds(g, d);
    let t = g.scan_idx(d);
    // d starts its own region
    assert(g.is_region_start(d, d)) by {
        lemma_connected_sym(g, c, d);
        lemma_connected_refl(g, d);
        assert forall|e: (int, int)| g.connected(d, e) implies g.scan_idx(d)
            <= #[trigger] g.scan_idx(e) by {
            lemma_connected_trans(g, c, d, e);
        }
    }
    assert(g.starts_below(t + 1) == g.starts_below(t) + 1);
    lemma_starts_below_at_most(g, t);
    lemma_starts_below_monotone(g, t + 1, g.size_i as int * g.size_j as int);
}

impl Garden {
    /// The state of the grid after the labeling pass has scanned the first
    /// `t` positions: a plant is assigned exactly when the first cell of its
    /// region has been scanned, and an assigned plant already carries its
    /// final value.
    pub open spec fn scanned_upto(self, g0: Garden, t: int) -> bool {
        &&& self.wf()
        &&& self.same_skeleton(g0)
        &&& self.n_groups == g0.n_groups
        &&& forall|a: int, b: int|
            g0.in_bounds(a, b) ==> ((#[trigger] self.group_at(a, b)) is Some <==> g0.scan_idx(
                g0.region_start((a, b)),
            ) < t)
        &&& forall|a: int, b: int|
            g0.in_bounds(a, b) && (#[trigger] self.group_at(a, b)) is Some ==> self.at(a, b)
                == g0.visited_plant(a, b, g0.region_id((a, b)) as usize)
        &&& forall|a: int, b: int|
            g0.in_bounds(a, b) && (#[trigger] self.group_at(a, b)) is None ==> self.at(a, b)
                == g0.at(a, b)
    }
}

/// While the scan invariant holds, the assigned plants form a closed set:
/// a same-label neighbor of an assigned plant is assigned too, because the
/// two belong to one region and share its first cell.
proof fn lemma_scanned_closed(g0: Garden, g: Garden, t: int)
    requires
        g0.wf(),
        g.scanned_upto(g0, t),
    ensures
        forall|x: int, y: int|
            g.in_bounds(x, y) && (#[trigger] g.group_at(x, y)) is Some ==> {
                &&& (g.same_label(x, y, -1, 0) ==> g.group_at(x - 1, y) is Some)
                &&& (g.same_label(x, y, 1, 0) ==> g.group_at(x + 1, y) is Some)
                &&& (g.same_label(x, y, 0, -1) ==> g.group_at(x, y - 1) is Some)
                &&& (g.same_label(x, y, 0, 1) ==> g.group_at(x, y + 1) is Some)
            },
{
    assert forall|x: int, y: int|
        g.in_bounds(x, y) && (#[trigger] g.group_at(x, y)) is Some implies {
        &&& (g.same_label(x, y, -1, 0) ==> g.group_at(x - 1, y) is Some)
        &&& (g.same_label(x, y, 0, -1) ==> g.group_at(x, y - 1) is Some)
        &&& (g.same_label(x, y, 1, 0) ==> g.group_at(x + 1, y) is Some)
        &&& (g.same_label(x, y, 0, 1) ==> g.group_at(x, y + 1) is Some)
    } by {
        let c = (x, y);
        lemma_scanned_closed_step(g0, g, t, c, (x - 1, y));
        lemma_scanned_closed_step(g0, g, t, c, (x + 1, y));
        lemma_scanned_closed_step(g0, g, t, c, (x, y - 1));
        lemma_scanned_closed_step(g0, g, t, c, (x, y + 1));
    }
}

proof fn lemma_scanned_closed_step(g0: Garden, g: Garden, t: int, c: (int, int), d: (int, int))
    requires
        g0.wf(),
        g.scanned_upto(g0, t),
        g.in_bounds(c.0, c.1),
        g.group_at(c.0, c.1) is Some,
        adjacent(c, d),
    ensures
        g.in_bounds(d.0, d.1) && g.label_at(d.0, d.1) == g.label_at(c.0, c.1) ==> g.group_at(
            d.0,
            d.1,
        ) is Some,
{
    if g.in_bounds(d.0, d.1) && g.label_at(d.0, d.1) == g.label_at(c.0, c.1) {
        assert(g0.label_at(c.0, c.1) == g.label_at(c.0, c.1));
        assert(g0.label_at(d.0, d.1) == g.label_at(d.0, d.1));
        lemma_connected_adjacent(g0, c, d);
        lemma_same_region_start(g0, c, d);
    }
}

/// The sum of `f` over the first `t` plants of a row.
pub open spec fn row_sum(r: Seq<Plant>, t: int, f: spec_fn(Plant) -> int) -> int
    decreases t,
{
    if t <= 0 {
        0
    } else {
        row_sum(r, t - 1, f) + f(r[t - 1])
    }
}

/// The sum of `f` over all plants of the first `t` rows.
pub open spec fn grid_sum(rows: Seq<Seq<Plant>>, t: int, f: spec_fn(Plant) -> int) -> int
    decreases t,
{
    if t <= 0 {
        0
    } else {
        grid_sum(rows, t - 1, f) + row_sum(rows[t - 1], rows[t - 1].len() as int, f)
    }
}

/// One when the plant belongs to the region `gid`, zero otherwise.
pub open spec fn area_f(gid: usize) -> spec_fn(Plant) -> int {
    |p: Plant| if p.group == Some(gid) {
        1int
    } else {
        0
    }
}

/// The plant's recorded border count when it belongs to the region `gid`.
pub open spec fn border_f(gid: usize) -> spec_fn(Plant) -> int {
    |p: Plant| if p.group == Some(gid) {
        p.borders->Some_0 as int
    } else {
        0
    }
}

/// The plant's recorded corner count when it belongs to the region `gid`.
pub open spec fn corner_f(gid: usize) -> spec_fn(Plant) -> int {
    |p: Plant| if p.group == Some(gid) {
        p.edges->Some_0 as int
    } else {
        0
    }
}

proof fn lemma_row_sum_bounds(r: Seq<Plant>, t: int, f: spec_fn(Plant) -> int, lo: int, hi: int)
    requires
        forall|p: Plant| lo <= #[trigger] f(p) <= hi,
        0 <= lo,
    ensures
        (if t >= 0 {
            lo * t
        } else {
            0
        }) <= row_sum(r, t, f) <= (if t >= 0 {
            hi * t
        } else {
            0
        }),
    decreases t,
{
    if t > 0 {
        lemma_row_sum_bounds(r, t - 1, f, lo, hi);
        assert(lo * t == lo * (t - 1) + lo) by (nonlinear_arith);
        assert(hi * t == hi * (t - 1) + hi) by (nonlinear_arith);
    } else if t == 0 {
        assert(lo * t == 0) by (nonlinear_arith)
            requires
                t == 0,
        ;
        assert(hi * t == 0) by (nonlinear_arith)
            requires
                t == 0,
        ;
    }
}

proof fn lemma_grid_sum_bounds(
    rows: Seq<Seq<Plant>>,
    t: int,
    w: int,
    f: spec_fn(Plant) -> int,
    lo: int,
    hi: int,
)
    requires
        forall|p: Plant| lo <= #[trigger] f(p) <= hi,
        0 <= lo,
        0 <= w,
        forall|k: int| 0 <= k < rows.len() ==> (#[trigger] rows[k]).len() == w,
        t <= rows.len(),
    ensures
        (if t >= 0 {
            lo * t * w
        } else {
            0
        }) <= grid_sum(rows, t, f) <= (if t >= 0 {
            hi * t * w
        } else {
            0
        }),
    decreases t,
{
    if t > 0 {
        lemma_grid_sum_bounds(rows, t - 1, w, f, lo, hi);
        lemma_row_sum_bounds(rows[t - 1], w, f, lo, hi);
        if t == 1 {
            assert(lo * (t - 1) * w == 0) by (nonlinear_arith)
                requires
                    t == 1,
            ;
            assert(hi * (t - 1) * w == 0) by (nonlinear_arith)
                requires
                    t == 1,
            ;
        }
        assert(lo * t * w == lo * (t - 1) * w + lo * w) by (nonlinear_arith);
        assert(hi * t * w == hi * (t - 1) * w + hi * w) by (nonlinear_arith);
    } else if t == 0 {
        assert(lo * t * w == 0) by (nonlinear_arith)
            requires
                t == 0,
        ;
        assert(hi * t * w == 0) by (nonlinear_arith)
            requires
                t == 0,
        ;
    }
}

/// A prefix of a row sum of a nonnegative function is at most the full sum.
proof fn lemma_row_sum_prefix(r: Seq<Plant>, t1: int, t2: int, f: spec_fn(Plant) -> int)
    requires
        forall|p: Plant| 0 <= #[trigger] f(p),
        t1 <= t2,
    ensures
        row_sum(r, t1, f) <= row_sum(r, t2, f),
    decreases t2 - t1,
{
    if t1 < t2 {
        lemma_row_sum_prefix(r, t1, t2 - 1, f);
    }
}

proof fn lemma_grid_sum_prefix(
    rows: Seq<Seq<Plant>>,
    t1: int,
    t2: int,
    f: spec_fn(Plant) -> int,
)
    requires
        forall|p: Plant| 0 <= #[trigger] f(p),
        t1 <= t2,
    ensures
        grid_sum(rows, t1, f) <= grid_sum(rows, t2, f),
    decreases t2 - t1,
{
    if t1 < t2 {
        lemma_grid_sum_prefix(rows, t1, t2 - 1, f);
        lemma_row_sum_nonneg_f(rows[t2 - 1], rows[t2 - 1].len() as int, f);
    }
}

proof fn lemma_row_sum_nonneg_f(r: Seq<Plant>, t: int, f: spec_fn(Plant) -> int)
    requires
        forall|p: Plant| 0 <= #[trigger] f(p),
    ensures
        0 <= row_sum(r, t, f),
    decreases t,
{
    if t > 0 {
        lemma_row_sum_nonneg_f(r, t - 1, f);
    }
}

proof fn lemma_row_sum_has(r: Seq<Plant>, t: int, a: int, f: spec_fn(Plant) -> int)
    requires
        forall|p: Plant| 0 <= #[trigger] f(p),
        0 <= a < t,
    ensures
        f(r[a]) <= row_sum(r, t, f),
    decreases t,
{
    if a < t - 1 {
        lemma_row_sum_has(r, t - 1, a, f);
    } else {
        lemma_row_sum_nonneg_f(r, t - 1, f);
    }
}

proof fn lemma_grid_sum_has(rows: Seq<Seq<Plant>>, t: int, b: int, f: spec_fn(Plant) -> int)
    requires
        forall|p: Plant| 0 <= #[trigger] f(p),
        0 <= b < t,
    ensures
        row_sum(rows[b], rows[b].len() as int, f) <= grid_sum(rows, t, f),
    decreases t,
{
    if b < t - 1 {
        lemma_grid_sum_has(rows, t - 1, b, f);
        lemma_row_sum_nonneg_f(rows[t - 1], rows[t - 1].len() as int, f);
    } else {
        lemma_grid_sum_prefix(rows, 0, t - 1, f);
    }
}

/// The running fence price at classic pricing never shrinks as regions are
/// added.
proof fn lemma_perimeter_cost_mono(g: Garden, k1: int, k2: int)
    requires
        0 <= k1 <= k2,
    ensures
        g.perimeter_cost_upto(k1) <= g.perimeter_cost_upto(k2),
    decreases k2 - k1,
{
    if k1 < k2 {
        lemma_perimeter_cost_mono(g, k1, k2 - 1);
        let gid = (k2 - 1) as usize;
        lemma_grid_sum_prefix(g.rows(), 0, g.rows().len() as int, area_f(gid));
        lemma_grid_sum_prefix(g.rows(), 0, g.rows().len() as int, border_f(gid));
        assert(0 <= g.group_area(gid) * g.group_perimeter(gid)) by (nonlinear_arith)
            requires
                0 <= g.group_area(gid),
                0 <= g.group_perimeter(gid),
        ;
    }
}

/// The running fence price at bulk pricing never shrinks as regions are
/// added.
proof fn lemma_side_cost_mono(g: Garden, k1: int, k2: int)
    requires
        0 <= k1 <= k2,
    ensures
        g.side_cost_upto(k1) <= g.side_cost_upto(k2),
    decreases k2 - k1,
{
    if k1 < k2 {
        lemma_side_cost_mono(g, k1, k2 - 1);
        let gid = (k2 - 1) as usize;
        lemma_grid_sum_prefix(g.rows(), 0, g.rows().len() as int, area_f(gid));
        lemma_grid_sum_prefix(g.rows(), 0, g.rows().len() as int, corner_f(gid));
        assert(0 <= g.group_area(gid) * g.group_sides(gid)) by (nonlinear_arith)
            requires
                0 <= g.group_area(gid),
                4 <= g.group_sides(gid),
        ;
    }
}

/// A region that some plant belongs to has area at least one.
proof fn lemma_group_area_pos(g: Garden, gid: usize)
    requires
        g.wf(),
        g.group_used(gid as int),
    ensures
        1 <= g.group_area(gid),
{
    let (a, b) = choose|a: int, b: int|
        g.in_bounds(a, b) && (#[trigger] g.at(a, b)).group == Some(gid);
    let f = area_f(gid);
    assert(g.rows()[b] == g.plants@[b]@);
    assert(g.rows()[b][a] == g.at(a, b));
    assert(f(g.at(a, b)) == 1);
    lemma_row_sum_has(g.rows()[b], g.rows()[b].len() as int, a, f);
    lemma_grid_sum_has(g.rows(), g.rows().len() as int, b, f);
}

/// Connected cells lie in bounds and carry the same label.
proof fn lemma_connected_endpoints(g: Garden, a: (int, int), b: (int, int))
    requires
        g.connected(a, b),
    ensures
        g.in_bounds(a.0, a.1),
        g.in_bounds(b.0, b.1),
        g.label_at(b.0, b.1) == g.label_at(a.0, a.1),
{
    let q = choose|q: Seq<(int, int)>|
        g.is_label_path(q) && q[0] == a && q[q.len() - 1] == b;
    assert(g.in_bounds(q[0].0, q[0].1));
    assert(g.in_bounds(q[q.len() - 1].0, q[q.len() - 1].1));
    assert(g.label_at(q[q.len() - 1].0, q[q.len() - 1].1) == g.label_at(q[0].0, q[0].1));
}

/// One scan step over a plant whose region is already labeled: nothing
/// changes, and the scanned position does not begin a region.
proof fn lemma_find_scan_step_seen(g0: Garden, g: Garden, p: (int, int), t: int)
    requires
        g0.wf(),
        g.scanned_upto(g0, t),
        g0.in_bounds(p.0, p.1),
        g0.scan_idx(p) == t,
        g0.cell_at_scan(t) == p,
        g.group_at(p.0, p.1) is Some,
    ensures
        g.scanned_upto(g0, t + 1),
        g0.starts_below(t + 1) == g0.starts_below(t),
{
    lemma_region_start_exists(g0, p);
    let d = g0.region_start(p);
    assert(g0.scan_idx(d) < t);
    if g0.is_region_start(p, p) {
        lemma_connected_refl(g0, p);
        assert(g0.scan_idx(p) <= g0.scan_idx(d)) by {
            assert(g0.connected(p, d));
        }
        assert(false);
    }
    assert forall|a: int, b: int|
        g0.in_bounds(a, b) implies ((#[trigger] g.group_at(a, b)) is Some <==> g0.scan_idx(
        g0.region_start((a, b)),
    ) < t + 1) by {
        lemma_region_start_exists(g0, (a, b));
        let e = g0.region_start((a, b));
        if g0.scan_idx(e) == t {
            lemma_connected_endpoints(g0, (a, b), e);
            lemma_scan_idx_injective(g0, e, p);
            lemma_connected_sym(g0, (a, b), p);
            lemma_same_region_start(g0, p, (a, b));
            assert(g0.scan_idx(g0.region_start(p)) < t);
            assert(false);
        }
    }
}

/// One scan step over a plant whose region is still unlabeled: the scanned
/// position begins the region, and the flood fills exactly that region with
/// the next region id.
proof fn lemma_find_scan_step_fresh(
    g0: Garden,
    gpre: Garden,
    gpost: Garden,
    p: (int, int),
    t: int,
    sidx: usize,
)
    requires
        g0.wf(),
        gpre.scanned_upto(g0, t),
        g0.in_bounds(p.0, p.1),
        g0.scan_idx(p) == t,
        g0.cell_at_scan(t) == p,
        gpre.group_at(p.0, p.1) is None,
        sidx as int == g0.starts_below(t),
        gpost.wf(),
        gpost.same_skeleton(gpre),
        gpost.n_groups == gpre.n_groups,
        forall|a: int, b: int|
            gpre.in_bounds(a, b) && gpre.reaches(p, (a, b)) ==> (#[trigger] gpost.at(a, b))
                == gpre.visited_plant(a, b, sidx),
        forall|a: int, b: int|
            gpre.in_bounds(a, b) && !gpre.reaches(p, (a, b)) ==> (#[trigger] gpost.at(a, b))
                == gpre.at(a, b),
    ensures
        gpost.scanned_upto(g0, t + 1),
        g0.starts_below(t + 1) == sidx as int + 1,
{
    lemma_skeleton_sym(gpre, g0);
    lemma_scanned_closed(g0, gpre, t);
    // the scanned cell begins its own region
    lemma_region_start_exists(g0, p);
    let d = g0.region_start(p);
    lemma_connected_refl(g0, p);
    assert(g0.scan_idx(d) <= t);
    if g0.scan_idx(d) < t {
        assert(gpre.group_at(p.0, p.1) is Some);
        assert(false);
    }
    lemma_connected_endpoints(g0, p, d);
    lemma_scan_idx_injective(g0, d, p);
    assert(g0.is_region_start(p, p));
    assert(g0.starts_below(t + 1) == g0.starts_below(t) + 1);
    // the flood reaches exactly the cells of the scanned region
    assert(gpost.same_skeleton(g0));
    assert forall|a: int, b: int| g0.in_bounds(a, b) implies {
        &&& ((#[trigger] gpost.group_at(a, b)) is Some <==> g0.scan_idx(
            g0.region_start((a, b)),
        ) < t + 1)
        &&& (gpost.group_at(a, b) is Some ==> gpost.at(a, b) == g0.visited_plant(
            a,
            b,
            g0.region_id((a, b)) as usize,
        ))
        &&& (gpost.group_at(a, b) is None ==> gpost.at(a, b) == g0.at(a, b))
    } by {
        let c = (a, b);
        lemma_region_start_exists(g0, c);
        let e = g0.region_start(c);
        lemma_connected_endpoints(g0, c, e);
        if g0.connected(p, c) {
            // c lies in the scanned region: it is visited now
            lemma_same_region_start(g0, p, c);
            assert(g0.scan_idx(g0.region_start(c)) == t);
            assert(gpre.group_at(a, b) is None);
            assert(gpre.at(a, b) == g0.at(a, b));
            lemma_connected_skeleton(g0, gpre, p, c);
            lemma_connected_implies_reaches(gpre, p, c);
            assert(gpost.at(a, b) == gpre.visited_plant(a, b, sidx));
            lemma_skeleton_counts(g0, gpre, a, b);
            assert(gpre.visited_plant(a, b, sidx) == g0.visited_plant(a, b, sidx));
            assert(g0.region_id(c) == sidx as int);
        } else {
            // c lies elsewhere: the flood leaves it alone
            if gpre.reaches(p, c) {
                lemma_reaches_implies_connected(gpre, p, c);
                lemma_connected_skeleton(gpre, g0, p, c);
                assert(false);
            }
            assert(gpost.at(a, b) == gpre.at(a, b));
            if g0.scan_idx(e) == t {
                lemma_scan_idx_injective(g0, e, p);
                lemma_connected_sym(g0, c, p);
                assert(false);
            }
        }
    }
}

/// Gardens with equal sizes and labels agree on what is connected.
proof fn lemma_skeleton_sym(g1: Garden, g2: Garden)
    requires
        g1.same_skeleton(g2),
    ensures
        g2.same_skeleton(g1),
{
}

/// A free path is in particular a same-label path.
proof fn lemma_reaches_implies_connected(g: Garden, p: (int, int), c: (int, int))
    requires
        g.reaches(p, c),
    ensures
        g.connected(p, c),
{
    let q = choose|q: Seq<(int, int)>|
        g.is_free_path(q) && q[0] == p && q[q.len() - 1] == c;
    assert(g.is_label_path(q));
}

/// Connectivity carries over between gardens with the same skeleton.
proof fn lemma_connected_skeleton(g1: Garden, g2: Garden, a: (int, int), b: (int, int))
    requires
        g1.same_skeleton(g2),
        g1.connected(a, b),
    ensures
        g2.connected(a, b),
{
    let q = choose|q: Seq<(int, int)>|
        g1.is_label_path(q) && q[0] == a && q[q.len() - 1] == b;
    assert(g2.is_label_path(q)) by {
        assert forall|k: int| 0 <= k < q.len() implies {
            &&& g2.in_bounds((#[trigger] q[k]).0, q[k].1)
            &&& g2.label_at(q[k].0, q[k].1) == g2.label_at(q[0].0, q[0].1)
        } by {
            assert(g1.in_bounds(q[k].0, q[k].1));
            assert(g1.at(q[k].0, q[k].1).label == g2.at(q[k].0, q[k].1).label);
            assert(g1.at(q[0].0, q[0].1).label == g2.at(q[0].0, q[0].1).label);
        }
    }
}

/// Adjacent in-bounds cells with equal labels are connected.
proof fn lemma_connected_adjacent(g: Garden, c: (int, int), d: (int, int))
    requires
        g.in_bounds(c.0, c.1),
        g.in_bounds(d.0, d.1),
        adjacent(c, d),
        g.label_at(c.0, c.1) == g.label_at(d.0, d.1),
    ensures
        g.connected(c, d),
{
    let q: Seq<(int, int)> = seq![c, d];
    assert(g.is_label_path(q)) by {
        assert(q[0] == c && q[1] == d);
        assert(adjacent(q[0int], q[0int + 1]));
    }
    assert(q[0] == c && q[q.len() - 1] == d);
}

/// When the assigned plants form a closed set and the path's first cell is
/// unassigned, a same-label path never enters assigned territory.
proof fn lemma_label_path_stays_free(g: Garden, q: Seq<(int, int)>, k: int)
    requires
        forall|x: int, y: int|
            g.in_bounds(x, y) && (#[trigger] g.group_at(x, y)) is Some ==> {
                &&& (g.same_label(x, y, -1, 0) ==> g.group_at(x - 1, y) is Some)
                &&& (g.same_label(x, y, 1, 0) ==> g.group_at(x + 1, y) is Some)
                &&& (g.same_label(x, y, 0, -1) ==> g.group_at(x, y - 1) is Some)
                &&& (g.same_label(x, y, 0, 1) ==> g.group_at(x, y + 1) is Some)
            },
        g.is_label_path(q),
        g.group_at(q[0].0, q[0].1) is None,
        0 <= k < q.len(),
    ensures
        g.group_at(q[k].0, q[k].1) is None,
    decreases k,
{
    if k > 0 {
        lemma_label_path_stays_free(g, q, k - 1);
        let c = q[k - 1];
        let d = q[k];
        assert(adjacent(q[k - 1], q[(k - 1) + 1]));
        if g.group_at(d.0, d.1) is Some {
            assert(g.label_at(c.0, c.1) == g.label_at(d.0, d.1));
            if d.0 == c.0 + 1 {
                assert(g.same_label(d.0, d.1, -1, 0));
            } else if d.0 + 1 == c.0 {
                assert(g.same_label(d.0, d.1, 1, 0));
            } else if d.1 == c.1 + 1 {
                assert(g.same_label(d.0, d.1, 0, -1));
            } else {
                assert(g.same_label(d.0, d.1, 0, 1));
            }
            assert(g.group_at(c.0, c.1) is Some);
            assert(false);
        }
    }
}

/// Under a closed assignment, label connectivity from an unassigned cell
/// gives a free path.
proof fn lemma_connected_implies_reaches(g: Garden, p: (int, int), c: (int, int))
    requires
        forall|x: int, y: int|
            g.in_bounds(x, y) && (#[trigger] g.group_at(x, y)) is Some ==> {
                &&& (g.same_label(x, y, -1, 0) ==> g.group_at(x - 1, y) is Some)
                &&& (g.same_label(x, y, 1, 0) ==> g.group_at(x + 1, y) is Some)
                &&& (g.same_label(x, y, 0, -1) ==> g.group_at(x, y - 1) is Some)
                &&& (g.same_label(x, y, 0, 1) ==> g.group_at(x, y + 1) is Some)
            },
        g.connected(p, c),
        g.group_at(p.0, p.1) is None,
    ensures
        g.reaches(p, c),
{
    let q = choose|q: Seq<(int, int)>|
        g.is_label_path(q) && q[0] == p && q[q.len() - 1] == c;
    assert(g.is_free_path(q)) by {
        assert forall|k: int| 0 <= k < q.len() implies g.group_at(
            (#[trigger] q[k]).0,
            q[k].1,
        ) is None by {
            lemma_label_path_stays_free(g, q, k);
        }
    }
}

/// The cell at any scan position within the grid's scan range lies in
/// bounds, and scanning is a bijection between positions and cells.
proof fn lemma_cell_at_scan_in_bounds(g: Garden, t: int)
    requires
        g.wf(),
        0 <= t < g.size_i * g.size_j,
    ensures
        g.in_bounds(g.cell_at_scan(t).0, g.cell_at_scan(t).1),
        g.scan_idx(g.cell_at_scan(t)) == t,
{
    let w = g.size_i as int;
    vstd::arithmetic::div_mod::lemma_mod_bound(t, w);
    vstd::arithmetic::div_mod::lemma_fundamental_div_mod(t, w);
    assert(t / w < g.size_j) by (nonlinear_arith)
        requires
            0 < w,
            0 <= t < w * (g.size_j as int),
            t == w * (t / w) + t % w,
            0 <= t % w < w,
    ;
    assert(0 <= t / w) by (nonlinear_arith)
        requires
            0 < w,
            0 <= t,
            t == w * (t / w) + t % w,
            0 <= t % w < w,
    ;
    assert((t / w) * w == w * (t / w)) by (nonlinear_arith);
}

/// The region start of an in-bounds cell, as a handy bundle of facts.
proof fn lemma_region_start_facts(g: Garden, c: (int, int))
    requires
        g.wf(),
        g.in_bounds(c.0, c.1),
    ensures
        g.is_region_start(g.region_start(c), c),
        g.in_bounds(g.region_start(c).0, g.region_start(c).1),
        0 <= g.scan_idx(g.region_start(c)) < g.size_i * g.size_j,
        g.is_region_start(g.region_start(c), g.region_start(c)),
{
    lemma_region_start_exists(g, c);
    let d = g.region_start(c);
    lemma_connected_endpoints(g, c, d);
    lemma_scan_idx_bounds(g, d);
    assert(g.is_region_start(d, d)) by {
        lemma_connected_sym(g, c, d);
        lemma_connected_refl(g, d);
        assert forall|e: (int, int)| g.connected(d, e) implies g.scan_idx(d)
            <= #[trigger] g.scan_idx(e) by {
            lemma_connected_trans(g, c, d, e);
        }
    }
}

/// Every region id below the count of region starts is the id of some
/// region start.
proof fn lemma_start_with_rank(g: Garden, t: int, k: int)
    requires
        g.wf(),
        t <= g.size_i * g.size_j,
        0 <= k < g.starts_below(t),
    ensures
        exists|c: (int, int)| g.in_bounds(c.0, c.1) && #[trigger] g.region_id(c) == k,
    decreases t,
{
    lemma_starts_below_at_most(g, t - 1);
    if g.starts_below(t) == g.starts_below(t - 1) {
        lemma_start_with_rank(g, t - 1, k);
    } else {
        let c = g.cell_at_scan(t - 1);
        lemma_cell_at_scan_in_bounds(g, t - 1);
        if k == g.starts_below(t - 1) {
            // c itself is the start with rank k
            lemma_region_start_facts(g, c);
            let d = g.region_start(c);
            assert(g.is_region_start(c, c));
            assert(g.connected(c, d));
            assert(g.scan_idx(c) <= g.scan_idx(d));
            assert(g.scan_idx(d) <= g.scan_idx(c)) by {
                lemma_connected_refl(g, c);
            }
            lemma_scan_idx_injective(g, c, d);
            assert(g.region_id(c) == g.starts_below(t - 1));
        } else {
            lemma_start_with_rank(g, t - 1, k);
        }
    }
}

/// A garden that the labeling pass has produced is well labeled: region ids
/// are dense below the recorded count, and every plant carries counts of at
/// most four.
pub proof fn lemma_labeled_well(g: Garden, g0: Garden)
    requires
        g0.wf(),
        g.labeled_from(g0),
    ensures
        g.well_labeled(),
{
    let wh = g0.size_i as int * g0.size_j as int;
    let n = g0.starts_below(wh);
    lemma_starts_below_at_most(g0, wh);
    assert forall|a: int, b: int| g.in_bounds(a, b) implies {
        &&& (#[trigger] g.at(a, b)).group is Some
        &&& g.at(a, b).group->Some_0 < g.n_groups->Some_0
        &&& g.at(a, b).borders is Some
        &&& g.at(a, b).borders->Some_0 <= 4
        &&& g.at(a, b).edges is Some
        &&& g.at(a, b).edges->Some_0 <= 4
    } by {
        lemma_region_id_bounds(g0, (a, b));
        assert(g.at(a, b) == g0.visited_plant(a, b, g0.region_id((a, b)) as usize));
        assert(0 <= g0.border_count(a, b) <= 4);
        assert(0 <= g0.corner_count(a, b) <= 4);
    }
    assert forall|k: int| 0 <= k < g.n_groups->Some_0 implies #[trigger] g.group_used(k) by {
        lemma_start_with_rank(g0, wh, k);
        let c = choose|c: (int, int)|
            g0.in_bounds(c.0, c.1) && #[trigger] g0.region_id(c) == k;
        assert(g.at(c.0, c.1).group == Some(k as usize));
    }
}

/// The sum of the areas of the first `k` regions.
pub open spec fn total_area_upto(g: Garden, k: int) -> int
    decreases k,
{
    if k <= 0 {
        0
    } else {
        total_area_upto(g, k - 1) + g.group_area((k - 1) as usize)
    }
}

/// How many of the first `k` region ids a single plant belongs to.
spec fn sum_ind(p: Plant, k: int) -> int
    decreases k,
{
    if k <= 0 {
        0
    } else {
        sum_ind(p, k - 1) + if p.group == Some((k - 1) as usize) {
            1int
        } else {
            0
        }
    }
}

proof fn lemma_sum_ind_zero(p: Plant, k: int)
    requires
        p.group is Some,
        k <= p.group->Some_0,
    ensures
        sum_ind(p, k) == 0,
    decreases k,
{
    if k > 0 {
        lemma_sum_ind_zero(p, k - 1);
    }
}

/// A plant with a region id below `k` is counted exactly once.
proof fn lemma_sum_ind_one(p: Plant, k: int)
    requires
        p.group is Some,
        (p.group->Some_0 as int) < k,
        k <= usize::MAX as int + 1,
    ensures
        sum_ind(p, k) == 1,
    decreases k,
{
    if k - 1 == p.group->Some_0 as int {
        lemma_sum_ind_zero(p, k - 1);
    } else {
        lemma_sum_ind_one(p, k - 1);
    }
}

/// The sum over the first `k` regions of the region's count among the first
/// `t` plants of a row.
spec fn row_areas(r: Seq<Plant>, t: int, k: int) -> int
    decreases k,
{
    if k <= 0 {
        0
    } else {
        row_areas(r, t, k - 1) + row_sum(r, t, area_f((k - 1) as usize))
    }
}

proof fn lemma_row_areas_step(r: Seq<Plant>, t: int, k: int)
    requires
        1 <= t,
    ensures
        row_areas(r, t, k) == row_areas(r, t - 1, k) + sum_ind(r[t - 1], k),
    decreases k,
{
    if k > 0 {
        lemma_row_areas_step(r, t, k - 1);
        let f = area_f((k - 1) as usize);
        assert(row_sum(r, t, f) == row_sum(r, t - 1, f) + f(r[t - 1]));
    }
}

proof fn lemma_row_areas_zero(r: Seq<Plant>, k: int)
    ensures
        row_areas(r, 0, k) == 0,
    decreases k,
{
    if k > 0 {
        lemma_row_areas_zero(r, k - 1);
    }
}

/// Every plant of a row whose region ids lie below `n` is counted exactly
/// once over the first `n` regions.
proof fn lemma_row_areas_total(r: Seq<Plant>, t: int, n: int)
    requires
        0 <= t <= r.len(),
        n <= usize::MAX as int + 1,
        forall|q: int|
            0 <= q < t ==> (#[trigger] r[q]).group is Some && (r[q].group->Some_0 as int) < n,
    ensures
        row_areas(r, t, n) == t,
    decreases t,
{
    if t == 0 {
        lemma_row_areas_zero(r, n);
    } else {
        lemma_row_areas_total(r, t - 1, n);
        lemma_row_areas_step(r, t, n);
        lemma_sum_ind_one(r[t - 1], n);
    }
}

/// The sum over the first `k` regions of the region's count among the
/// plants of the first `t` rows.
spec fn grid_areas(rows: Seq<Seq<Plant>>, t: int, k: int) -> int
    decreases k,
{
    if k <= 0 {
        0
    } else {
        grid_areas(rows, t, k - 1) + grid_sum(rows, t, area_f((k - 1) as usize))
    }
}

proof fn lemma_grid_areas_step(rows: Seq<Seq<Plant>>, t: int, k: int)
    requires
        1 <= t,
    ensures
        grid_areas(rows, t, k) == grid_areas(rows, t - 1, k) + row_areas(
            rows[t - 1],
            rows[t - 1].len() as int,
            k,
        ),
    decreases k,
{
    if k > 0 {
        lemma_grid_areas_step(rows, t, k - 1);
    }
}

proof fn lemma_grid_areas_zero(rows: Seq<Seq<Plant>>, k: int)
    ensures
        grid_areas(rows, 0, k) == 0,
    decreases k,
{
    if k > 0 {
        lemma_grid_areas_zero(rows, k - 1);
    }
}

proof fn lemma_grid_areas_total(rows: Seq<Seq<Plant>>, t: int, w: int, n: int)
    requires
        0 <= t <= rows.len(),
        0 <= w,
        n <= usize::MAX as int + 1,
        forall|b: int| 0 <= b < rows.len() ==> (#[trigger] rows[b]).len() == w,
        forall|a: int, b: int|
            0 <= b < rows.len() && 0 <= a < w ==> (#[trigger] rows[b][a]).group is Some && (
            rows[b][a].group->Some_0 as int) < n,
    ensures
        grid_areas(rows, t, n) == t * w,
    decreases t,
{
    if t == 0 {
        lemma_grid_areas_zero(rows, n);
        assert(0 * w == 0) by (nonlinear_arith);
    } else {
        lemma_grid_areas_total(rows, t - 1, w, n);
        lemma_grid_areas_step(rows, t, n);
        assert forall|q: int| 0 <= q < w implies (#[trigger] rows[t - 1][q]).group is Some && (
        rows[t - 1][q].group->Some_0 as int) < n by {}
        lemma_row_areas_total(rows[t - 1], w, n);
        assert(t * w == (t - 1) * w + w) by (nonlinear_arith);
    }
}

proof fn lemma_total_area_is_grid_areas(g: Garden, k: int)
    ensures
        total_area_upto(g, k) == grid_areas(g.rows(), g.rows().len() as int, k),
    decreases k,
{
    if k > 0 {
        lemma_total_area_is_grid_areas(g, k - 1);
    }
}

/// Law: the labeling pass partitions the garden.  Every plant is assigned
/// to exactly one region, and the areas of all regions add up to the total
/// number of cells of the grid.
pub proof fn lemma_labeling_partitions(g: Garden, g0: Garden)
    requires
        g0.wf(),
        g.labeled_from(g0),
    ensures
        forall|a: int, b: int|
            g.in_bounds(a, b) ==> (#[trigger] g.at(a, b)).group is Some,
        total_area_upto(g, g.n_groups->Some_0 as int) == g.size_i * g.size_j,
{
    lemma_labeled_well(g, g0);
    let n = g.n_groups->Some_0 as int;
    let rows = g.rows();
    assert(rows.len() == g.size_j);
    assert forall|b: int| 0 <= b < rows.len() implies (#[trigger] rows[b]).len()
        == g.size_i as int by {
        assert(rows[b] == g.plants@[b]@);
    }
    assert forall|a: int, b: int|
        0 <= b < rows.len() && 0 <= a < g.size_i as int implies (#[trigger] rows[b][a]).group
        is Some && (rows[b][a].group->Some_0 as int) < n by {
        assert(rows[b][a] == g.at(a, b));
    }
    lemma_starts_below_at_most(g0, g0.size_i as int * g0.size_j as int);
    lemma_grid_areas_total(rows, rows.len() as int, g.size_i as int, n);
    lemma_total_area_is_grid_areas(g, n);
    assert((g.size_j as int) * (g.size_i as int) == g.size_i * g.size_j) by (nonlinear_arith);
}

/// Gardens with the same skeleton agree on which cells begin a region.
proof fn lemma_region_start_skeleton(ga: Garden, gb: Garden, c: (int, int))
    requires
        ga.wf(),
        gb.wf(),
        ga.same_skeleton(gb),
        ga.in_bounds(c.0, c.1),
        ga.is_region_start(c, c),
    ensures
        gb.is_region_start(c, c),
{
    lemma_skeleton_sym(ga, gb);
    lemma_connected_refl(gb, c);
    assert forall|e: (int, int)| gb.connected(c, e) implies gb.scan_idx(c)
        <= #[trigger] gb.scan_idx(e) by {
        lemma_connected_skeleton(gb, ga, c, e);
        assert(ga.scan_idx(c) <= ga.scan_idx(e));
    }
}

/// Gardens with the same skeleton count the same region starts.
proof fn lemma_starts_below_skeleton(ga: Garden, gb: Garden, t: int)
    requires
        ga.wf(),
        gb.wf(),
        ga.same_skeleton(gb),
        t <= ga.size_i * ga.size_j,
    ensures
        ga.starts_below(t) == gb.starts_below(t),
    decreases t,
{
    if t > 0 {
        lemma_starts_below_skeleton(ga, gb, t - 1);
        let c = ga.cell_at_scan(t - 1);
        lemma_cell_at_scan_in_bounds(ga, t - 1);
        assert(gb.cell_at_scan(t - 1) == c);
        if ga.is_region_start(c, c) {
            lemma_region_start_skeleton(ga, gb, c);
        }
        if gb.is_region_start(c, c) {
            lemma_skeleton_sym(ga, gb);
            lemma_region_start_skeleton(gb, ga, c);
        }
    }
}

/// Law: the labeling pass is deterministic.  Two gardens with the same
/// sizes and labels, labeled independently, agree plant for plant and on
/// the region count: nothing besides the labels influences the outcome.
pub proof fn lemma_labeling_deterministic(g0a: Garden, g0b: Garden, ga: Garden, gb: Garden)
    requires
        g0a.wf(),
        g0b.wf(),
        g0a.same_skeleton(g0b),
        ga.labeled_from(g0a),
        gb.labeled_from(g0b),
    ensures
        ga.n_groups == gb.n_groups,
        forall|a: int, b: int|
            g0a.in_bounds(a, b) ==> (#[trigger] ga.at(a, b)) == gb.at(a, b),
{
    lemma_skeleton_sym(g0a, g0b);
    let wh = g0a.size_i as int * g0a.size_j as int;
    lemma_starts_below_skeleton(g0a, g0b, wh);
    lemma_starts_below_at_most(g0a, wh);
    assert forall|a: int, b: int| g0a.in_bounds(a, b) implies (#[trigger] ga.at(a, b)) == gb.at(
        a,
        b,
    ) by {
        let c = (a, b);
        lemma_region_start_facts(g0a, c);
        lemma_region_start_facts(g0b, c);
        let da = g0a.region_start(c);
        let db = g0b.region_start(c);
        // both candidates begin c's region in both gardens, so they coincide
        assert(g0b.is_region_start(da, c)) by {
            lemma_connected_skeleton(g0a, g0b, c, da);
            assert forall|e: (int, int)| g0b.connected(c, e) implies g0b.scan_idx(da)
                <= #[trigger] g0b.scan_idx(e) by {
                lemma_connected_skeleton(g0b, g0a, c, e);
                assert(g0a.scan_idx(da) <= g0a.scan_idx(e));
            }
        }
        assert(g0b.scan_idx(da) <= g0b.scan_idx(db));
        assert(g0b.scan_idx(db) <= g0b.scan_idx(da));
        lemma_scan_idx_injective(g0b, da, db);
        lemma_starts_below_skeleton(g0a, g0b, g0a.scan_idx(da));
        assert(g0a.region_id(c) == g0b.region_id(c));
        lemma_skeleton_counts(g0a, g0b, a, b);
        assert(ga.at(a, b) == g0a.visited_plant(a, b, g0a.region_id(c) as usize));
        assert(gb.at(a, b) == g0b.visited_plant(a, b, g0b.region_id(c) as usize));
    }
}

/// Assigning one unassigned plant lowers the number of unassigned plants by
/// exactly one.
proof fn lemma_unassigned_mark(g1: Garden, g2: Garden, i: int, j: int)
    requires
        g1.wf(),
        g2.wf(),
        g1.size_i == g2.size_i,
        g1.size_j == g2.size_j,
        g1.in_bounds(i, j),
        g1.group_at(i, j) is None,
        g2.group_at(i, j) is Some,
        forall|a: int, b: int|
            g1.in_bounds(a, b) && (a != i || b != j) ==> g2.at(a, b) == g1.at(a, b),
    ensures
        g2.unassigned_total() == g1.unassigned_total() - 1,
{
    let r1 = g1.rows();
    let r2 = g2.rows();
    let row2 = r1[j].update(i, g2.at(i, j));
    assert forall|b: int| 0 <= b < r2.len() implies #[trigger] r2[b] =~= r1.update(j, row2)[b] by {
        assert(r2[b] == g2.plants@[b]@);
        assert(r1[b] == g1.plants@[b]@);
        assert(r2[b].len() == g2.size_i);
        assert forall|a: int| 0 <= a < r2[b].len() implies #[trigger] r2[b][a] == r1.update(
            j,
            row2,
        )[b][a] by {
            assert(r2[b][a] == g2.at(a, b));
            if b != j || a != i {
                assert(g2.at(a, b) == g1.at(a, b));
            }
        }
    }
    assert(r2 =~~= r1.update(j, row2));
    lemma_row_unassigned_update(r1[j], i, g2.at(i, j), r1[j].len() as int);
    lemma_grid_unassigned_update(r1, j, row2, r1.len() as int);
}

/// Border and corner counts depend only on sizes and labels, so gardens with
/// the same skeleton agree on them.
proof fn lemma_skeleton_counts(g1: Garden, g2: Garden, i: int, j: int)
    requires
        g1.same_skeleton(g2),
        g1.in_bounds(i, j),
    ensures
        g1.border_count(i, j) == g2.border_count(i, j),
        g1.corner_count(i, j) == g2.corner_count(i, j),
{
    assert(g1.at(i, j).label == g2.at(i, j).label);
    assert(g1.same_label(i, j, -1, 0) == g2.same_label(i, j, -1, 0)) by {
        if g1.in_bounds(i - 1, j) {
            assert(g1.at(i - 1, j).label == g2.at(i - 1, j).label);
        }
    }
    assert(g1.same_label(i, j, 1, 0) == g2.same_label(i, j, 1, 0)) by {
        if g1.in_bounds(i + 1, j) {
            assert(g1.at(i + 1, j).label == g2.at(i + 1, j).label);
        }
    }
    assert(g1.same_label(i, j, 0, -1) == g2.same_label(i, j, 0, -1)) by {
        if g1.in_bounds(i, j - 1) {
            assert(g1.at(i, j - 1).label == g2.at(i, j - 1).label);
        }
    }
    assert(g1.same_label(i, j, 0, 1) == g2.same_label(i, j, 0, 1)) by {
        if g1.in_bounds(i, j + 1) {
            assert(g1.at(i, j + 1).label == g2.at(i, j + 1).label);
        }
    }
}

/// An unassigned in-bounds position reaches itself.
proof fn lemma_reaches_self(g: Garden, s: (int, int))
    requires
        g.in_bounds(s.0, s.1),
        g.group_at(s.0, s.1) is None,
    ensures
        g.reaches(s, s),
{
    let p: Seq<(int, int)> = seq![s];
    assert(g.is_free_path(p));
    assert(p[0] == s && p[p.len() - 1] == s);
}

/// A free path extends by one step to an adjacent unassigned same-label
/// position.
proof fn lemma_reaches_step(g: Garden, s: (int, int), c: (int, int), d: (int, int))
    requires
        g.reaches(s, c),
        adjacent(c, d),
        g.in_bounds(d.0, d.1),
        g.group_at(d.0, d.1) is None,
        g.label_at(d.0, d.1) == g.label_at(c.0, c.1),
    ensures
        g.reaches(s, d),
{
    let p = choose|p: Seq<(int, int)>|
        g.is_free_path(p) && p[0] == s && p[p.len() - 1] == c;
    let q = p.push(d);
    assert(q[q.len() - 1] == d);
    assert(g.label_at(c.0, c.1) == g.label_at(p[0].0, p[0].1));
    assert(g.is_free_path(q)) by {
        assert forall|k: int| 0 <= k < q.len() implies {
            &&& g.in_bounds((#[trigger] q[k]).0, q[k].1)
            &&& g.group_at(q[k].0, q[k].1) is None
            &&& g.label_at(q[k].0, q[k].1) == g.label_at(q[0].0, q[0].1)
        } by {
            if k < p.len() {
                assert(q[k] == p[k]);
            } else {
                assert(q[k] == d);
            }
        }
        assert forall|k: int| 0 <= k < q.len() - 1 implies adjacent(q[k], #[trigger] q[k + 1]) by {
            if k < p.len() - 1 {
                assert(q[k] == p[k] && q[k + 1] == p[k + 1]);
            } else {
                assert(q[k] == c && q[k + 1] == d);
            }
        }
    }
}

/// Once the worklist has drained, every position a free path can reach from
/// the start has been visited: visited positions form a closed set, and a
/// path into unvisited territory would have to cross its boundary.
proof fn lemma_free_path_all_marked(
    g0: Garden,
    g: Garden,
    gid: usize,
    s: (int, int),
    p: Seq<(int, int)>,
)
    requires
        g0.wf(),
        g.size_i == g0.size_i,
        g.size_j == g0.size_j,
        marked(g0, g, gid, s),
        forall|a: int, b: int|
            g0.in_bounds(a, b) ==> (#[trigger] g.at(a, b)) == g0.at(a, b) || marked(
                g0,
                g,
                gid,
                (a, b),
            ),
        forall|a: int, b: int|
            #[trigger] marked(g0, g, gid, (a, b)) ==> {
                &&& (g0.same_label(a, b, -1, 0) ==> g.group_at(a - 1, b) is Some)
                &&& (g0.same_label(a, b, 1, 0) ==> g.group_at(a + 1, b) is Some)
                &&& (g0.same_label(a, b, 0, -1) ==> g.group_at(a, b - 1) is Some)
                &&& (g0.same_label(a, b, 0, 1) ==> g.group_at(a, b + 1) is Some)
            },
        g0.is_free_path(p),
        p[0] == s,
    ensures
        marked(g0, g, gid, p[p.len() - 1]),
    decreases p.len(),
{
    if p.len() == 1 {
        assert(p[p.len() - 1] == s);
    } else {
        let q = p.take(p.len() - 1);
        assert(g0.is_free_path(q)) by {
            assert forall|k: int| 0 <= k < q.len() implies {
                &&& g0.in_bounds((#[trigger] q[k]).0, q[k].1)
                &&& g0.group_at(q[k].0, q[k].1) is None
                &&& g0.label_at(q[k].0, q[k].1) == g0.label_at(q[0].0, q[0].1)
            } by {
                assert(q[k] == p[k]);
                assert(q[0] == p[0]);
            }
            assert forall|k: int| 0 <= k < q.len() - 1 implies adjacent(
                q[k],
                #[trigger] q[k + 1],
            ) by {
                assert(q[k] == p[k] && q[k + 1] == p[k + 1]);
            }
        }
        lemma_free_path_all_marked(g0, g, gid, s, q);
        let k = p.len() - 2;
        let c = p[k];
        let d = p[k + 1];
        assert(marked(g0, g, gid, c));
        assert(adjacent(p[k], p[k + 1]));
        assert(d == p[p.len() - 1]);
        // the step from c to d keeps the label, so d is assigned by closure
        assert(g0.label_at(d.0, d.1) == g0.label_at(c.0, c.1));
        if c.0 == d.0 + 1 {
            assert(g0.same_label(c.0, c.1, -1, 0));
        } else if c.0 + 1 == d.0 {
            assert(g0.same_label(c.0, c.1, 1, 0));
        } else if c.1 == d.1 + 1 {
            assert(g0.same_label(c.0, c.1, 0, -1));
        } else {
            assert(g0.same_label(c.0, c.1, 0, 1));
        }
        assert(g.group_at(d.0, d.1) is Some);
        // and an assigned plant that was unassigned in g0 must be marked
        assert(g0.group_at(d.0, d.1) is None);
        if g.at(d.0, d.1) == g0.at(d.0, d.1) {
            assert(false);
        }
    }
}

} // verus!
