//! The simulation engine for Conway's Game of Life on a finite
//! rectangular grid.
//!
//! A grid of `width * height` cells is kept densely, one boolean per
//! cell, indexed by the row-major linear index `i = y * width + x`.
//! Neighbor lookups are clamped numerically to `[0, width*height)`;
//! off-grid neighbors are simply absent. No wrap-around correction is
//! made at row boundaries: the index one less than a row's first cell
//! belongs to the previous row yet still counts as a horizontal
//! neighbor, a documented quirk of this engine.

use vstd::prelude::*;
use vstd::set_lib::lemma_len_subset;
use crate::grid::Square;

verus! {

/// The survival/birth/death rule as a table on the current state and
/// the count of alive neighbors: birth on exactly 3, survival on 2 or
/// 3, death otherwise (0, 1, and 4 through 8 alive neighbors).
pub open spec fn live_rule(alive: bool, count: nat) -> bool {
    if count == 3 {
        true
    } else if count == 2 {
        alive
    } else {
        false
    }
}

/// Whether linear index `j` is one of the 8 Moore-neighborhood
/// candidates of linear index `i` on a grid of width `w`. The offsets
/// are applied to the linear index alone; a candidate in a different
/// row still counts (the row-boundary quirk), but a cell is never its
/// own neighbor.
pub open spec fn is_adjacent(w: int, i: int, j: int) -> bool {
    let d = j - i;
    j != i && (d == -1 || d == 1 || d == -w || d == w || d == -w - 1 || d == -w + 1 || d == w - 1
        || d == w + 1)
}

/// The number of `true` entries of a cell sequence: how many cells are
/// alive.
pub open spec fn count_live(s: Seq<bool>) -> nat
    decreases s.len(),
{
    if s.len() == 0 {
        0
    } else {
        count_live(s.drop_last()) + if s.last() {
            1nat
        } else {
            0nat
        }
    }
}

/// Why a grid could not be constructed.
#[derive(Debug, Clone, Copy, PartialEq, Eq, Structural)]
pub enum GameError {
    /// `width` or `height` was zero.
    ZeroDimension,
}

/// The simulation engine: current live/dead state of every cell,
/// the grid's fixed dimensions, and the live-cell count requested
/// for (re)seeding.
#[derive(Clone)]
pub struct Game {
    cells: Vec<bool>,
    width: u32,
    height: u32,
    initial_cells: u32,
}

impl Game {
    /// The grid's width, as a mathematical integer.
    pub closed spec fn spec_width(&self) -> int {
        self.width as int
    }

    /// The grid's height, as a mathematical integer.
    pub closed spec fn spec_height(&self) -> int {
        self.height as int
    }

    /// The number of cells in the grid.
    pub open spec fn spec_n(&self) -> int {
        self.spec_width() * self.spec_height()
    }

    /// The requested live-cell count used by seeding.
    pub closed spec fn spec_initial_cells(&self) -> int {
        self.initial_cells as int
    }

    /// The grid's state as a sequence of booleans, one per cell in
    /// row-major order; `true` means alive.
    pub closed spec fn cell_seq(&self) -> Seq<bool> {
        self.cells@
    }

    /// Whether the cell at linear index `i` is alive.
    pub open spec fn spec_alive(&self, i: int) -> bool {
        self.cell_seq()[i]
    }

    /// Well-formedness: positive dimensions, a cell count that fits the
    /// `u32` index space, and exactly one boolean of state per cell.
    pub open spec fn wf(&self) -> bool {
        &&& 1 <= self.spec_width()
        &&& 1 <= self.spec_height()
        &&& self.spec_n() <= u32::MAX
        &&& self.cell_seq().len() == self.spec_n()
    }

    /// The set of alive neighbors of the cell at linear index `i`:
    /// distinct in-range indices adjacent to `i` whose cell is alive.
    pub open spec fn neighbor_set(&self, i: int) -> Set<int> {
        Set::new(
            |j: int|
                0 <= j < self.spec_n() && is_adjacent(self.spec_width(), i, j) && self.spec_alive(
                    j,
                ),
        )
    }

    /// How many alive neighbors the cell at linear index `i` has.
    pub open spec fn nbr_count(&self, i: int) -> nat {
        self.neighbor_set(i).len()
    }

    /// The state the cell at linear index `i` takes in the next
    /// generation.
    pub open spec fn next_alive(&self, i: int) -> bool {
        live_rule(self.spec_alive(i), self.nbr_count(i))
    }

    /// The renderable unit of the cell at linear index `i`: its column
    /// and row under row-major layout, paired with the grid's totals.
    pub open spec fn spec_square(&self, i: int) -> Square {
        Square {
            col: ((i % self.spec_width()) as u32, self.spec_width() as u32),
            row: ((i / self.spec_width()) as u32, self.spec_height() as u32),
        }
    }

    /// Whether `sq` is the renderable unit of some alive cell with
    /// linear index below `hi`.
    pub open spec fn is_live_square_below(&self, sq: Square, hi: int) -> bool {
        exists|ci: int| 0 <= ci < hi && self.spec_alive(ci) && sq == self.spec_square(ci)
    }

    /// The set of renderable units of all currently alive cells.
    pub open spec fn live_squares(&self) -> Set<Square> {
        Set::new(|sq: Square| self.is_live_square_below(sq, self.spec_n()))
    }
}

/// Updating one entry of a cell sequence changes the live count by the
/// difference of the old and new entry's contributions.
proof fn lemma_count_live_update(s: Seq<bool>, i: int, b: bool)
    requires
        0 <= i < s.len(),
    ensures
        count_live(s.update(i, b)) + (if s[i] {
            1nat
        } else {
            0nat
        }) == count_live(s) + (if b {
            1nat
        } else {
            0nat
        }),
    decreases s.len(),
{
    if i == s.len() - 1 {
        assert(s.update(i, b).drop_last() =~= s.drop_last());
    } else {
        assert(s.update(i, b).drop_last() =~= s.drop_last().update(i, b));
        lemma_count_live_update(s.drop_last(), i, b);
    }
}

/// A sequence with no `true` entry has live count zero.
proof fn lemma_count_live_zero(s: Seq<bool>)
    requires
        forall|k: int| 0 <= k < s.len() ==> !s[k],
    ensures
        count_live(s) == 0,
    decreases s.len(),
{
    if s.len() > 0 {
        lemma_count_live_zero(s.drop_last());
    }
}

/// Pushing onto a sequence keeps every element it already held, and
/// adds the pushed one.
proof fn lemma_push_preserves_contains<A>(s: Seq<A>, v: A)
    ensures
        forall|x: A| s.contains(x) ==> #[trigger] s.push(v).contains(x),
        s.push(v).contains(v),
{
    assert forall|x: A| s.contains(x) implies s.push(v).contains(x) by {
        let t = choose|t: int| 0 <= t < s.len() && s[t] == x;
        assert(s.push(v)[t] == x);
    }
    assert(s.push(v)[s.len() as int] == v);
}

/// Two nonnegative linear indices with the same column and the same
/// row are the same index.
proof fn lemma_coords_injective(w: int, i: int, j: int)
    requires
        1 <= w,
        0 <= i,
        0 <= j,
        i % w == j % w,
        i / w == j / w,
    ensures
        i == j,
{
    vstd::arithmetic::div_mod::lemma_fundamental_div_mod(i, w);
    vstd::arithmetic::div_mod::lemma_fundamental_div_mod(j, w);
}

/// Relies on `rand::thread_rng` and `rand::Rng::gen_range`: for a
/// nonempty range, `gen_range(0, n)` returns a value in `[0, n)`
/// (inclusive of 0, exclusive of `n`) and panics only when the range
/// is empty, which `1 <= n` rules out.
#[verifier::external_body]
fn random_below(n: u32) -> (r: u32)
    requires
        1 <= n,
    ensures
        r < n,
{
    rand::Rng::gen_range(&mut rand::thread_rng(), 0, n)
}

/// Whether the vector holds the given value.
fn contains_u32(v: &Vec<u32>, x: u32) -> (b: bool)
    ensures
        b == v@.contains(x),
{
    let mut k: usize = 0;
    while k < v.len()
        invariant
            k <= v@.len(),
            forall|t: int| 0 <= t < k ==> v@[t] != x,
        decreases v@.len() - k,
    {
        if v[k] == x {
            return true;
        }
        k += 1;
    }
    false
}

impl Game {
    /// The grid's width.
    pub fn width(&self) -> (w: u32)
        ensures
            w == self.spec_width(),
    {
        self.width
    }

    /// The grid's height.
    pub fn height(&self) -> (h: u32)
        ensures
            h == self.spec_height(),
    {
        self.height
    }

    /// The number of cells in the grid.
    fn cells_cnt(&self) -> (n: u32)
        requires
            self.wf(),
        ensures
            n == self.spec_n(),
    {
        self.width * self.height
    }

    /// Whether the cell at linear index `i` is currently alive.
    pub fn alive(&self, i: u32) -> (b: bool)
        requires
            self.wf(),
            i < self.spec_n(),
        ensures
            b == self.spec_alive(i as int),
    {
        self.cells[i as usize]
    }

    /// The column of the cell at linear index `i` under row-major
    /// layout.
    fn cell_x(&self, i: u32) -> (x: u32)
        requires
            self.wf(),
        ensures
            x == i as int % self.spec_width(),
    {
        i % self.width
    }

    /// The row of the cell at linear index `i` under row-major layout.
    fn cell_y(&self, i: u32) -> (y: u32)
        requires
            self.wf(),
        ensures
            y == i as int / self.spec_width(),
    {
        i / self.width
    }

    /// Appends the candidate neighbor `cand` of cell `i` to `r` when it
    /// is in range, distinct from `i`, currently alive, and not already
    /// collected.
    fn consider_neighbor(&self, i: u32, cand: i64, r: &mut Vec<u32>)
        requires
            self.wf(),
            i < self.spec_n(),
            cand != i ==> is_adjacent(self.spec_width(), i as int, cand as int),
            forall|t: int|
                0 <= t < old(r)@.len() ==> self.neighbor_set(i as int).contains(
                    #[trigger] old(r)@[t] as int,
                ),
            forall|t1: int, t2: int|
                0 <= t1 < t2 < old(r)@.len() ==> old(r)@[t1] != old(r)@[t2],
        ensures
            forall|t: int|
                0 <= t < final(r)@.len() ==> self.neighbor_set(i as int).contains(
                    #[trigger] final(r)@[t] as int,
                ),
            forall|t1: int, t2: int|
                0 <= t1 < t2 < final(r)@.len() ==> final(r)@[t1] != final(r)@[t2],
            forall|x: u32| old(r)@.contains(x) ==> final(r)@.contains(x),
            self.neighbor_set(i as int).contains(cand as int) ==> final(r)@.contains(cand as u32),
    {
        let n: i64 = self.cells_cnt() as i64;
        if 0 <= cand && cand < n {
            let c: u32 = cand as u32;
            if c != i && self.cells[cand as usize] && !contains_u32(r, c) {
                let ghost prev = r@;
                r.push(c);
                proof {
                    assert(r@ == prev.push(c));
                    assert(r@[prev.len() as int] == c);
                    assert forall|x: u32| prev.contains(x) implies r@.contains(x) by {
                        let t = choose|t: int| 0 <= t < prev.len() && prev[t] == x;
                        assert(r@[t] == x);
                    }
                }
            }
        }
    }

    /// Neighbor enumeration: the currently alive cells among the 8
    /// Moore-neighborhood candidates of the cell at linear index `i`,
    /// as distinct in-range linear indices in no particular order. Its
    /// length is exactly the cell's alive-neighbor count.
    pub fn adjacent_cells(&self, i: u32) -> (r: Vec<u32>)
        requires
            self.wf(),
            i < self.spec_n(),
        ensures
            forall|k: int|
                0 <= k < r@.len() ==> self.neighbor_set(i as int).contains(#[trigger] r@[k] as int),
            forall|j: int| self.neighbor_set(i as int).contains(j) ==> r@.contains(j as u32),
            forall|k1: int, k2: int| 0 <= k1 < k2 < r@.len() ==> r@[k1] != r@[k2],
            r@.len() == self.nbr_count(i as int),
    {
        let w: i64 = self.width as i64;
        let ii: i64 = i as i64;
        let mut r: Vec<u32> = Vec::new();
        self.consider_neighbor(i, ii - 1, &mut r);
        self.consider_neighbor(i, ii + 1, &mut r);
        self.consider_neighbor(i, ii - w, &mut r);
        self.consider_neighbor(i, ii + w, &mut r);
        self.consider_neighbor(i, ii - w - 1, &mut r);
        self.consider_neighbor(i, ii - w + 1, &mut r);
        self.consider_neighbor(i, ii + w - 1, &mut r);
        self.consider_neighbor(i, ii + w + 1, &mut r);
        proof {
            let ns = self.neighbor_set(i as int);
            let iw = self.spec_width();
            assert forall|j: int| ns.contains(j) implies r@.contains(j as u32) by {
                assert(is_adjacent(iw, i as int, j));
                assert(j == i - 1 || j == i + 1 || j == i - iw || j == i + iw || j == i - iw - 1
                    || j == i - iw + 1 || j == i + iw - 1 || j == i + iw + 1);
            }
            let m = r@.map_values(|x: u32| x as int);
            assert(m.len() == r@.len());
            assert forall|t1: int, t2: int|
                0 <= t1 < m.len() && 0 <= t2 < m.len() && t1 != t2 implies m[t1] != m[t2] by {
                assert(m[t1] == r@[t1] as int && m[t2] == r@[t2] as int);
            }
            assert(m.no_duplicates());
            assert(m.to_set() =~= ns) by {
                assert forall|j: int| ns.contains(j) implies m.to_set().contains(j) by {
                    assert(r@.contains(j as u32));
                    let t = choose|t: int| 0 <= t < r@.len() && r@[t] == j as u32;
                    assert(m[t] == j);
                }
                assert forall|j: int| m.to_set().contains(j) implies ns.contains(j) by {
                    let t = choose|t: int| 0 <= t < m.len() && m[t] == j;
                    assert(ns.contains(r@[t] as int));
                }
            }
            m.unique_seq_to_set();
        }
        r
    }

    /// Rule evaluation for one cell: from the count of its alive
    /// neighbors and its current state, the state it takes in the next
    /// generation — dead on 0 or 1 neighbors, unchanged on 2, alive on
    /// 3, dead on 4 through 8, regardless of the current state where
    /// the table says so.
    pub fn forecast_cell(&self, i: u32) -> (next: bool)
        requires
            self.wf(),
            i < self.spec_n(),
        ensures
            next == self.next_alive(i as int),
    {
        let neighbours = self.adjacent_cells(i);
        let cell_alive = self.alive(i);

        match neighbours.len() {
            0..=1 => false,
            2 => cell_alive,
            3 => true,
            _ => false,
        }
    }

    /// Generation advance: computes every cell's next state from a
    /// frozen snapshot of the current generation, then replaces the
    /// whole grid at once. Dimensions and the seeding count are kept.
    pub fn move_cells(&mut self)
        requires
            old(self).wf(),
        ensures
            final(self).wf(),
            final(self).spec_width() == old(self).spec_width(),
            final(self).spec_height() == old(self).spec_height(),
            final(self).spec_initial_cells() == old(self).spec_initial_cells(),
            forall|i: int|
                0 <= i < final(self).spec_n() ==> final(self).spec_alive(i) == old(
                    self,
                ).next_alive(i),
    {
        let n: usize = self.cells.len();
        let mut next_grid: Vec<bool> = Vec::new();
        let mut i: usize = 0;
        while i < n
            invariant
                i <= n,
                self == old(self),
                self.wf(),
                n == self.spec_n(),
                next_grid@.len() == i,
                forall|k: int| 0 <= k < i ==> next_grid@[k] == self.next_alive(k),
            decreases n - i,
        {
            let b = self.forecast_cell(i as u32);
            next_grid.push(b);
            i += 1;
        }
        self.set_cells_dense(next_grid);
    }

    /// Replaces the whole grid with the given cell states; used by the
    /// generation advance to commit a completed snapshot atomically.
    fn set_cells_dense(&mut self, cells: Vec<bool>)
        requires
            old(self).wf(),
            cells@.len() == old(self).spec_n(),
        ensures
            final(self).wf(),
            final(self).spec_width() == old(self).spec_width(),
            final(self).spec_height() == old(self).spec_height(),
            final(self).spec_initial_cells() == old(self).spec_initial_cells(),
            final(self).cell_seq() == cells@,
    {
        self.cells = cells;
    }

    /// Replaces the live-cell set with exactly the given linear
    /// indices; entries outside `[0, width*height)` are ignored. All
    /// other cells become dead.
    pub fn set_cells(&mut self, cells: &Vec<u32>)
        requires
            old(self).wf(),
        ensures
            final(self).wf(),
            final(self).spec_width() == old(self).spec_width(),
            final(self).spec_height() == old(self).spec_height(),
            final(self).spec_initial_cells() == old(self).spec_initial_cells(),
            forall|j: int|
                0 <= j < final(self).spec_n() ==> (final(self).spec_alive(j) <==> cells@.contains(
                    j as u32,
                )),
    {
        let n: usize = self.cells.len();
        let mut grid: Vec<bool> = Vec::new();
        let mut k: usize = 0;
        while k < n
            invariant
                k <= n,
                grid@.len() == k,
                forall|t: int| 0 <= t < k ==> !grid@[t],
            decreases n - k,
        {
            grid.push(false);
            k += 1;
        }
        let mut m: usize = 0;
        while m < cells.len()
            invariant
                m <= cells@.len(),
                self == old(self),
                self.wf(),
                n == self.spec_n(),
                grid@.len() == n,
                forall|j: int|
                    0 <= j < n ==> (grid@[j] <==> exists|t: int|
                        0 <= t < m && cells@[t] == j as u32),
            decreases cells@.len() - m,
        {
            let c: u32 = cells[m];
            if (c as usize) < n {
                grid[c as usize] = true;
            }
            m += 1;
        }
        proof {
            assert forall|j: int| 0 <= j < n implies (grid@[j] <==> cells@.contains(j as u32)) by {
                if grid@[j] {
                    let t = choose|t: int| 0 <= t < cells@.len() && cells@[t] == j as u32;
                    assert(cells@.contains(j as u32));
                }
            }
        }
        self.set_cells_dense(grid);
    }

    /// Reseeding: discards all prior state and chooses `initial_cells`
    /// cells — clamped to the cell count — uniformly at random without
    /// replacement, by a partial shuffle of the linear indices. Exactly
    /// the chosen cells are alive afterwards; all others are dead.
    pub fn generate_cells(&mut self)
        requires
            old(self).wf(),
        ensures
            final(self).wf(),
            final(self).spec_width() == old(self).spec_width(),
            final(self).spec_height() == old(self).spec_height(),
            final(self).spec_initial_cells() == old(self).spec_initial_cells(),
            count_live(final(self).cell_seq()) == if old(self).spec_initial_cells() <= old(
                self,
            ).spec_n() {
                old(self).spec_initial_cells()
            } else {
                old(self).spec_n()
            },
    {
        let n: usize = self.cells.len();
        let target: usize = if (self.initial_cells as usize) < n {
            self.initial_cells as usize
        } else {
            n
        };
        // every cell starts dead
        let mut grid: Vec<bool> = Vec::new();
        let mut k: usize = 0;
        while k < n
            invariant
                k <= n,
                grid@.len() == k,
                forall|t: int| 0 <= t < k ==> !grid@[t],
            decreases n - k,
        {
            grid.push(false);
            k += 1;
        }
        proof {
            lemma_count_live_zero(grid@);
        }
        // the identity arrangement of all linear indices
        let mut perm: Vec<u32> = Vec::new();
        let mut k: usize = 0;
        while k < n
            invariant
                k <= n,
                n <= u32::MAX,
                perm@.len() == k,
                forall|a: int| 0 <= a < k ==> perm@[a] == a,
            decreases n - k,
        {
            perm.push(k as u32);
            k += 1;
        }
        // draw the next index from the not-yet-chosen suffix, move it
        // to the chosen prefix, and wake its cell
        let mut t: usize = 0;
        while t < target
            invariant
                t <= target <= n,
                n <= u32::MAX,
                perm@.len() == n,
                grid@.len() == n,
                forall|a: int| 0 <= a < n ==> perm@[a] < n,
                forall|a: int, b: int| 0 <= a < b < n ==> perm@[a] != perm@[b],
                count_live(grid@) == t,
                forall|j: int|
                    0 <= j < n ==> (grid@[j] <==> exists|a: int|
                        0 <= a < t && perm@[a] == j as u32),
            decreases target - t,
        {
            let ghost perm_entry = perm@;
            let ghost grid_entry = grid@;
            let r: u32 = random_below((n - t) as u32);
            let j: usize = t + (r as usize);
            let pt: u32 = perm[t];
            let pj: u32 = perm[j];
            perm[t] = pj;
            perm[j] = pt;
            proof {
                assert(forall|a: int|
                    0 <= a < n ==> perm@[a] == (if a == t {
                        perm_entry[j as int]
                    } else if a == j {
                        perm_entry[t as int]
                    } else {
                        perm_entry[a]
                    }));
            }
            let idx: usize = pj as usize;
            proof {
                // the drawn cell is still dead: were it alive, its index
                // would already stand in the chosen prefix, yet it stands
                // at position j of the unchosen suffix and the arrangement
                // has no repeats
                if grid_entry[idx as int] {
                    let a = choose|a: int| 0 <= a < t && perm_entry[a] == idx as u32;
                    assert(perm_entry[a] == perm_entry[j as int]);
                    assert(false);
                }
            }
            grid[idx] = true;
            proof {
                lemma_count_live_update(grid_entry, idx as int, true);
                assert forall|jj: int|
                    0 <= jj < n implies (grid@[jj] <==> exists|a: int|
                        0 <= a < t + 1 && perm@[a] == jj as u32) by {
                    if grid@[jj] {
                        if jj == idx {
                            assert(perm@[t as int] == jj as u32);
                        } else {
                            let a = choose|a: int| 0 <= a < t && perm_entry[a] == jj as u32;
                            assert(perm@[a] == jj as u32);
                        }
                    }
                    if exists|a: int| 0 <= a < t + 1 && perm@[a] == jj as u32 {
                        let a = choose|a: int| 0 <= a < t + 1 && perm@[a] == jj as u32;
                        if a == t {
                            assert(jj == idx);
                        } else {
                            assert(perm_entry[a] == jj as u32);
                            assert(grid_entry[jj]);
                        }
                        assert(grid@[jj]);
                    }
                }
            }
            t += 1;
        }
        self.set_cells_dense(grid);
    }

    /// Construction: refuses a zero width or height, then produces a
    /// grid of `width * height` cells seeded with `initial_cells`
    /// randomly chosen live cells (clamped to the cell count).
    pub fn new(width: u32, height: u32, initial_cells: u32) -> (result: Result<Game, GameError>)
        requires
            width * height <= u32::MAX,
        ensures
            width == 0 || height == 0 ==> result == Err::<Game, GameError>(
                GameError::ZeroDimension,
            ),
            width != 0 && height != 0 ==> (result matches Ok(g) && g.wf() && g.spec_width()
                == width && g.spec_height() == height && g.spec_initial_cells() == initial_cells
                && count_live(g.cell_seq()) == if initial_cells <= width * height {
                initial_cells as int
            } else {
                width * height
            }),
    {
        if width == 0 || height == 0 {
            return Err(GameError::ZeroDimension);
        }
        let n: u32 = width * height;
        let mut cells: Vec<bool> = Vec::new();
        let mut k: u32 = 0;
        while k < n
            invariant
                k <= n,
                cells@.len() == k,
            decreases n - k,
        {
            cells.push(false);
            k += 1;
        }
        let mut game = Game { cells, width, height, initial_cells };
        game.generate_cells();
        Ok(game)
    }

    /// The row of the cell at linear index `i` lies below the grid's
    /// height, so its renderable unit carries in-range coordinates.
    proof fn lemma_row_in_range(&self, i: int)
        requires
            self.wf(),
            0 <= i < self.spec_n(),
        ensures
            0 <= i / self.spec_width() < self.spec_height(),
            0 <= i % self.spec_width() < self.spec_width(),
    {
        vstd::arithmetic::div_mod::lemma_multiply_divide_lt(i, self.spec_width(), self.spec_height());
        vstd::arithmetic::div_mod::lemma_mod_bound(i, self.spec_width());
    }

    /// Live-cell enumeration: one renderable unit per currently alive
    /// cell — as many units as there are live cells, no unit repeated,
    /// and exactly the units of the live cells. Read-only; the order of
    /// the units is unspecified and callers must not depend on it.
    pub fn squares(&self) -> (r: Vec<Square>)
        requires
            self.wf(),
        ensures
            r@.len() == count_live(self.cell_seq()),
            forall|k1: int, k2: int| 0 <= k1 < k2 < r@.len() ==> r@[k1] != r@[k2],
            forall|ci: int|
                0 <= ci < self.spec_n() && self.spec_alive(ci) ==> r@.contains(self.spec_square(ci)),
            r@.to_set() == self.live_squares(),
    {
        let n: usize = self.cells.len();
        let mut r: Vec<Square> = Vec::new();
        let mut i: usize = 0;
        while i < n
            invariant
                i <= n,
                self.wf(),
                n == self.spec_n(),
                r@.len() == count_live(self.cell_seq().take(i as int)),
                forall|k: int|
                    0 <= k < r@.len() ==> self.is_live_square_below(#[trigger] r@[k], i as int),
                forall|ci: int|
                    0 <= ci < i && self.spec_alive(ci) ==> r@.contains(self.spec_square(ci)),
                forall|k1: int, k2: int| 0 <= k1 < k2 < r@.len() ==> r@[k1] != r@[k2],
            decreases n - i,
        {
            proof {
                lemma_count_live_take_step(self.cell_seq(), i as int);
            }
            if self.cells[i] {
                let x = self.cell_x(i as u32);
                let y = self.cell_y(i as u32);
                let sq = Square::new(x, self.width, y, self.height);
                proof {
                    self.lemma_row_in_range(i as int);
                    assert(sq == self.spec_square(i as int));
                    assert forall|k: int| 0 <= k < r@.len() implies r@[k] != sq by {
                        let ci = choose|ci: int|
                            0 <= ci < i && self.spec_alive(ci) && r@[k] == self.spec_square(ci);
                        if r@[k] == sq {
                            self.lemma_row_in_range(ci);
                            lemma_coords_injective(self.spec_width(), ci, i as int);
                        }
                    }
                    lemma_push_preserves_contains(r@, sq);
                }
                let ghost prev = r@;
                r.push(sq);
                proof {
                    assert(r@[prev.len() as int] == self.spec_square(i as int));
                    assert(forall|k: int| 0 <= k < prev.len() ==> r@[k] == prev[k]);
                    assert forall|k: int|
                        0 <= k < r@.len() implies self.is_live_square_below(
                        #[trigger] r@[k],
                        i + 1,
                    ) by {
                        if k < prev.len() {
                            let ci = choose|ci: int|
                                0 <= ci < i && self.spec_alive(ci) && prev[k]
                                    == self.spec_square(ci);
                            assert(0 <= ci < i + 1 && self.spec_alive(ci) && r@[k]
                                == self.spec_square(ci));
                        } else {
                            assert(0 <= i < i + 1 && self.spec_alive(i as int) && r@[k]
                                == self.spec_square(i as int));
                        }
                    }
                }
            }
            i += 1;
        }
        proof {
            assert(self.cell_seq().take(n as int) =~= self.cell_seq());
            assert(r@.to_set() =~= self.live_squares()) by {
                assert forall|sq: Square| r@.to_set().contains(sq) implies self.live_squares()
                    .contains(sq) by {
                    let k = choose|k: int| 0 <= k < r@.len() && r@[k] == sq;
                    assert(self.is_live_square_below(r@[k], n as int));
                }
                assert forall|sq: Square| self.live_squares().contains(sq) implies r@.to_set()
                    .contains(sq) by {
                    let ci = choose|ci: int|
                        0 <= ci < self.spec_n() && self.spec_alive(ci) && sq == self.spec_square(
                            ci,
                        );
                    assert(r@.contains(sq));
                }
            }
        }
        r
    }

    /// The live-cell set as linear indices in strictly increasing
    /// order: distinct, in range, and exactly the alive cells.
    pub fn cells(&self) -> (r: Vec<u32>)
        requires
            self.wf(),
        ensures
            r@.len() == count_live(self.cell_seq()),
            forall|k1: int, k2: int| 0 <= k1 < k2 < r@.len() ==> r@[k1] < r@[k2],
            forall|k: int|
                0 <= k < r@.len() ==> r@[k] < self.spec_n() && self.spec_alive(#[trigger] r@[k] as int),
            forall|j: int| 0 <= j < self.spec_n() && self.spec_alive(j) ==> r@.contains(j as u32),
    {
        let n: usize = self.cells.len();
        let mut r: Vec<u32> = Vec::new();
        let mut i: usize = 0;
        while i < n
            invariant
                i <= n,
                self.wf(),
                n == self.spec_n(),
                r@.len() == count_live(self.cell_seq().take(i as int)),
                forall|k: int|
                    0 <= k < r@.len() ==> r@[k] < i && self.spec_alive(#[trigger] r@[k] as int),
                forall|k1: int, k2: int| 0 <= k1 < k2 < r@.len() ==> r@[k1] < r@[k2],
                forall|j: int| 0 <= j < i && self.spec_alive(j) ==> r@.contains(j as u32),
            decreases n - i,
        {
            proof {
                lemma_count_live_take_step(self.cell_seq(), i as int);
            }
            if self.cells[i] {
                proof {
                    lemma_push_preserves_contains(r@, i as u32);
                }
                r.push(i as u32);
            }
            i += 1;
        }
        proof {
            assert(self.cell_seq().take(n as int) =~= self.cell_seq());
        }
        r
    }
}

/// Law: at every generation the grid holds exactly `width * height`
/// cells, and each cell is in exactly one of the two states — the state
/// is one boolean per cell, no more and no less.
pub proof fn lemma_cell_count(g: Game)
    requires
        g.wf(),
    ensures
        g.cell_seq().len() == g.spec_width() * g.spec_height(),
{
}

/// Law: a cell's alive neighbors form a finite set of distinct in-range
/// indices that never includes the cell itself, so the neighbor count
/// lies in `[0, 8]` with no double counting and no self-counting.
pub proof fn lemma_neighbor_count_bounds(g: Game, i: int)
    requires
        g.wf(),
    ensures
        g.neighbor_set(i).finite(),
        g.nbr_count(i) <= 8,
        !g.neighbor_set(i).contains(i),
        forall|j: int| g.neighbor_set(i).contains(j) ==> 0 <= j < g.spec_n() && j != i,
{
    broadcast use vstd::set::group_set_axioms;

    let w = g.spec_width();
    let cand: Set<int> = set![
        i - 1,
        i + 1,
        i - w,
        i + w,
        i - w - 1,
        i - w + 1,
        i + w - 1,
        i + w + 1,
    ];
    assert(g.neighbor_set(i).subset_of(cand));
    assert(cand.finite() && cand.len() <= 8);
    lemma_len_subset(g.neighbor_set(i), cand);
}

/// Law: rule table fidelity — a cell with exactly 3 alive neighbors is
/// alive next generation regardless of its current state; with 2 it
/// keeps its current state; with 0, 1, or 4 and more it is dead next
/// generation regardless of its current state.
pub proof fn lemma_rule_table(g: Game, i: int)
    requires
        g.wf(),
    ensures
        g.nbr_count(i) == 3 ==> g.next_alive(i),
        g.nbr_count(i) == 2 ==> g.next_alive(i) == g.spec_alive(i),
        g.nbr_count(i) <= 1 ==> !g.next_alive(i),
        4 <= g.nbr_count(i) ==> !g.next_alive(i),
{
}

/// Law: reading the live-cell enumeration is idempotent — any two
/// enumerations of the same state carry the same set of renderable
/// units, whatever order each lists them in.
pub proof fn lemma_enumeration_idempotent(g: Game, r1: Seq<Square>, r2: Seq<Square>)
    requires
        r1.to_set() == g.live_squares(),
        r2.to_set() == g.live_squares(),
    ensures
        r1.to_set() == r2.to_set(),
{
}

/// Law: the step is deterministic — two grids of the same dimensions
/// with the same live-cell set take the same next state at every cell.
pub proof fn lemma_step_deterministic(a: Game, b: Game)
    requires
        a.wf(),
        b.wf(),
        a.spec_width() == b.spec_width(),
        a.spec_height() == b.spec_height(),
        forall|j: int| 0 <= j < a.spec_n() ==> a.spec_alive(j) == b.spec_alive(j),
    ensures
        forall|i: int| 0 <= i < a.spec_n() ==> a.next_alive(i) == b.next_alive(i),
{
    assert forall|i: int| 0 <= i < a.spec_n() implies a.next_alive(i) == b.next_alive(i) by {
        assert(a.neighbor_set(i) =~= b.neighbor_set(i));
    }
}

/// Law: a fully dead grid remains fully dead — with every cell dead,
/// every neighbor set is empty and the rule keeps every cell dead, so
/// by induction the grid is dead after any number of steps.
pub proof fn lemma_dead_grid_stays_dead(g: Game)
    requires
        g.wf(),
        forall|j: int| 0 <= j < g.spec_n() ==> !g.spec_alive(j),
    ensures
        forall|i: int| 0 <= i < g.spec_n() ==> !g.next_alive(i),
{
    assert forall|i: int| 0 <= i < g.spec_n() implies !g.next_alive(i) by {
        assert(g.neighbor_set(i) =~= Set::<int>::empty());
    }
}

/// Extending a prefix by one entry adds that entry's contribution to
/// the live count.
proof fn lemma_count_live_take_step(s: Seq<bool>, i: int)
    requires
        0 <= i < s.len(),
    ensures
        count_live(s.take(i + 1)) == count_live(s.take(i)) + (if s[i] {
            1nat
        } else {
            0nat
        }),
{
    assert(s.take(i + 1).drop_last() =~= s.take(i));
    assert(s.take(i + 1).last() == s[i]);
}

} // verus!
