//! The board engine: the two-layer grid, mine placement, flood-fill
//! reveal, flagging and win detection.

use vstd::prelude::*;

verus! {

/// One cell of either grid layer. The truth layer uses `Uninitialized`,
/// `Booked`, `Empty`, `Number`, `Mine` and `DeactivatedMine`; the mask
/// layer uses `Closed`, `Open`, `Question` and `Mark`.
#[derive(Clone, Copy, Debug, PartialEq, Eq, Structural)]
pub enum Cell {
    Uninitialized,
    // truth-layer cells
    Empty,
    Booked,
    Number(u8),
    Mine,
    DeactivatedMine,
    // mask-layer cells
    Closed,
    Open,
    Question,
    Mark,
}

/// The configuration was rejected: the grid cannot hold `mines_count`
/// mines outside a safe zone of the requested radius.
#[derive(Clone, Copy, Debug, PartialEq, Eq, Structural)]
pub struct ConfigError;

pub open spec fn is_truth_cell(c: Cell) -> bool {
    c is Uninitialized || c is Booked || c is Empty || c is Number || c is Mine
        || c is DeactivatedMine
}

pub open spec fn is_mask_cell(c: Cell) -> bool {
    c is Closed || c is Open || c is Question || c is Mark
}

/// A cell that carries a mine, armed or disarmed.
pub open spec fn is_mine_cell(c: Cell) -> bool {
    c is Mine || c is DeactivatedMine
}

/// A truth cell as it stands once mine placement is complete.
pub open spec fn is_placed_cell(c: Cell) -> bool {
    c is Empty || c is Number || c is Mine || c is DeactivatedMine
}

/// A truth cell the flood fill expands from.
pub open spec fn is_fill_cell(c: Cell) -> bool {
    c is Empty || c is Number
}

/// How many cells of `s` satisfy `f`.
pub open spec fn count_cells(s: Seq<Cell>, f: spec_fn(Cell) -> bool) -> nat
    decreases s.len(),
{
    if s.len() == 0 {
        0
    } else {
        count_cells(s.drop_last(), f) + if f(s.last()) {
            1nat
        } else {
            0nat
        }
    }
}

pub open spec fn mine_pred() -> spec_fn(Cell) -> bool {
    |c: Cell| is_mine_cell(c)
}

pub open spec fn disarmed_pred() -> spec_fn(Cell) -> bool {
    |c: Cell| c is DeactivatedMine
}

pub open spec fn armed_pred() -> spec_fn(Cell) -> bool {
    |c: Cell| c is Mine
}

pub open spec fn uninit_pred() -> spec_fn(Cell) -> bool {
    |c: Cell| c is Uninitialized
}

/// Cells carrying a mine, armed or disarmed.
pub open spec fn mine_total(s: Seq<Cell>) -> nat {
    count_cells(s, mine_pred())
}

/// Cells carrying a disarmed (correctly flagged) mine.
pub open spec fn disarmed_total(s: Seq<Cell>) -> nat {
    count_cells(s, disarmed_pred())
}

/// Cells carrying an armed (not yet flagged) mine.
pub open spec fn armed_total(s: Seq<Cell>) -> nat {
    count_cells(s, armed_pred())
}

/// Cells not yet resolved by mine placement.
pub open spec fn uninit_total(s: Seq<Cell>) -> nat {
    count_cells(s, uninit_pred())
}

pub proof fn lemma_count_le_len(s: Seq<Cell>, f: spec_fn(Cell) -> bool)
    ensures
        count_cells(s, f) <= s.len(),
    decreases s.len(),
{
    if s.len() > 0 {
        lemma_count_le_len(s.drop_last(), f);
    }
}

pub proof fn lemma_count_all(s: Seq<Cell>, f: spec_fn(Cell) -> bool)
    requires
        forall|i: int| 0 <= i < s.len() ==> f(#[trigger] s[i]),
    ensures
        count_cells(s, f) == s.len(),
    decreases s.len(),
{
    if s.len() > 0 {
        assert(forall|i: int|
            0 <= i < s.len() - 1 ==> #[trigger] s.drop_last()[i] == s[i]);
        lemma_count_all(s.drop_last(), f);
    }
}

pub proof fn lemma_count_zero_iff(s: Seq<Cell>, f: spec_fn(Cell) -> bool)
    ensures
        count_cells(s, f) == 0 <==> (forall|i: int| 0 <= i < s.len() ==> !f(#[trigger] s[i])),
    decreases s.len(),
{
    if s.len() > 0 {
        lemma_count_zero_iff(s.drop_last(), f);
        assert(forall|i: int|
            0 <= i < s.len() - 1 ==> #[trigger] s[i] == s.drop_last()[i]);
    }
}

/// Updating one cell changes a count by the indicators of the old and
/// the new value at that position.
pub proof fn lemma_count_update(s: Seq<Cell>, f: spec_fn(Cell) -> bool, i: int, v: Cell)
    requires
        0 <= i < s.len(),
    ensures
        count_cells(s.update(i, v), f) == count_cells(s, f) + (if f(v) {
            1int
        } else {
            0int
        }) - (if f(s[i]) {
            1int
        } else {
            0int
        }),
    decreases s.len(),
{
    let su = s.update(i, v);
    if i == s.len() - 1 {
        assert(su.drop_last() =~= s.drop_last());
        assert(su.last() == v);
    } else {
        assert(su.drop_last() =~= s.drop_last().update(i, v));
        assert(su.last() == s.last());
        lemma_count_update(s.drop_last(), f, i, v);
    }
}

/// Two grids with pointwise equal membership in `f` have equal counts.
pub proof fn lemma_count_pointwise(s1: Seq<Cell>, s2: Seq<Cell>, f: spec_fn(Cell) -> bool)
    requires
        s1.len() == s2.len(),
        forall|i: int| 0 <= i < s1.len() ==> f(#[trigger] s1[i]) == f(#[trigger] s2[i]),
    ensures
        count_cells(s1, f) == count_cells(s2, f),
    decreases s1.len(),
{
    if s1.len() > 0 {
        assert(forall|i: int|
            0 <= i < s1.len() - 1 ==> #[trigger] s1.drop_last()[i] == s1[i]);
        assert(forall|i: int|
            0 <= i < s2.len() - 1 ==> #[trigger] s2.drop_last()[i] == s2[i]);
        lemma_count_pointwise(s1.drop_last(), s2.drop_last(), f);
    }
}

/// Every mine cell is armed or disarmed, never both.
pub proof fn lemma_mine_split(s: Seq<Cell>)
    ensures
        mine_total(s) == armed_total(s) + disarmed_total(s),
    decreases s.len(),
{
    if s.len() > 0 {
        lemma_mine_split(s.drop_last());
    }
}

/// Position `(x, y)` of a row-major grid of width `w`.
pub open spec fn cell_index(w: int, x: int, y: int) -> int {
    y * w + x
}

pub open spec fn in_bounds(w: int, h: int, x: int, y: int) -> bool {
    0 <= x < w && 0 <= y < h
}

/// Distinct cells whose coordinates differ by at most one in each axis.
pub open spec fn chebyshev_adjacent(x1: int, y1: int, x2: int, y2: int) -> bool {
    (x1 != x2 || y1 != y2) && -1 <= x1 - x2 <= 1 && -1 <= y1 - y2 <= 1
}

pub proof fn lemma_cell_index_bounds(w: int, h: int, x: int, y: int)
    requires
        in_bounds(w, h, x, y),
    ensures
        0 <= cell_index(w, x, y) < w * h,
{
    assert(0 <= y * w + x < w * h) by (nonlinear_arith)
        requires
            0 <= x < w,
            0 <= y < h,
    ;
}

/// Distinct in-bounds positions have distinct row-major indices.
pub proof fn lemma_cell_index_injective(w: int, h: int, x1: int, y1: int, x2: int, y2: int)
    requires
        in_bounds(w, h, x1, y1),
        in_bounds(w, h, x2, y2),
        (x1, y1) != (x2, y2),
    ensures
        cell_index(w, x1, y1) != cell_index(w, x2, y2),
{
    if y1 != y2 {
        assert(y1 * w + x1 != y2 * w + x2) by (nonlinear_arith)
            requires
                0 <= x1 < w,
                0 <= x2 < w,
                y1 != y2,
        ;
    }
}

/// 1 when `(x, y)` is an in-bounds mine cell, else 0.
pub open spec fn mine_at(t: Seq<Cell>, w: int, h: int, x: int, y: int) -> nat {
    if in_bounds(w, h, x, y) && is_mine_cell(t[cell_index(w, x, y)]) {
        1nat
    } else {
        0nat
    }
}

/// Mines among the up-to-8 neighbours of `(x, y)`, clipped at the edges.
pub open spec fn adjacent_mines(t: Seq<Cell>, w: int, h: int, x: int, y: int) -> nat {
    mine_at(t, w, h, x - 1, y - 1) + mine_at(t, w, h, x, y - 1) + mine_at(t, w, h, x + 1, y - 1)
        + mine_at(t, w, h, x - 1, y) + mine_at(t, w, h, x + 1, y) + mine_at(t, w, h, x - 1, y + 1)
        + mine_at(t, w, h, x, y + 1) + mine_at(t, w, h, x + 1, y + 1)
}

/// Every `Empty`/`Number` cell of `t` states the exact count of mines
/// among its in-bounds neighbours.
pub open spec fn numbers_correct(t: Seq<Cell>, w: int, h: int) -> bool {
    forall|x: int, y: int|
        #[trigger] in_bounds(w, h, x, y) ==> {
            let c = t[cell_index(w, x, y)];
            &&& (c is Empty ==> adjacent_mines(t, w, h, x, y) == 0)
            &&& (c matches Cell::Number(n) ==> 1 <= n <= 8 && n == adjacent_mines(t, w, h, x, y))
        }
}

/// Grids that agree pointwise on mine carrying have equal neighbour
/// counts everywhere.
pub proof fn lemma_adjacent_mines_pointwise(t1: Seq<Cell>, t2: Seq<Cell>, w: int, h: int, x: int, y: int)
    requires
        t1.len() == t2.len(),
        forall|i: int|
            0 <= i < t1.len() ==> is_mine_cell(#[trigger] t1[i]) == is_mine_cell(#[trigger] t2[i]),
        w * h <= t1.len(),
    ensures
        adjacent_mines(t1, w, h, x, y) == adjacent_mines(t2, w, h, x, y),
{
    assert forall|xx: int, yy: int| in_bounds(w, h, xx, yy) implies #[trigger] mine_at(
        t1,
        w,
        h,
        xx,
        yy,
    ) == mine_at(t2, w, h, xx, yy) by {
        lemma_cell_index_bounds(w, h, xx, yy);
    }
}

/// The full game state: dimensions, the hidden truth grid, the visible
/// mask grid (both row-major), and the bookkeeping counters.
pub struct State {
    pub field_width: usize,
    pub field_height: usize,
    pub under_field: Vec<Cell>,
    pub mask_field: Vec<Cell>,
    pub is_play: bool,
    pub is_mines_placed: bool,
    pub mines_count: i32,
    pub marked_mines_count: i32,
    pub safe_zone_radius: i32,
}

impl State {
    pub open spec fn total(self) -> int {
        self.field_width * self.field_height
    }

    pub open spec fn truth_at(self, x: int, y: int) -> Cell {
        self.under_field@[cell_index(self.field_width as int, x, y)]
    }

    pub open spec fn mask_at(self, x: int, y: int) -> Cell {
        self.mask_field@[cell_index(self.field_width as int, x, y)]
    }

    pub open spec fn sq_in_bounds(self, x: int, y: int) -> bool {
        in_bounds(self.field_width as int, self.field_height as int, x, y)
    }

    /// The state invariant: grid sizes, layer membership, the counter
    /// tie to the truth grid, and — once mines are placed — the exact
    /// mine total and number correctness.
    pub open spec fn wf(self) -> bool {
        &&& self.under_field@.len() == self.total()
        &&& self.mask_field@.len() == self.total()
        &&& self.total() <= i32::MAX
        &&& self.mines_count >= 0
        &&& self.safe_zone_radius >= 0
        &&& Self::config_ok(
            self.field_width as int,
            self.field_height as int,
            self.mines_count as int,
            self.safe_zone_radius as int,
        )
        &&& (forall|i: int| 0 <= i < self.total() ==> is_truth_cell(#[trigger] self.under_field@[i]))
        &&& (forall|i: int| 0 <= i < self.total() ==> is_mask_cell(#[trigger] self.mask_field@[i]))
        &&& self.marked_mines_count == disarmed_total(self.under_field@)
        &&& (forall|i: int|
            0 <= i < self.total() ==> (#[trigger] self.under_field@[i] is DeactivatedMine
                ==> self.mask_field@[i] is Mark || self.mask_field@[i] is Open))
        &&& (self.is_mines_placed ==> {
            &&& mine_total(self.under_field@) == self.mines_count
            &&& (forall|i: int|
                0 <= i < self.total() ==> is_placed_cell(#[trigger] self.under_field@[i]))
            &&& numbers_correct(
                self.under_field@,
                self.field_width as int,
                self.field_height as int,
            )
        })
        &&& (!self.is_mines_placed ==> mine_total(self.under_field@) <= self.mines_count)
    }

    /// Whether the mine count fits the grid once the safe zone of the
    /// effective radius is set aside.
    pub open spec fn config_ok(width: int, height: int, mines_count: int, radius: int) -> bool {
        width * height - (2 * radius + 1) * (2 * radius + 1) >= mines_count
    }

    /// Builds a fresh board: all truth cells `Uninitialized`, all mask
    /// cells `Closed`, no mines placed yet. Rejects a mine count that
    /// cannot leave the safe zone free of mines.
    pub fn new(
        width: usize,
        height: usize,
        mines_count: i32,
        safe_zone_radius: Option<i32>,
    ) -> (res: Result<State, ConfigError>)
        requires
            width * height <= i32::MAX,
            mines_count >= 0,
            (safe_zone_radius matches Some(r) ==> 0 <= r && 2 * r + 1 <= 46340),
        ensures
            ({
                let r = if safe_zone_radius is Some {
                    safe_zone_radius->0 as int
                } else {
                    3int
                };
                &&& (res is Ok <==> Self::config_ok(
                    width as int,
                    height as int,
                    mines_count as int,
                    r,
                ))
                &&& (res matches Ok(s) ==> {
                    &&& s.wf()
                    &&& s.field_width == width
                    &&& s.field_height == height
                    &&& s.mines_count == mines_count
                    &&& s.safe_zone_radius == r
                    &&& s.marked_mines_count == 0
                    &&& !s.is_mines_placed
                    &&& s.is_play
                    &&& (forall|i: int|
                        0 <= i < s.total() ==> #[trigger] s.under_field@[i] is Uninitialized)
                    &&& (forall|i: int|
                        0 <= i < s.total() ==> #[trigger] s.mask_field@[i] is Closed)
                })
            }),
    {
        let radius = match safe_zone_radius {
            Some(r) => r,
            None => 3,
        };
        let area = width * height;
        proof {
            assert((2 * radius + 1) * (2 * radius + 1) <= 46340 * 46340) by (nonlinear_arith)
                requires
                    0 <= 2 * radius + 1 <= 46340,
            ;
        }
        let zone = (2 * radius + 1) * (2 * radius + 1);
        if (area as i32) - zone < mines_count {
            return Err(ConfigError);
        }
        let under_field = filled_grid(area, Cell::Uninitialized);
        let mask_field = filled_grid(area, Cell::Closed);
        let s = State {
            field_width: width,
            field_height: height,
            under_field,
            mask_field,
            is_play: true,
            is_mines_placed: false,
            mines_count,
            marked_mines_count: 0,
            safe_zone_radius: radius,
        };
        proof {
            lemma_count_zero_iff(s.under_field@, disarmed_pred());
            lemma_count_zero_iff(s.under_field@, mine_pred());
        }
        Ok(s)
    }

    /// True iff every mine has been correctly flagged: the win test.
    pub fn check_win(&self) -> (res: bool)
        ensures
            res == (self.marked_mines_count == self.mines_count),
    {
        self.marked_mines_count == self.mines_count
    }

    /// Toggles the flag on `(x, y)` and returns the truth value there.
    /// Flagging a hidden cell disarms a mine under it; unflagging arms
    /// it again. A revealed or questioned cell is left alone. This is
    /// the only operation that moves `marked_mines_count`.
    pub fn mark(&mut self, x: usize, y: usize) -> (res: Cell)
        requires
            old(self).wf(),
            x < old(self).field_width,
            y < old(self).field_height,
        ensures
            final(self).wf(),
            mark_rel(*old(self), *final(self), x as int, y as int),
            res == final(self).truth_at(x as int, y as int),
    {
        let ghost t0 = self.under_field@;
        let w = self.field_width;
        proof {
            lemma_cell_index_bounds(w as int, self.field_height as int, x as int, y as int);
        }
        let idx = y * w + x;
        let m = self.mask_field[idx];
        if m == Cell::Closed {
            self.mask_field[idx] = Cell::Mark;
            if self.under_field[idx] == Cell::Mine {
                self.under_field[idx] = Cell::DeactivatedMine;
                proof {
                    lemma_count_update(t0, disarmed_pred(), idx as int, Cell::DeactivatedMine);
                    lemma_count_update(t0, mine_pred(), idx as int, Cell::DeactivatedMine);
                    lemma_count_le_len(t0.update(idx as int, Cell::DeactivatedMine), disarmed_pred());
                }
                self.marked_mines_count = self.marked_mines_count + 1;
                proof {
                    self.lemma_retoggle_keeps_numbers(t0, idx as int);
                }
            }
        } else if m == Cell::Mark {
            self.mask_field[idx] = Cell::Closed;
            if self.under_field[idx] == Cell::DeactivatedMine {
                self.under_field[idx] = Cell::Mine;
                proof {
                    lemma_count_update(t0, disarmed_pred(), idx as int, Cell::Mine);
                    lemma_count_update(t0, mine_pred(), idx as int, Cell::Mine);
                }
                self.marked_mines_count = self.marked_mines_count - 1;
                proof {
                    self.lemma_retoggle_keeps_numbers(t0, idx as int);
                }
            }
        }
        self.under_field[idx]
    }

    /// After toggling one cell between `Mine` and `DeactivatedMine`,
    /// every number on the board still states its exact neighbour count.
    proof fn lemma_retoggle_keeps_numbers(self, t0: Seq<Cell>, idx: int)
        requires
            0 <= idx < t0.len(),
            self.under_field@.len() == t0.len(),
            self.total() == t0.len(),
            self.under_field@ == t0.update(idx, self.under_field@[idx]),
            is_mine_cell(t0[idx]),
            is_mine_cell(self.under_field@[idx]),
        ensures
            numbers_correct(t0, self.field_width as int, self.field_height as int)
                ==> numbers_correct(
                self.under_field@,
                self.field_width as int,
                self.field_height as int,
            ),
    {
        let w = self.field_width as int;
        let h = self.field_height as int;
        let t1 = self.under_field@;
        if numbers_correct(t0, w, h) {
            assert forall|x: int, y: int| #[trigger] in_bounds(w, h, x, y) implies {
                let c = t1[cell_index(w, x, y)];
                &&& (c is Empty ==> adjacent_mines(t1, w, h, x, y) == 0)
                &&& (c matches Cell::Number(n) ==> 1 <= n <= 8 && n == adjacent_mines(t1, w, h, x, y))
            } by {
                lemma_cell_index_bounds(w, h, x, y);
                lemma_adjacent_mines_pointwise(t0, t1, w, h, x, y);
                assert(in_bounds(w, h, x, y));
                assert(t1[cell_index(w, x, y)] == t0[cell_index(w, x, y)] || cell_index(w, x, y)
                    == idx);
            }
        }
    }

    /// Toggles the question marker on `(x, y)` and returns the truth
    /// value there. Touches neither the truth grid nor any counter.
    pub fn question(&mut self, x: usize, y: usize) -> (res: Cell)
        requires
            old(self).wf(),
            x < old(self).field_width,
            y < old(self).field_height,
        ensures
            final(self).wf(),
            question_rel(*old(self), *final(self), x as int, y as int),
            res == final(self).truth_at(x as int, y as int),
    {
        let w = self.field_width;
        proof {
            lemma_cell_index_bounds(w as int, self.field_height as int, x as int, y as int);
        }
        let idx = y * w + x;
        let m = self.mask_field[idx];
        if m == Cell::Closed {
            self.mask_field[idx] = Cell::Question;
        } else if m == Cell::Question {
            self.mask_field[idx] = Cell::Closed;
        }
        self.under_field[idx]
    }

    /// Reveals every cell of the mask grid, whatever its prior state.
    /// The end-of-game reveal; the truth grid is untouched.
    pub fn open_all(&mut self)
        requires
            old(self).wf(),
        ensures
            final(self).wf(),
            final(self).under_field@ == old(self).under_field@,
            final(self).field_width == old(self).field_width,
            final(self).field_height == old(self).field_height,
            final(self).is_play == old(self).is_play,
            final(self).is_mines_placed == old(self).is_mines_placed,
            final(self).mines_count == old(self).mines_count,
            final(self).marked_mines_count == old(self).marked_mines_count,
            final(self).safe_zone_radius == old(self).safe_zone_radius,
            final(self).mask_field@.len() == old(self).mask_field@.len(),
            forall|i: int| 0 <= i < final(self).total() ==> #[trigger] final(self).mask_field@[i] is Open,
    {
        let len = self.mask_field.len();
        let mut k: usize = 0;
        while k < len
            invariant
                old(self).wf(),
                k <= len,
                len == self.mask_field@.len(),
                self.under_field == old(self).under_field,
                self.field_width == old(self).field_width,
                self.field_height == old(self).field_height,
                self.is_play == old(self).is_play,
                self.is_mines_placed == old(self).is_mines_placed,
                self.mines_count == old(self).mines_count,
                self.marked_mines_count == old(self).marked_mines_count,
                self.safe_zone_radius == old(self).safe_zone_radius,
                forall|i: int| 0 <= i < k ==> #[trigger] self.mask_field@[i] is Open,
                forall|i: int|
                    k <= i < len ==> #[trigger] self.mask_field@[i] == old(self).mask_field@[i],
            decreases len - k,
        {
            self.mask_field[k] = Cell::Open;
            k = k + 1;
        }
    }

    /// Books every in-bounds cell within Chebyshev distance
    /// `safe_zone_radius` of `(x, y)`, the square the first reveal
    /// guarantees free of mines, clipped at the grid edges in both axes.
    #[verifier::loop_isolation(false)]
    pub fn prepare_save_zone(&mut self, x: usize, y: usize)
        requires
            old(self).wf(),
            x < old(self).field_width,
            y < old(self).field_height,
            !old(self).is_mines_placed,
            forall|i: int|
                0 <= i < old(self).total() ==> (#[trigger] old(self).under_field@[i]
                    is Uninitialized || old(self).under_field@[i] is Booked),
        ensures
            final(self).wf(),
            final(self).field_width == old(self).field_width,
            final(self).field_height == old(self).field_height,
            final(self).mask_field@ == old(self).mask_field@,
            final(self).is_play == old(self).is_play,
            final(self).is_mines_placed == old(self).is_mines_placed,
            final(self).mines_count == old(self).mines_count,
            final(self).marked_mines_count == old(self).marked_mines_count,
            final(self).safe_zone_radius == old(self).safe_zone_radius,
            final(self).under_field@.len() == old(self).under_field@.len(),
            forall|i: int|
                0 <= i < final(self).total() ==> (#[trigger] final(self).under_field@[i]
                    is Uninitialized || final(self).under_field@[i] is Booked),
            forall|a: int, b: int|
                final(self).sq_in_bounds(a, b) ==> #[trigger] final(self).truth_at(a, b) == (
                if -old(self).safe_zone_radius <= a - x <= old(self).safe_zone_radius
                    && -old(self).safe_zone_radius <= b - y <= old(self).safe_zone_radius {
                    Cell::Booked
                } else {
                    old(self).truth_at(a, b)
                }),
            uninit_total(final(self).under_field@) >= uninit_total(old(self).under_field@) - (2
                * old(self).safe_zone_radius + 1) * (2 * old(self).safe_zone_radius + 1),
    {
        let ghost t0 = self.under_field@;
        let w = self.field_width;
        let h = self.field_height;
        let r = self.safe_zone_radius as usize;
        let x0 = if x > r {
            x - r
        } else {
            0
        };
        let y0 = if y > r {
            y - r
        } else {
            0
        };
        let x1 = if r < w - 1 - x {
            x + r
        } else {
            w - 1
        };
        let y1 = if r < h - 1 - y {
            y + r
        } else {
            h - 1
        };
        let ghost pre = *self;
        let ghost rk = x1 - x0 + 1;
        let mut yy = y0;
        while yy <= y1
            invariant
                y0 <= yy <= y1 + 1,
                same_shell(pre, *self),
                self.under_field@.len() == self.total(),
                self.total() <= i32::MAX,
                forall|i: int|
                    0 <= i < self.total() ==> (#[trigger] self.under_field@[i] is Uninitialized
                        || self.under_field@[i] is Booked),
                forall|a: int, b: int|
                    in_bounds(w as int, h as int, a, b) && x0 <= a <= x1 && y0 <= b < yy
                        ==> self.under_field@[#[trigger] cell_index(w as int, a, b)] is Booked,
                forall|a: int, b: int|
                    in_bounds(w as int, h as int, a, b) && !(x0 <= a <= x1 && y0 <= b < yy)
                        ==> self.under_field@[#[trigger] cell_index(w as int, a, b)] == t0[
                    cell_index(w as int, a, b)],
                uninit_total(self.under_field@) >= uninit_total(t0) - (yy - y0) * rk,
            decreases y1 + 1 - yy,
        {
            let mut xx = x0;
            while xx <= x1
                invariant
                    y0 <= yy <= y1,
                    x0 <= xx <= x1 + 1,
                    same_shell(pre, *self),
                    self.under_field@.len() == self.total(),
                    self.total() <= i32::MAX,
                    forall|i: int|
                        0 <= i < self.total() ==> (#[trigger] self.under_field@[i] is Uninitialized
                            || self.under_field@[i] is Booked),
                    forall|a: int, b: int|
                        in_bounds(w as int, h as int, a, b) && x0 <= a <= x1 && (y0 <= b < yy || (b
                            == yy && a < xx)) ==> self.under_field@[#[trigger] cell_index(
                            w as int,
                            a,
                            b,
                        )] is Booked,
                    forall|a: int, b: int|
                        in_bounds(w as int, h as int, a, b) && !(x0 <= a <= x1 && (y0 <= b < yy || (
                        b == yy && a < xx))) ==> self.under_field@[#[trigger] cell_index(
                            w as int,
                            a,
                            b,
                        )] == t0[cell_index(w as int, a, b)],
                    uninit_total(self.under_field@) >= uninit_total(t0) - (yy - y0) * rk - (xx
                        - x0),
                decreases x1 + 1 - xx,
            {
                proof {
                    lemma_cell_index_bounds(w as int, h as int, xx as int, yy as int);
                    lemma_count_update(
                        self.under_field@,
                        uninit_pred(),
                        cell_index(w as int, xx as int, yy as int),
                        Cell::Booked,
                    );
                }
                let ghost before = self.under_field@;
                self.under_field[yy * w + xx] = Cell::Booked;
                proof {
                    assert(self.under_field@ == before.update(
                        cell_index(w as int, xx as int, yy as int),
                        Cell::Booked,
                    ));
                    assert forall|a: int, b: int|
                        in_bounds(w as int, h as int, a, b) && (a != xx || b != yy) implies #[trigger] cell_index(
                        w as int,
                        a,
                        b,
                    ) != cell_index(w as int, xx as int, yy as int) by {
                        lemma_cell_index_injective(w as int, h as int, a, b, xx as int, yy as int);
                    }
                    assert forall|a: int, b: int|
                        in_bounds(w as int, h as int, a, b) && x0 <= a <= x1 && (y0 <= b < yy || (b
                            == yy && a < xx + 1)) implies self.under_field@[#[trigger] cell_index(
                        w as int,
                        a,
                        b,
                    )] is Booked by {
                        lemma_cell_index_bounds(w as int, h as int, a, b);
                        if a == xx && b == yy {
                            assert(self.under_field@[cell_index(w as int, a, b)] is Booked);
                        } else {
                            lemma_cell_index_injective(
                                w as int,
                                h as int,
                                a,
                                b,
                                xx as int,
                                yy as int,
                            );
                        }
                    }
                    assert forall|a: int, b: int|
                        in_bounds(w as int, h as int, a, b) && !(x0 <= a <= x1 && (y0 <= b < yy || (
                        b == yy && a < xx + 1))) implies self.under_field@[#[trigger] cell_index(
                        w as int,
                        a,
                        b,
                    )] == t0[cell_index(w as int, a, b)] by {
                        lemma_cell_index_bounds(w as int, h as int, a, b);
                        lemma_cell_index_injective(w as int, h as int, a, b, xx as int, yy as int);
                    }
                }
                xx = xx + 1;
            }
            proof {
                assert((yy + 1 - y0) * rk == (yy - y0) * rk + rk) by (nonlinear_arith);
            }
            yy = yy + 1;
        }
        proof {
            self.lemma_zone_counts(
                t0,
                x as int,
                y as int,
                x0 as int,
                y0 as int,
                x1 as int,
                y1 as int,
                (y1 + 1 - y0) as int,
                rk,
            );
            lemma_count_zero_iff(self.under_field@, disarmed_pred());
            lemma_count_zero_iff(t0, disarmed_pred());
            lemma_count_zero_iff(self.under_field@, mine_pred());
            let rad = pre.safe_zone_radius as int;
            assert forall|a: int, b: int| self.sq_in_bounds(a, b) implies #[trigger] self.truth_at(
                a,
                b,
            ) == (if -rad <= a - x <= rad && -rad <= b - y <= rad {
                Cell::Booked
            } else {
                t0[cell_index(w as int, a, b)]
            }) by {
                lemma_cell_index_bounds(w as int, h as int, a, b);
                assert((x0 <= a <= x1 && y0 <= b <= y1) == (-rad <= a - x <= rad && -rad <= b - y
                    <= rad));
            }
        }
    }

    /// The booked rectangle holds at most `(2r+1)` rows of at most
    /// `(2r+1)` cells, so booking it costs the grid at most `(2r+1)^2`
    /// unresolved cells.
    proof fn lemma_zone_counts(
        self,
        t0: Seq<Cell>,
        x: int,
        y: int,
        x0: int,
        y0: int,
        x1: int,
        y1: int,
        rows: int,
        rk: int,
    )
        requires
            self.safe_zone_radius >= 0,
            rows == y1 + 1 - y0,
            rk == x1 - x0 + 1,
            0 <= rows <= 2 * self.safe_zone_radius + 1,
            0 <= rk <= 2 * self.safe_zone_radius + 1,
            uninit_total(self.under_field@) >= uninit_total(t0) - rows * rk,
        ensures
            uninit_total(self.under_field@) >= uninit_total(t0) - (2 * self.safe_zone_radius + 1)
                * (2 * self.safe_zone_radius + 1),
    {
        let d = 2 * self.safe_zone_radius + 1;
        assert(rows * rk <= d * d) by (nonlinear_arith)
            requires
                0 <= rows <= d,
                0 <= rk <= d,
        ;
    }

    /// Mines among the up-to-8 in-bounds neighbours of `(x, y)` on the
    /// current truth grid.
    fn count_adjacent_mines(&self, x: usize, y: usize) -> (n: u8)
        requires
            self.under_field@.len() == self.total(),
            self.total() <= i32::MAX,
            x < self.field_width,
            y < self.field_height,
        ensures
            n == adjacent_mines(
                self.under_field@,
                self.field_width as int,
                self.field_height as int,
                x as int,
                y as int,
            ),
    {
        let w = self.field_width;
        let h = self.field_height;
        let ghost t = self.under_field@;
        let mut n: u8 = 0;
        if x > 0 && y > 0 {
            proof {
                lemma_cell_index_bounds(w as int, h as int, x - 1, y - 1);
            }
            if is_mine_like(self.under_field[(y - 1) * w + (x - 1)]) {
                n = n + 1;
            }
        }
        if y > 0 {
            proof {
                lemma_cell_index_bounds(w as int, h as int, x as int, y - 1);
            }
            if is_mine_like(self.under_field[(y - 1) * w + x]) {
                n = n + 1;
            }
        }
        if x + 1 < w && y > 0 {
            proof {
                lemma_cell_index_bounds(w as int, h as int, x + 1, y - 1);
            }
            if is_mine_like(self.under_field[(y - 1) * w + (x + 1)]) {
                n = n + 1;
            }
        }
        if x > 0 {
            proof {
                lemma_cell_index_bounds(w as int, h as int, x - 1, y as int);
            }
            if is_mine_like(self.under_field[y * w + (x - 1)]) {
                n = n + 1;
            }
        }
        if x + 1 < w {
            proof {
                lemma_cell_index_bounds(w as int, h as int, x + 1, y as int);
            }
            if is_mine_like(self.under_field[y * w + (x + 1)]) {
                n = n + 1;
            }
        }
        if x > 0 && y + 1 < h {
            proof {
                lemma_cell_index_bounds(w as int, h as int, x - 1, y + 1);
            }
            if is_mine_like(self.under_field[(y + 1) * w + (x - 1)]) {
                n = n + 1;
            }
        }
        if y + 1 < h {
            proof {
                lemma_cell_index_bounds(w as int, h as int, x as int, y + 1);
            }
            if is_mine_like(self.under_field[(y + 1) * w + x]) {
                n = n + 1;
            }
        }
        if x + 1 < w && y + 1 < h {
            proof {
                lemma_cell_index_bounds(w as int, h as int, x + 1, y + 1);
            }
            if is_mine_like(self.under_field[(y + 1) * w + (x + 1)]) {
                n = n + 1;
            }
        }
        n
    }

    /// Resolves every unresolved or booked cell into `Empty` or the
    /// exact count of mines among its neighbours.
    #[verifier::loop_isolation(false)]
    #[verifier::rlimit(50)]
    pub fn place_numbers(&mut self)
        requires
            old(self).wf(),
        ensures
            final(self).wf(),
            final(self).field_width == old(self).field_width,
            final(self).field_height == old(self).field_height,
            final(self).mask_field@ == old(self).mask_field@,
            final(self).is_play == old(self).is_play,
            final(self).is_mines_placed == old(self).is_mines_placed,
            final(self).mines_count == old(self).mines_count,
            final(self).marked_mines_count == old(self).marked_mines_count,
            final(self).safe_zone_radius == old(self).safe_zone_radius,
            final(self).under_field@ == numbered_grid(
                old(self).under_field@,
                old(self).field_width as int,
                old(self).field_height as int,
            ),
    {
        let ghost t0 = self.under_field@;
        let ghost pre = *self;
        let w = self.field_width;
        let h = self.field_height;
        let ghost wi = w as int;
        let ghost hi = h as int;
        let mut yy: usize = 0;
        while yy < h
            invariant
                yy <= h,
                same_shell(pre, *self),
                self.under_field@.len() == self.total(),
                self.total() <= i32::MAX,
                forall|i: int|
                    0 <= i < yy * wi ==> #[trigger] self.under_field@[i] == numbered_cell(
                        t0,
                        wi,
                        hi,
                        i,
                    ),
                forall|i: int| yy * wi <= i < self.total() ==> #[trigger] self.under_field@[i] == t0[i],
                forall|i: int|
                    0 <= i < self.total() ==> is_mine_cell(#[trigger] self.under_field@[i])
                        == is_mine_cell(t0[i]),
                disarmed_total(self.under_field@) == disarmed_total(t0),
                mine_total(self.under_field@) == mine_total(t0),
                forall|i: int|
                    0 <= i < self.total() ==> is_truth_cell(#[trigger] self.under_field@[i]),
            decreases h - yy,
        {
            let mut xx: usize = 0;
            while xx < w
                invariant
                    yy < h,
                    xx <= w,
                    same_shell(pre, *self),
                    self.under_field@.len() == self.total(),
                    self.total() <= i32::MAX,
                    forall|i: int|
                        0 <= i < yy * wi + xx ==> #[trigger] self.under_field@[i] == numbered_cell(
                            t0,
                            wi,
                            hi,
                            i,
                        ),
                    forall|i: int|
                        yy * wi + xx <= i < self.total() ==> #[trigger] self.under_field@[i] == t0[i],
                    forall|i: int|
                        0 <= i < self.total() ==> is_mine_cell(#[trigger] self.under_field@[i])
                            == is_mine_cell(t0[i]),
                    disarmed_total(self.under_field@) == disarmed_total(t0),
                    mine_total(self.under_field@) == mine_total(t0),
                    forall|i: int|
                        0 <= i < self.total() ==> is_truth_cell(#[trigger] self.under_field@[i]),
                decreases w - xx,
            {
                proof {
                    lemma_cell_index_bounds(wi, hi, xx as int, yy as int);
                    vstd::arithmetic::div_mod::lemma_fundamental_div_mod_converse(
                        yy * wi + xx,
                        wi,
                        yy as int,
                        xx as int,
                    );
                }
                let idx = yy * w + xx;
                let c = self.under_field[idx];
                if matches!(c, Cell::Uninitialized | Cell::Booked) {
                    let cnt = self.count_adjacent_mines(xx, yy);
                    proof {
                        lemma_adjacent_mines_pointwise(
                            self.under_field@,
                            t0,
                            wi,
                            hi,
                            xx as int,
                            yy as int,
                        );
                        lemma_count_update(
                            self.under_field@,
                            disarmed_pred(),
                            idx as int,
                            numbered_cell(t0, wi, hi, idx as int),
                        );
                        lemma_count_update(
                            self.under_field@,
                            mine_pred(),
                            idx as int,
                            numbered_cell(t0, wi, hi, idx as int),
                        );
                    }
                    if cnt == 0 {
                        self.under_field[idx] = Cell::Empty;
                    } else {
                        self.under_field[idx] = Cell::Number(cnt);
                    }
                }
                xx = xx + 1;
            }
            proof {
                assert((yy + 1) * wi == yy * wi + wi) by (nonlinear_arith);
            }
            yy = yy + 1;
        }
        proof {
            assert(yy * wi == wi * hi) by (nonlinear_arith)
                requires
                    yy == hi,
            ;
            assert(self.under_field@ =~= numbered_grid(t0, wi, hi));
            assert forall|i: int|
                0 <= i < self.total() && #[trigger] self.under_field@[i] is DeactivatedMine implies self.mask_field@[i]
                is Mark || self.mask_field@[i] is Open by {
                assert(self.under_field@[i] == numbered_cell(t0, wi, hi, i));
                assert(t0[i] is DeactivatedMine);
            }
            if self.is_mines_placed {
                assert(numbered_grid(t0, wi, hi) =~= t0);
            }
            assert(self.under_field@.len() == self.total());
            assert(self.marked_mines_count == disarmed_total(self.under_field@));
            assert(forall|i: int|
                0 <= i < self.total() ==> is_truth_cell(#[trigger] self.under_field@[i]));
            assert(forall|i: int|
                0 <= i < self.total() ==> is_mask_cell(#[trigger] self.mask_field@[i]));
            if self.is_mines_placed {
                assert(mine_total(self.under_field@) == self.mines_count);
                assert(forall|i: int|
                    0 <= i < self.total() ==> is_placed_cell(#[trigger] self.under_field@[i]));
                assert(numbers_correct(
                    self.under_field@,
                    self.field_width as int,
                    self.field_height as int,
                ));
            } else {
                assert(mine_total(self.under_field@) <= self.mines_count);
            }
        }
    }

    /// How many cells of the truth grid are still unresolved.
    #[verifier::loop_isolation(false)]
    fn count_uninitialized(&self) -> (n: usize)
        requires
            self.under_field@.len() == self.total(),
        ensures
            n == uninit_total(self.under_field@),
    {
        let len = self.under_field.len();
        let mut n: usize = 0;
        let mut k: usize = 0;
        while k < len
            invariant
                k <= len,
                n <= k,
                n == uninit_total(self.under_field@.take(k as int)),
            decreases len - k,
        {
            proof {
                assert(self.under_field@.take(k + 1).drop_last() =~= self.under_field@.take(
                    k as int,
                ));
            }
            if matches!(self.under_field[k], Cell::Uninitialized) {
                n = n + 1;
            }
            k = k + 1;
        }
        proof {
            assert(self.under_field@.take(len as int) =~= self.under_field@);
        }
        n
    }

    /// The index of the `k`-th unresolved cell of the truth grid, in
    /// row-major order.
    #[verifier::loop_isolation(false)]
    fn nth_uninitialized(&self, k: usize) -> (idx: usize)
        requires
            self.under_field@.len() == self.total(),
            k < uninit_total(self.under_field@),
        ensures
            idx < self.under_field@.len(),
            self.under_field@[idx as int] is Uninitialized,
    {
        let len = self.under_field.len();
        let mut n: usize = 0;
        let mut i: usize = 0;
        while i < len
            invariant
                i <= len,
                n <= i,
                n == uninit_total(self.under_field@.take(i as int)),
                n <= k,
            decreases len - i,
        {
            proof {
                assert(self.under_field@.take(i + 1).drop_last() =~= self.under_field@.take(
                    i as int,
                ));
            }
            if matches!(self.under_field[i], Cell::Uninitialized) {
                if n == k {
                    return i;
                }
                n = n + 1;
            }
            i = i + 1;
        }
        proof {
            assert(self.under_field@.take(len as int) =~= self.under_field@);
            assert(false);
        }
        0
    }

    /// Draws uniformly random positions and arms a mine under each one
    /// that is still unresolved, until `mines_count` mines are down.
    #[verifier::loop_isolation(false)]
    fn place_mines(&mut self)
        requires
            old(self).wf(),
            !old(self).is_mines_placed,
            mine_total(old(self).under_field@) == 0,
            uninit_total(old(self).under_field@) >= old(self).mines_count,
        ensures
            final(self).wf(),
            final(self).field_width == old(self).field_width,
            final(self).field_height == old(self).field_height,
            final(self).mask_field@ == old(self).mask_field@,
            final(self).is_play == old(self).is_play,
            final(self).is_mines_placed == old(self).is_mines_placed,
            final(self).mines_count == old(self).mines_count,
            final(self).marked_mines_count == old(self).marked_mines_count,
            final(self).safe_zone_radius == old(self).safe_zone_radius,
            final(self).under_field@.len() == old(self).under_field@.len(),
            mine_total(final(self).under_field@) == final(self).mines_count,
            forall|i: int|
                0 <= i < final(self).total() ==> #[trigger] final(self).under_field@[i]
                    == old(self).under_field@[i] || (old(self).under_field@[i] is Uninitialized
                    && final(self).under_field@[i] is Mine),
    {
        let ghost t0 = self.under_field@;
        let ghost pre = *self;
        let mut placed: i32 = 0;
        while placed != self.mines_count
            invariant
                0 <= placed <= self.mines_count,
                same_shell(pre, *self),
                self.under_field@.len() == self.total(),
                self.total() <= i32::MAX,
                mine_total(self.under_field@) == placed,
                disarmed_total(self.under_field@) == disarmed_total(t0),
                uninit_total(self.under_field@) >= self.mines_count - placed,
                forall|i: int|
                    0 <= i < self.total() ==> #[trigger] self.under_field@[i] == t0[i] || (t0[i]
                        is Uninitialized && self.under_field@[i] is Mine),
                forall|i: int|
                    0 <= i < self.total() ==> is_truth_cell(#[trigger] self.under_field@[i]),
            decreases self.mines_count - placed,
        {
            let free = self.count_uninitialized();
            let pick = random_below(free);
            let idx = self.nth_uninitialized(pick);
            proof {
                lemma_count_update(self.under_field@, mine_pred(), idx as int, Cell::Mine);
                lemma_count_update(self.under_field@, disarmed_pred(), idx as int, Cell::Mine);
                lemma_count_update(self.under_field@, uninit_pred(), idx as int, Cell::Mine);
            }
            self.under_field[idx] = Cell::Mine;
            placed = placed + 1;
        }
    }

    /// Scripted mine placement for a deterministic game: takes the
    /// positions of `positions` in order, arming a mine under each one
    /// still unresolved, then resolves all numbers and closes placement.
    /// The script must contain enough fresh positions for `mines_count`
    /// mines.
    #[verifier::loop_isolation(false)]
    pub fn place_mines_from(&mut self, positions: &Vec<(usize, usize)>)
        requires
            old(self).wf(),
            !old(self).is_mines_placed,
            forall|i: int|
                0 <= i < old(self).total() ==> (#[trigger] old(self).under_field@[i]
                    is Uninitialized || old(self).under_field@[i] is Booked),
            forall|k: int|
                0 <= k < positions@.len() ==> (#[trigger] positions@[k]).0 < old(self).field_width
                    && positions@[k].1 < old(self).field_height,
            scripted_mines(
                old(self).under_field@,
                old(self).field_width as int,
                positions@,
                old(self).mines_count as int,
            ).1 == 0,
        ensures
            final(self).wf(),
            final(self).is_mines_placed,
            final(self).field_width == old(self).field_width,
            final(self).field_height == old(self).field_height,
            final(self).mask_field@ == old(self).mask_field@,
            final(self).is_play == old(self).is_play,
            final(self).mines_count == old(self).mines_count,
            final(self).marked_mines_count == old(self).marked_mines_count,
            final(self).safe_zone_radius == old(self).safe_zone_radius,
            final(self).under_field@ == numbered_grid(
                scripted_mines(
                    old(self).under_field@,
                    old(self).field_width as int,
                    positions@,
                    old(self).mines_count as int,
                ).0,
                old(self).field_width as int,
                old(self).field_height as int,
            ),
            mine_total(final(self).under_field@) == final(self).mines_count,
            forall|i: int|
                0 <= i < final(self).total() ==> (is_mine_cell(#[trigger] final(self).under_field@[i])
                    ==> old(self).under_field@[i] is Uninitialized),
    {
        let ghost t0 = self.under_field@;
        let ghost wi = self.field_width as int;
        let ghost hi = self.field_height as int;
        let ghost ps = positions@;
        let ghost goal = scripted_mines(t0, wi, ps, self.mines_count as int);
        proof {
            lemma_count_zero_iff(t0, mine_pred());
        }
        let ghost pre = *self;
        proof {
            assert(ps.skip(0) =~= ps);
        }
        let mut k: usize = 0;
        let mut placed: i32 = 0;
        while k < positions.len() && placed != self.mines_count
            invariant
                0 <= placed <= self.mines_count,
                k <= ps.len(),
                same_shell(pre, *self),
                self.under_field@.len() == self.total(),
                self.total() <= i32::MAX,
                mine_total(self.under_field@) == placed,
                disarmed_total(self.under_field@) == disarmed_total(t0),
                scripted_mines(self.under_field@, wi, ps.skip(k as int), self.mines_count - placed)
                    == goal,
                forall|i: int|
                    0 <= i < self.total() ==> (#[trigger] self.under_field@[i] is Uninitialized
                        || self.under_field@[i] is Booked || self.under_field@[i] is Mine),
                forall|i: int|
                    0 <= i < self.total() ==> #[trigger] self.under_field@[i] == t0[i] || (t0[i]
                        is Uninitialized && self.under_field@[i] is Mine),
                forall|i: int|
                    0 <= i < self.total() ==> (is_mine_cell(#[trigger] self.under_field@[i]) ==> t0[i]
                        is Uninitialized),
            decreases ps.len() - k,
        {
            let (px, py) = positions[k];
            proof {
                lemma_cell_index_bounds(wi, hi, px as int, py as int);
                assert(ps.skip(k as int)[0] == ps[k as int]);
                assert(ps.skip(k as int).drop_first() =~= ps.skip(k + 1));
            }
            let idx = py * self.field_width + px;
            if matches!(self.under_field[idx], Cell::Uninitialized) {
                proof {
                    lemma_count_update(self.under_field@, mine_pred(), idx as int, Cell::Mine);
                    lemma_count_update(self.under_field@, disarmed_pred(), idx as int, Cell::Mine);
                }
                self.under_field[idx] = Cell::Mine;
                placed = placed + 1;
            }
            k = k + 1;
        }
        proof {
            if placed != self.mines_count {
                assert(ps.skip(k as int).len() == 0);
                assert(ps.skip(k as int) =~= Seq::<(usize, usize)>::empty());
            }
            assert(self.under_field@ == goal.0);
            lemma_numbered_grid_correct(self.under_field@, wi, hi);
            lemma_count_pointwise(
                numbered_grid(self.under_field@, wi, hi),
                self.under_field@,
                mine_pred(),
            );
            lemma_count_pointwise(
                numbered_grid(self.under_field@, wi, hi),
                self.under_field@,
                disarmed_pred(),
            );
        }
        self.place_numbers();
        self.is_mines_placed = true;
    }

    /// One cascade step: reveals the neighbour `(nx, ny)` of the
    /// revealed fill cell `(cx, cy)` if that neighbour is hidden and the
    /// step is allowed, and queues it for expansion if it is a fill cell.
    #[verifier::rlimit(100)]
    fn reveal_neighbor(
        &mut self,
        stack: &mut Vec<(usize, usize)>,
        cx: usize,
        cy: usize,
        nx: usize,
        ny: usize,
        ox: usize,
        oy: usize,
        Ghost(om): Ghost<Seq<Cell>>,
        Ghost(tt): Ghost<Seq<Cell>>,
    )
        requires
            flood_inv(*old(self), om, tt, ox as int, oy as int),
            stack_ok(*old(self), old(stack)@, om, tt, ox as int, oy as int),
            cx < old(self).field_width,
            cy < old(self).field_height,
            nx < old(self).field_width,
            ny < old(self).field_height,
            chebyshev_adjacent(cx as int, cy as int, nx as int, ny as int),
            old(self).mask_field@[cell_index(old(self).field_width as int, cx as int, cy as int)]
                is Open,
            is_fill_cell(tt[cell_index(old(self).field_width as int, cx as int, cy as int)]),
            (cx == ox && cy == oy) || reaches(
                tt,
                om,
                old(self).field_width as int,
                old(self).field_height as int,
                ox as int,
                oy as int,
                cx as int,
                cy as int,
            ),
        ensures
            same_but_mask(*old(self), *final(self)),
            flood_inv(*final(self), om, tt, ox as int, oy as int),
            stack_ok(*final(self), final(stack)@, om, tt, ox as int, oy as int),
            (final(self).mask_field@ == old(self).mask_field@ && final(stack)@ == old(stack)@) || (
            closed_total(final(self).mask_field@) < closed_total(old(self).mask_field@)),
            can_step(
                tt,
                om,
                old(self).field_width as int,
                old(self).field_height as int,
                cx as int,
                cy as int,
                nx as int,
                ny as int,
            ) ==> !(final(self).mask_field@[cell_index(
                old(self).field_width as int,
                nx as int,
                ny as int,
            )] is Closed),
            forall|i: int|
                0 <= i < old(self).mask_field@.len() && !(old(self).mask_field@[i] is Closed)
                    ==> !(#[trigger] final(self).mask_field@[i] is Closed),
            forall|e: (usize, usize)| old(stack)@.contains(e) ==> final(stack)@.contains(e),
            flood_done_except(*old(self), old(stack)@.push((cx, cy)), om, tt, ox as int, oy as int)
                ==> flood_done_except(
                *final(self),
                final(stack)@.push((cx, cy)),
                om,
                tt,
                ox as int,
                oy as int,
            ),
    {
        let w = self.field_width;
        let h = self.field_height;
        proof {
            assert forall|a: int, b: int| in_bounds(w as int, h as int, a, b) implies 0
                <= #[trigger] cell_index(w as int, a, b) < (w as int) * (h as int) by {
                lemma_cell_index_bounds(w as int, h as int, a, b);
            }
        }
        let nidx = ny * w + nx;
        let cidx = cy * w + cx;
        let nm = self.mask_field[nidx];
        if nm == Cell::Closed {
            let ct = self.under_field[cidx];
            let nt = self.under_field[nidx];
            if matches!(ct, Cell::Empty) || matches!(nt, Cell::Empty) {
                proof {
                    lemma_count_update(self.mask_field@, closed_pred(), nidx as int, Cell::Open);
                    // The neighbour is hidden now, so it was hidden at
                    // the start of the cascade, and it is not the origin.
                    assert(om[nidx as int] is Closed);
                    assert(!(nx == ox && ny == oy));
                    assert(can_step(
                        tt,
                        om,
                        w as int,
                        h as int,
                        cx as int,
                        cy as int,
                        nx as int,
                        ny as int,
                    ));
                    if cx == ox && cy == oy {
                        lemma_reaches_origin(tt, om, w as int, h as int, ox as int, oy as int);
                    }
                    lemma_reaches_step(
                        tt,
                        om,
                        w as int,
                        h as int,
                        ox as int,
                        oy as int,
                        cx as int,
                        cy as int,
                        nx as int,
                        ny as int,
                    );
                }
                self.mask_field[nidx] = Cell::Open;
                proof {
                    assert forall|a: int, b: int|
                        in_bounds(w as int, h as int, a, b) && (a != nx || b != ny) implies #[trigger] cell_index(
                        w as int,
                        a,
                        b,
                    ) != nidx as int by {
                        lemma_cell_index_injective(w as int, h as int, a, b, nx as int, ny as int);
                    }
                }
                if matches!(nt, Cell::Empty | Cell::Number(_)) {
                    let ghost st0 = stack@;
                    stack.push((nx, ny));
                    proof {
                        assert(forall|e: (usize, usize)|
                            st0.contains(e) ==> stack@.contains(e)) by {
                            assert(forall|k: int|
                                0 <= k < st0.len() ==> stack@[k] == #[trigger] st0[k]);
                        }
                        assert(stack@[st0.len() as int] == (nx, ny));
                        assert(stack@.contains((nx, ny)));
                    }
                }
            }
        }
        proof {
            let wi = w as int;
            let hi = h as int;
            if flood_done_except(*old(self), old(stack)@.push((cx, cy)), om, tt, ox as int, oy as int) {
                assert forall|dx: int, dy: int, nx2: int, ny2: int|
                    (in_bounds(wi, hi, dx, dy) && self.mask_field@[cell_index(wi, dx, dy)] is Open
                        && is_fill_cell(tt[cell_index(wi, dx, dy)]) && (om[cell_index(wi, dx, dy)]
                        is Closed || (dx == ox && dy == oy)) && !stack@.push((cx, cy)).contains(
                        ((dx as usize), (dy as usize)),
                    ) && #[trigger] can_step(tt, om, wi, hi, dx, dy, nx2, ny2)) implies !(
                self.mask_field@[cell_index(wi, nx2, ny2)] is Closed) by {
                    let d = ((dx as usize), (dy as usize));
                    lemma_push_contains(stack@, (cx, cy), d);
                    lemma_push_contains(old(stack)@, (cx, cy), d);
                    lemma_cell_index_bounds(wi, hi, dx, dy);
                    lemma_cell_index_bounds(wi, hi, nx2, ny2);
                    if !(dx == nx && dy == ny) {
                        lemma_cell_index_injective(wi, hi, dx, dy, nx as int, ny as int);
                    }
                }
            }
        }
    }

    /// Expands one popped cell of the cascade worklist: tries the step
    /// into each of its up-to-8 neighbours.
    #[verifier::rlimit(100)]
    fn expand_cell(
        &mut self,
        stack: &mut Vec<(usize, usize)>,
        cx: usize,
        cy: usize,
        ox: usize,
        oy: usize,
        Ghost(om): Ghost<Seq<Cell>>,
        Ghost(tt): Ghost<Seq<Cell>>,
    )
        requires
            flood_inv(*old(self), om, tt, ox as int, oy as int),
            stack_ok(*old(self), old(stack)@, om, tt, ox as int, oy as int),
            flood_done_except(
                *old(self),
                old(stack)@.push((cx, cy)),
                om,
                tt,
                ox as int,
                oy as int,
            ),
            cx < old(self).field_width,
            cy < old(self).field_height,
            old(self).mask_field@[cell_index(old(self).field_width as int, cx as int, cy as int)]
                is Open,
            is_fill_cell(tt[cell_index(old(self).field_width as int, cx as int, cy as int)]),
            (cx == ox && cy == oy) || reaches(
                tt,
                om,
                old(self).field_width as int,
                old(self).field_height as int,
                ox as int,
                oy as int,
                cx as int,
                cy as int,
            ),
        ensures
            same_but_mask(*old(self), *final(self)),
            flood_inv(*final(self), om, tt, ox as int, oy as int),
            stack_ok(*final(self), final(stack)@, om, tt, ox as int, oy as int),
            flood_done_except(*final(self), final(stack)@, om, tt, ox as int, oy as int),
            (final(self).mask_field@ == old(self).mask_field@ && final(stack)@ == old(stack)@) || (
            closed_total(final(self).mask_field@) < closed_total(old(self).mask_field@)),
    {
        let w = self.field_width;
        let h = self.field_height;
        proof {
            lemma_cell_index_bounds(w as int, h as int, cx as int, cy as int);
        }
        if cx > 0 && cy > 0 {
            self.reveal_neighbor(stack, cx, cy, cx - 1, cy - 1, ox, oy, Ghost(om), Ghost(tt));
        }
        if cy > 0 {
            self.reveal_neighbor(stack, cx, cy, cx, cy - 1, ox, oy, Ghost(om), Ghost(tt));
        }
        if cx + 1 < w && cy > 0 {
            self.reveal_neighbor(stack, cx, cy, cx + 1, cy - 1, ox, oy, Ghost(om), Ghost(tt));
        }
        if cx > 0 {
            self.reveal_neighbor(stack, cx, cy, cx - 1, cy, ox, oy, Ghost(om), Ghost(tt));
        }
        if cx + 1 < w {
            self.reveal_neighbor(stack, cx, cy, cx + 1, cy, ox, oy, Ghost(om), Ghost(tt));
        }
        if cx > 0 && cy + 1 < h {
            self.reveal_neighbor(stack, cx, cy, cx - 1, cy + 1, ox, oy, Ghost(om), Ghost(tt));
        }
        if cy + 1 < h {
            self.reveal_neighbor(stack, cx, cy, cx, cy + 1, ox, oy, Ghost(om), Ghost(tt));
        }
        if cx + 1 < w && cy + 1 < h {
            self.reveal_neighbor(stack, cx, cy, cx + 1, cy + 1, ox, oy, Ghost(om), Ghost(tt));
        }
        proof {
            let wi = w as int;
            let hi = h as int;
            assert(flood_done_except(*self, stack@.push((cx, cy)), om, tt, ox as int, oy as int));
            assert forall|dx: int, dy: int, nx2: int, ny2: int|
                (in_bounds(wi, hi, dx, dy) && self.mask_field@[cell_index(wi, dx, dy)] is Open
                    && is_fill_cell(tt[cell_index(wi, dx, dy)]) && (om[cell_index(wi, dx, dy)]
                    is Closed || (dx == ox && dy == oy)) && !stack@.contains(
                    ((dx as usize), (dy as usize)),
                ) && #[trigger] can_step(tt, om, wi, hi, dx, dy, nx2, ny2)) implies !(
            self.mask_field@[cell_index(wi, nx2, ny2)] is Closed) by {
                lemma_cell_index_bounds(wi, hi, nx2, ny2);
                lemma_cell_index_bounds(wi, hi, dx, dy);
                lemma_push_contains(stack@, (cx, cy), ((dx as usize), (dy as usize)));
                if dx == cx && dy == cy {
                    assert(cx as int - 1 <= nx2 <= cx as int + 1);
                    assert(cy as int - 1 <= ny2 <= cy as int + 1);
                }
            }
        }
    }

    /// Reveals `(x, y)` and returns the truth value there. The first
    /// reveal of a game first lays the board out: it reserves the safe
    /// zone around `(x, y)`, places `mines_count` mines at random on the
    /// remaining cells, and resolves all numbers. Revealing an `Empty`
    /// or `Number` cell then cascades: the mask afterwards shows revealed
    /// exactly the cells that were revealed before, the origin, and the
    /// cells the cascade relation `reaches` reaches from the origin.
    pub fn open(&mut self, x: usize, y: usize) -> (res: Cell)
        requires
            old(self).wf(),
            x < old(self).field_width,
            y < old(self).field_height,
            !old(self).is_mines_placed ==> forall|i: int|
                0 <= i < old(self).total() ==> #[trigger] old(self).under_field@[i]
                    is Uninitialized,
        ensures
            final(self).wf(),
            final(self).is_mines_placed,
            final(self).field_width == old(self).field_width,
            final(self).field_height == old(self).field_height,
            final(self).is_play == old(self).is_play,
            final(self).mines_count == old(self).mines_count,
            final(self).marked_mines_count == old(self).marked_mines_count,
            final(self).safe_zone_radius == old(self).safe_zone_radius,
            final(self).mask_field@.len() == old(self).mask_field@.len(),
            old(self).is_mines_placed ==> final(self).under_field@ == old(self).under_field@,
            mine_total(final(self).under_field@) == final(self).mines_count,
            !old(self).is_mines_placed ==> (forall|a: int, b: int|
                final(self).sq_in_bounds(a, b) && -old(self).safe_zone_radius <= a - x <= old(
                    self,
                ).safe_zone_radius && -old(self).safe_zone_radius <= b - y <= old(
                    self,
                ).safe_zone_radius ==> !is_mine_cell(#[trigger] final(self).truth_at(a, b))),
            final(self).mask_at(x as int, y as int) is Open,
            mask_monotone(
                old(self).mask_field@,
                final(self).mask_field@,
                final(self).field_width as int,
                final(self).field_height as int,
                x as int,
                y as int,
            ),
            forall|a: int, b: int|
                final(self).sq_in_bounds(a, b) ==> ((#[trigger] final(self).mask_at(a, b)
                    is Open) <==> (old(self).mask_at(a, b) is Open || (a == x && b == y)
                    || reaches(
                    final(self).under_field@,
                    old(self).mask_field@,
                    final(self).field_width as int,
                    final(self).field_height as int,
                    x as int,
                    y as int,
                    a,
                    b,
                ))),
            res == final(self).truth_at(x as int, y as int),
    {
        let ghost om = self.mask_field@;
        let w = self.field_width;
        let h = self.field_height;
        let ghost wi = w as int;
        let ghost hi = h as int;
        proof {
            lemma_cell_index_bounds(wi, hi, x as int, y as int);
        }
        let oidx = y * w + x;
        self.mask_field[oidx] = Cell::Open;
        if !self.is_mines_placed {
            proof {
                lemma_count_all(self.under_field@, uninit_pred());
                lemma_count_zero_iff(self.under_field@, mine_pred());
                lemma_count_zero_iff(self.under_field@, disarmed_pred());
            }
            self.prepare_save_zone(x, y);
            let ghost s1 = *self;
            let ghost z = self.under_field@;
            proof {
                lemma_count_zero_iff(self.under_field@, mine_pred());
            }
            self.place_mines();
            let ghost gm = self.under_field@;
            self.place_numbers();
            proof {
                lemma_numbered_grid_correct(gm, wi, hi);
                lemma_count_pointwise(self.under_field@, gm, mine_pred());
            }
            self.is_mines_placed = true;
            proof {
                let rad = self.safe_zone_radius as int;
                assert forall|a: int, b: int|
                    in_bounds(wi, hi, a, b) && -rad <= a - x <= rad && -rad <= b - y
                        <= rad implies !is_mine_cell(
                    #[trigger] self.under_field@[cell_index(wi, a, b)],
                ) by {
                    lemma_cell_index_bounds(wi, hi, a, b);
                    assert(s1.truth_at(a, b) == z[cell_index(wi, a, b)]);
                    assert(z[cell_index(wi, a, b)] is Booked);
                    assert(gm[cell_index(wi, a, b)] is Booked);
                }
            }
        }
        let ghost tt = self.under_field@;
        let ghost pre2 = *self;
        proof {
            assert forall|a: int, b: int|
                in_bounds(wi, hi, a, b) && !(a == x && b == y) implies #[trigger] cell_index(
                wi,
                a,
                b,
            ) != oidx as int by {
                lemma_cell_index_injective(wi, hi, a, b, x as int, y as int);
            }
            assert forall|a: int, b: int| in_bounds(wi, hi, a, b) implies 0 <= #[trigger] cell_index(
                wi,
                a,
                b,
            ) < wi * hi by {
                lemma_cell_index_bounds(wi, hi, a, b);
            }
            assert(self.mask_field@ == om.update(oidx as int, Cell::Open));
            assert(flood_inv(*self, om, tt, x as int, y as int));
        }
        let c0 = self.under_field[oidx];
        if matches!(c0, Cell::Empty | Cell::Number(_)) {
            let mut stack: Vec<(usize, usize)> = Vec::new();
            stack.push((x, y));
            proof {
                assert(stack@[0] == (x, y));
                assert(stack@.contains((x, y)));
                assert forall|dx: int, dy: int, nx2: int, ny2: int|
                    (in_bounds(wi, hi, dx, dy) && self.mask_field@[cell_index(wi, dx, dy)] is Open
                        && is_fill_cell(tt[cell_index(wi, dx, dy)]) && (om[cell_index(wi, dx, dy)]
                        is Closed || (dx == x && dy == y)) && !stack@.contains(
                        ((dx as usize), (dy as usize)),
                    ) && #[trigger] can_step(tt, om, wi, hi, dx, dy, nx2, ny2)) implies !(
                self.mask_field@[cell_index(wi, nx2, ny2)] is Closed) by {
                    lemma_cell_index_bounds(wi, hi, dx, dy);
                    if dx == x && dy == y {
                        assert(stack@.contains(((dx as usize), (dy as usize))));
                    }
                }
                assert(flood_done_except(*self, stack@, om, tt, x as int, y as int));
            }
            while stack.len() != 0
                invariant
                    same_but_mask(pre2, *self),
                    flood_inv(*self, om, tt, x as int, y as int),
                    stack_ok(*self, stack@, om, tt, x as int, y as int),
                    flood_done_except(*self, stack@, om, tt, x as int, y as int),
                decreases closed_total(self.mask_field@), stack@.len(),
            {
                let ghost st0 = stack@;
                let p = stack.pop().unwrap();
                proof {
                    assert(stack@.push(p) =~= st0);
                }
                self.expand_cell(&mut stack, p.0, p.1, x, y, Ghost(om), Ghost(tt));
            }
            proof {
                assert(forall|e: (usize, usize)| !stack@.contains(e));
                assert(flood_done(tt, om, self.mask_field@, wi, hi, x as int, y as int));
            }
        } else {
            proof {
                assert(!is_fill_cell(tt[cell_index(wi, x as int, y as int)]));
                assert(flood_done(tt, om, self.mask_field@, wi, hi, x as int, y as int));
            }
        }
        proof {
            assert(flood_done(tt, om, self.mask_field@, wi, hi, x as int, y as int));
            assert forall|a: int, b: int| self.sq_in_bounds(a, b) implies ((
            #[trigger] self.mask_at(a, b) is Open) <==> (om[cell_index(wi, a, b)] is Open || (a == x
                && b == y) || reaches(tt, om, wi, hi, x as int, y as int, a, b))) by {
                lemma_cell_index_bounds(wi, hi, a, b);
                if a == x && b == y {
                } else {
                    lemma_cell_index_injective(wi, hi, a, b, x as int, y as int);
                    if reaches(tt, om, wi, hi, x as int, y as int, a, b) {
                        lemma_flood_fill_coverage(
                            tt,
                            om,
                            self.mask_field@,
                            wi,
                            hi,
                            x as int,
                            y as int,
                            a,
                            b,
                        );
                    }
                }
            }
        }
        self.under_field[oidx]
    }
}

/// True iff the cell carries a mine, armed or disarmed.
fn is_mine_like(c: Cell) -> (b: bool)
    ensures
        b == is_mine_cell(c),
{
    matches!(c, Cell::Mine | Cell::DeactivatedMine)
}

/// Everything but the truth grid is equal: dimensions, mask grid and
/// all counters and flags.
pub open spec fn same_shell(pre: State, post: State) -> bool {
    &&& post.field_width == pre.field_width
    &&& post.field_height == pre.field_height
    &&& post.mask_field@ == pre.mask_field@
    &&& post.is_play == pre.is_play
    &&& post.is_mines_placed == pre.is_mines_placed
    &&& post.mines_count == pre.mines_count
    &&& post.marked_mines_count == pre.marked_mines_count
    &&& post.safe_zone_radius == pre.safe_zone_radius
}

/// The truth grid after number assignment: every unresolved or booked
/// cell becomes `Empty` or `Number` by its exact neighbour mine count;
/// every other cell is left alone.
pub open spec fn numbered_cell(t: Seq<Cell>, w: int, h: int, i: int) -> Cell {
    if t[i] is Uninitialized || t[i] is Booked {
        if adjacent_mines(t, w, h, i % w, i / w) == 0 {
            Cell::Empty
        } else {
            Cell::Number(adjacent_mines(t, w, h, i % w, i / w) as u8)
        }
    } else {
        t[i]
    }
}

pub open spec fn numbered_grid(t: Seq<Cell>, w: int, h: int) -> Seq<Cell> {
    Seq::new(t.len(), |i: int| numbered_cell(t, w, h, i))
}

/// The truth grid and the remaining demand after scripted mine
/// placement: each position in turn is taken if its cell is still
/// `Uninitialized` and skipped otherwise, until `need` mines are down
/// or the script runs out.
pub open spec fn scripted_mines(t: Seq<Cell>, w: int, ps: Seq<(usize, usize)>, need: int) -> (
    Seq<Cell>,
    int,
)
    decreases ps.len(),
{
    if need <= 0 || ps.len() == 0 {
        (t, need)
    } else {
        let i = cell_index(w, ps[0].0 as int, ps[0].1 as int);
        if t[i] is Uninitialized {
            scripted_mines(t.update(i, Cell::Mine), w, ps.drop_first(), need - 1)
        } else {
            scripted_mines(t, w, ps.drop_first(), need)
        }
    }
}

/// Numbering a grid without `Empty`/`Number` cells yields correct
/// numbers everywhere and keeps the mine layout pointwise.
pub proof fn lemma_numbered_grid_correct(t: Seq<Cell>, w: int, h: int)
    requires
        t.len() == w * h,
        0 <= w,
        0 <= h,
        forall|i: int| 0 <= i < t.len() ==> is_truth_cell(#[trigger] t[i]),
        forall|i: int| 0 <= i < t.len() ==> !is_fill_cell(#[trigger] t[i]),
    ensures
        numbered_grid(t, w, h).len() == t.len(),
        forall|i: int|
            0 <= i < t.len() ==> is_mine_cell(#[trigger] numbered_grid(t, w, h)[i])
                == is_mine_cell(t[i]),
        forall|i: int| 0 <= i < t.len() ==> is_placed_cell(#[trigger] numbered_grid(t, w, h)[i]),
        numbers_correct(numbered_grid(t, w, h), w, h),
{
    let tn = numbered_grid(t, w, h);
    assert forall|x: int, y: int| #[trigger] in_bounds(w, h, x, y) implies {
        let c = tn[cell_index(w, x, y)];
        &&& (c is Empty ==> adjacent_mines(tn, w, h, x, y) == 0)
        &&& (c matches Cell::Number(n) ==> 1 <= n <= 8 && n == adjacent_mines(tn, w, h, x, y))
    } by {
        lemma_cell_index_bounds(w, h, x, y);
        let i = cell_index(w, x, y);
        vstd::arithmetic::div_mod::lemma_fundamental_div_mod_converse(i, w, y, x);
        lemma_adjacent_mines_pointwise(t, tn, w, h, x, y);
        assert(adjacent_mines(t, w, h, x, y) <= 8);
    }
}

/// Relies on rand::Rng::gen_range on rand::rngs::ThreadRng: returns a
/// uniformly distributed value below `n`.
#[verifier::external_body]
fn random_below(n: usize) -> (r: usize)
    requires
        n > 0,
    ensures
        r < n,
{
    rand::Rng::gen_range(&mut rand::thread_rng(), 0..n)
}

pub open spec fn closed_pred() -> spec_fn(Cell) -> bool {
    |c: Cell| c is Closed
}

/// Mask cells still hidden from the player.
pub open spec fn closed_total(s: Seq<Cell>) -> nat {
    count_cells(s, closed_pred())
}

/// Everything but the mask grid is equal: dimensions, truth grid and
/// all counters and flags.
pub open spec fn same_but_mask(pre: State, post: State) -> bool {
    &&& post.field_width == pre.field_width
    &&& post.field_height == pre.field_height
    &&& post.under_field@ == pre.under_field@
    &&& post.is_play == pre.is_play
    &&& post.is_mines_placed == pre.is_mines_placed
    &&& post.mines_count == pre.mines_count
    &&& post.marked_mines_count == pre.marked_mines_count
    &&& post.safe_zone_radius == pre.safe_zone_radius
}

/// One step of the reveal cascade on truth grid `t`, against the mask
/// `om` as it stood when the reveal began: from a revealed `Empty` cell
/// into any adjacent hidden cell, or from a revealed `Number` cell into
/// an adjacent hidden `Empty` cell.
pub open spec fn can_step(
    t: Seq<Cell>,
    om: Seq<Cell>,
    w: int,
    h: int,
    fx: int,
    fy: int,
    tx: int,
    ty: int,
) -> bool {
    &&& in_bounds(w, h, fx, fy)
    &&& in_bounds(w, h, tx, ty)
    &&& chebyshev_adjacent(fx, fy, tx, ty)
    &&& om[cell_index(w, tx, ty)] is Closed
    &&& (t[cell_index(w, fx, fy)] is Empty || (t[cell_index(w, fx, fy)] is Number && t[cell_index(
        w,
        tx,
        ty,
    )] is Empty))
}

/// `(x, y)` is revealed within `n` cascade steps from the origin.
pub open spec fn reaches_in(
    t: Seq<Cell>,
    om: Seq<Cell>,
    w: int,
    h: int,
    ox: int,
    oy: int,
    x: int,
    y: int,
    n: nat,
) -> bool
    decreases n,
{
    (x == ox && y == oy) || (n > 0 && exists|px: int, py: int|
        #[trigger] can_step(t, om, w, h, px, py, x, y) && reaches_in(
            t,
            om,
            w,
            h,
            ox,
            oy,
            px,
            py,
            (n - 1) as nat,
        ))
}

/// `(x, y)` is revealed by the cascade that an `open` at `(ox, oy)`
/// starts: the region the flood fill owes the player.
pub open spec fn reaches(
    t: Seq<Cell>,
    om: Seq<Cell>,
    w: int,
    h: int,
    ox: int,
    oy: int,
    x: int,
    y: int,
) -> bool {
    exists|n: nat| reaches_in(t, om, w, h, ox, oy, x, y, n)
}

pub proof fn lemma_reaches_origin(t: Seq<Cell>, om: Seq<Cell>, w: int, h: int, ox: int, oy: int)
    ensures
        reaches(t, om, w, h, ox, oy, ox, oy),
{
    assert(reaches_in(t, om, w, h, ox, oy, ox, oy, 0));
}

pub proof fn lemma_reaches_step(
    t: Seq<Cell>,
    om: Seq<Cell>,
    w: int,
    h: int,
    ox: int,
    oy: int,
    px: int,
    py: int,
    x: int,
    y: int,
)
    requires
        reaches(t, om, w, h, ox, oy, px, py),
        can_step(t, om, w, h, px, py, x, y),
    ensures
        reaches(t, om, w, h, ox, oy, x, y),
{
    let n = choose|n: nat| reaches_in(t, om, w, h, ox, oy, px, py, n);
    assert(reaches_in(t, om, w, h, ox, oy, x, y, n + 1));
}

/// No revealed cell of the cascade still has a step it owes: every
/// possible step out of a revealed fill cell leads to a cell that is no
/// longer hidden.
pub open spec fn flood_done(
    t: Seq<Cell>,
    om: Seq<Cell>,
    m: Seq<Cell>,
    w: int,
    h: int,
    ox: int,
    oy: int,
) -> bool {
    forall|dx: int, dy: int, nx: int, ny: int|
        (in_bounds(w, h, dx, dy) && m[cell_index(w, dx, dy)] is Open && is_fill_cell(
            t[cell_index(w, dx, dy)],
        ) && (om[cell_index(w, dx, dy)] is Closed || (dx == ox && dy == oy)) && #[trigger] can_step(
            t,
            om,
            w,
            h,
            dx,
            dy,
            nx,
            ny,
        )) ==> !(m[cell_index(w, nx, ny)] is Closed)
}

/// The mask only moved hidden cells to revealed ones, next to the mask
/// it started from.
pub open spec fn mask_monotone(
    om: Seq<Cell>,
    m: Seq<Cell>,
    w: int,
    h: int,
    ox: int,
    oy: int,
) -> bool {
    forall|i: int|
        0 <= i < w * h && i != cell_index(w, ox, oy) ==> #[trigger] m[i] == om[i] || (om[i]
            is Closed && m[i] is Open)
}

proof fn lemma_reaches_in_open(
    t: Seq<Cell>,
    om: Seq<Cell>,
    m: Seq<Cell>,
    w: int,
    h: int,
    ox: int,
    oy: int,
    x: int,
    y: int,
    n: nat,
)
    requires
        om.len() == w * h,
        m.len() == w * h,
        t.len() == w * h,
        in_bounds(w, h, ox, oy),
        in_bounds(w, h, x, y),
        m[cell_index(w, ox, oy)] is Open,
        mask_monotone(om, m, w, h, ox, oy),
        flood_done(t, om, m, w, h, ox, oy),
        reaches_in(t, om, w, h, ox, oy, x, y, n),
    ensures
        m[cell_index(w, x, y)] is Open,
        (x == ox && y == oy) || om[cell_index(w, x, y)] is Closed,
    decreases n,
{
    if x == ox && y == oy {
    } else {
        let (px, py): (int, int) = choose|px: int, py: int|
            #[trigger] can_step(t, om, w, h, px, py, x, y) && reaches_in(
                t,
                om,
                w,
                h,
                ox,
                oy,
                px,
                py,
                (n - 1) as nat,
            );
        lemma_reaches_in_open(t, om, m, w, h, ox, oy, px, py, (n - 1) as nat);
        lemma_cell_index_bounds(w, h, x, y);
        lemma_cell_index_bounds(w, h, px, py);
        lemma_cell_index_injective(w, h, x, y, ox, oy);
        assert(!(m[cell_index(w, x, y)] is Closed));
    }
}

/// Flood-fill coverage: once a reveal cascade is done — its origin is
/// revealed and no revealed fill cell has a pending step — every cell
/// the cascade relation reaches from the origin stands revealed.
pub proof fn lemma_flood_fill_coverage(
    t: Seq<Cell>,
    om: Seq<Cell>,
    m: Seq<Cell>,
    w: int,
    h: int,
    ox: int,
    oy: int,
    x: int,
    y: int,
)
    requires
        om.len() == w * h,
        m.len() == w * h,
        t.len() == w * h,
        in_bounds(w, h, ox, oy),
        in_bounds(w, h, x, y),
        m[cell_index(w, ox, oy)] is Open,
        mask_monotone(om, m, w, h, ox, oy),
        flood_done(t, om, m, w, h, ox, oy),
        reaches(t, om, w, h, ox, oy, x, y),
    ensures
        m[cell_index(w, x, y)] is Open,
{
    let n = choose|n: nat| reaches_in(t, om, w, h, ox, oy, x, y, n);
    lemma_reaches_in_open(t, om, m, w, h, ox, oy, x, y, n);
}

proof fn lemma_reopen_reaches_in(
    t: Seq<Cell>,
    om: Seq<Cell>,
    m: Seq<Cell>,
    w: int,
    h: int,
    ox: int,
    oy: int,
    x: int,
    y: int,
    n: nat,
)
    requires
        om.len() == w * h,
        m.len() == w * h,
        t.len() == w * h,
        in_bounds(w, h, ox, oy),
        m[cell_index(w, ox, oy)] is Open,
        mask_monotone(om, m, w, h, ox, oy),
        flood_done(t, om, m, w, h, ox, oy),
        reaches_in(t, m, w, h, ox, oy, x, y, n),
    ensures
        x == ox && y == oy,
    decreases n,
{
    if !(x == ox && y == oy) {
        let (px, py): (int, int) = choose|px: int, py: int|
            #[trigger] can_step(t, m, w, h, px, py, x, y) && reaches_in(
                t,
                m,
                w,
                h,
                ox,
                oy,
                px,
                py,
                (n - 1) as nat,
            );
        lemma_reopen_reaches_in(t, om, m, w, h, ox, oy, px, py, (n - 1) as nat);
        lemma_cell_index_bounds(w, h, x, y);
        lemma_cell_index_injective(w, h, x, y, ox, oy);
        assert(om[cell_index(w, x, y)] is Closed);
        assert(can_step(t, om, w, h, ox, oy, x, y));
        assert(false);
    }
}

/// Re-opening reveals nothing: once a reveal cascade from the origin is
/// done, the cascade relation taken against the new mask reaches no
/// cell but the origin itself, so a second `open` there changes no mask
/// cell.
pub proof fn lemma_reopen_reaches_only_origin(
    t: Seq<Cell>,
    om: Seq<Cell>,
    m: Seq<Cell>,
    w: int,
    h: int,
    ox: int,
    oy: int,
    x: int,
    y: int,
)
    requires
        om.len() == w * h,
        m.len() == w * h,
        t.len() == w * h,
        in_bounds(w, h, ox, oy),
        m[cell_index(w, ox, oy)] is Open,
        mask_monotone(om, m, w, h, ox, oy),
        flood_done(t, om, m, w, h, ox, oy),
        reaches(t, m, w, h, ox, oy, x, y),
    ensures
        x == ox && y == oy,
{
    let n = choose|n: nat| reaches_in(t, m, w, h, ox, oy, x, y, n);
    lemma_reopen_reaches_in(t, om, m, w, h, ox, oy, x, y, n);
}

/// The state of the board while its reveal cascade runs: mines placed,
/// the truth grid frozen at `tt`, the origin revealed, the mask moved
/// only from `om` by hidden-to-revealed steps, and every newly revealed
/// cell reached by the cascade relation.
pub open spec fn flood_inv(s: State, om: Seq<Cell>, tt: Seq<Cell>, ox: int, oy: int) -> bool {
    let w = s.field_width as int;
    let h = s.field_height as int;
    &&& s.wf()
    &&& s.is_mines_placed
    &&& s.under_field@ == tt
    &&& om.len() == w * h
    &&& in_bounds(w, h, ox, oy)
    &&& s.mask_field@[cell_index(w, ox, oy)] is Open
    &&& mask_monotone(om, s.mask_field@, w, h, ox, oy)
    &&& (forall|a: int, b: int|
        in_bounds(w, h, a, b) && !(a == ox && b == oy) && om[#[trigger] cell_index(w, a, b)]
            is Closed && s.mask_field@[cell_index(w, a, b)] is Open ==> reaches(
            tt,
            om,
            w,
            h,
            ox,
            oy,
            a,
            b,
        ))
}

/// Every cell waiting on the worklist is revealed, expandable, and
/// reached by the cascade.
pub open spec fn stack_ok(
    s: State,
    st: Seq<(usize, usize)>,
    om: Seq<Cell>,
    tt: Seq<Cell>,
    ox: int,
    oy: int,
) -> bool {
    let w = s.field_width as int;
    let h = s.field_height as int;
    forall|k: int|
        0 <= k < st.len() ==> {
            let a = (#[trigger] st[k]).0 as int;
            let b = st[k].1 as int;
            &&& in_bounds(w, h, a, b)
            &&& s.mask_field@[cell_index(w, a, b)] is Open
            &&& is_fill_cell(tt[cell_index(w, a, b)])
            &&& ((a == ox && b == oy) || (om[cell_index(w, a, b)] is Closed && reaches(
                tt,
                om,
                w,
                h,
                ox,
                oy,
                a,
                b,
            )))
        }
}

/// `flood_done`, except that cells still waiting on the worklist may
/// have pending steps.
pub open spec fn flood_done_except(
    s: State,
    st: Seq<(usize, usize)>,
    om: Seq<Cell>,
    tt: Seq<Cell>,
    ox: int,
    oy: int,
) -> bool {
    let w = s.field_width as int;
    let h = s.field_height as int;
    forall|dx: int, dy: int, nx: int, ny: int|
        (in_bounds(w, h, dx, dy) && s.mask_field@[cell_index(w, dx, dy)] is Open && is_fill_cell(
            tt[cell_index(w, dx, dy)],
        ) && (om[cell_index(w, dx, dy)] is Closed || (dx == ox && dy == oy)) && !st.contains(
            ((dx as usize), (dy as usize)),
        ) && #[trigger] can_step(tt, om, w, h, dx, dy, nx, ny)) ==> !(s.mask_field@[cell_index(
            w,
            nx,
            ny,
        )] is Closed)
}

pub proof fn lemma_push_contains(st: Seq<(usize, usize)>, e: (usize, usize), d: (usize, usize))
    ensures
        st.push(e).contains(d) <==> (st.contains(d) || d == e),
{
    if st.push(e).contains(d) {
        let k = choose|k: int| 0 <= k < st.push(e).len() && st.push(e)[k] == d;
        if k < st.len() {
            assert(st[k] == d);
        }
    }
    if st.contains(d) {
        let k = choose|k: int| 0 <= k < st.len() && st[k] == d;
        assert(st.push(e)[k] == d);
    }
    if d == e {
        assert(st.push(e)[st.len() as int] == e);
    }
}

/// How one `mark` call relates the state before it to the state after
/// it: the exact toggle on the mask, the mine arming toggle on the
/// truth grid, and the counter move; everything else is unchanged.
pub open spec fn mark_rel(pre: State, post: State, x: int, y: int) -> bool {
    let i = cell_index(pre.field_width as int, x, y);
    &&& post.field_width == pre.field_width
    &&& post.field_height == pre.field_height
    &&& post.is_play == pre.is_play
    &&& post.is_mines_placed == pre.is_mines_placed
    &&& post.mines_count == pre.mines_count
    &&& post.safe_zone_radius == pre.safe_zone_radius
    &&& match pre.mask_field@[i] {
        Cell::Closed => {
            &&& post.mask_field@ == pre.mask_field@.update(i, Cell::Mark)
            &&& if pre.under_field@[i] is Mine {
                &&& post.under_field@ == pre.under_field@.update(i, Cell::DeactivatedMine)
                &&& post.marked_mines_count == pre.marked_mines_count + 1
            } else {
                &&& post.under_field@ == pre.under_field@
                &&& post.marked_mines_count == pre.marked_mines_count
            }
        },
        Cell::Mark => {
            &&& post.mask_field@ == pre.mask_field@.update(i, Cell::Closed)
            &&& if pre.under_field@[i] is DeactivatedMine {
                &&& post.under_field@ == pre.under_field@.update(i, Cell::Mine)
                &&& post.marked_mines_count == pre.marked_mines_count - 1
            } else {
                &&& post.under_field@ == pre.under_field@
                &&& post.marked_mines_count == pre.marked_mines_count
            }
        },
        _ => {
            &&& post.mask_field@ == pre.mask_field@
            &&& post.under_field@ == pre.under_field@
            &&& post.marked_mines_count == pre.marked_mines_count
        },
    }
}

/// How one `question` call relates the state before it to the state
/// after it.
pub open spec fn question_rel(pre: State, post: State, x: int, y: int) -> bool {
    let i = cell_index(pre.field_width as int, x, y);
    &&& post.field_width == pre.field_width
    &&& post.field_height == pre.field_height
    &&& post.is_play == pre.is_play
    &&& post.is_mines_placed == pre.is_mines_placed
    &&& post.mines_count == pre.mines_count
    &&& post.marked_mines_count == pre.marked_mines_count
    &&& post.safe_zone_radius == pre.safe_zone_radius
    &&& post.under_field@ == pre.under_field@
    &&& match pre.mask_field@[i] {
        Cell::Closed => post.mask_field@ == pre.mask_field@.update(i, Cell::Question),
        Cell::Question => post.mask_field@ == pre.mask_field@.update(i, Cell::Closed),
        _ => post.mask_field@ == pre.mask_field@,
    }
}

/// Flagging a hidden cell and unflagging it again restores the truth
/// grid, the mask grid and the flagged-mine counter exactly.
pub proof fn lemma_mark_unmark_restores(s0: State, s1: State, s2: State, x: int, y: int)
    requires
        s0.wf(),
        s0.sq_in_bounds(x, y),
        s0.mask_at(x, y) is Closed,
        mark_rel(s0, s1, x, y),
        mark_rel(s1, s2, x, y),
    ensures
        s2.under_field@ == s0.under_field@,
        s2.mask_field@ == s0.mask_field@,
        s2.marked_mines_count == s0.marked_mines_count,
{
    let w = s0.field_width as int;
    let h = s0.field_height as int;
    let i = cell_index(w, x, y);
    lemma_cell_index_bounds(w, h, x, y);
    assert(s1.mask_field@[i] is Mark);
    assert(s2.mask_field@ =~= s0.mask_field@);
    if s0.under_field@[i] is Mine {
        assert(s1.under_field@[i] is DeactivatedMine);
        assert(s2.under_field@ =~= s0.under_field@);
    } else {
        assert(!(s0.under_field@[i] is DeactivatedMine));
        assert(s2.under_field@ =~= s0.under_field@);
    }
}

/// Mine count invariant: once mines are placed, the board holds exactly
/// `mines_count` mine cells, armed and disarmed together.
pub proof fn lemma_mine_count_invariant(s: State)
    requires
        s.wf(),
        s.is_mines_placed,
    ensures
        mine_total(s.under_field@) == s.mines_count,
{
}

/// Number correctness: once mines are placed, every `Empty` and every
/// `Number` cell states the exact count of mines among its in-bounds
/// neighbours.
pub proof fn lemma_numbers_correct(s: State)
    requires
        s.wf(),
        s.is_mines_placed,
    ensures
        numbers_correct(s.under_field@, s.field_width as int, s.field_height as int),
{
}

/// The win test succeeds exactly when no armed mine is left, that is,
/// when every mine on the board has been flagged into a disarmed one.
pub proof fn lemma_win_iff_all_mines_disarmed(s: State)
    requires
        s.wf(),
        s.is_mines_placed,
    ensures
        (s.marked_mines_count == s.mines_count) <==> (forall|i: int|
            0 <= i < s.total() ==> !(#[trigger] s.under_field@[i] is Mine)),
{
    lemma_mine_split(s.under_field@);
    lemma_count_zero_iff(s.under_field@, armed_pred());
    assert(forall|i: int|
        0 <= i < s.total() ==> armed_pred()(#[trigger] s.under_field@[i]) == (s.under_field@[i]
            is Mine));
}

/// A vector of `n` copies of `c`.
fn filled_grid(n: usize, c: Cell) -> (v: Vec<Cell>)
    ensures
        v@.len() == n,
        forall|i: int| 0 <= i < n ==> #[trigger] v@[i] == c,
{
    let mut v: Vec<Cell> = Vec::new();
    let mut k: usize = 0;
    while k < n
        invariant
            k <= n,
            v@.len() == k,
            forall|i: int| 0 <= i < k ==> #[trigger] v@[i] == c,
        decreases n - k,
    {
        v.push(c);
        k = k + 1;
    }
    v
}

} // verus!
