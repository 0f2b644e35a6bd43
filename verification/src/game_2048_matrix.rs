use vstd::prelude::*;
use vstd::arithmetic::div_mod::{lemma_fundamental_div_mod, lemma_fundamental_div_mod_converse, lemma_mod_bound};
use crate::line_model::{ActionModel, slide_step, slide_prefix, slide_line, slid_line,
    merge_count, lemma_slide_prefix_props, lemma_tile_stable, lemma_merge_count_push,
    lemma_merge_count_concat, lemma_merge_count_nonneg, no_adjacent_equal,
    lemma_slide_idempotent};

verus! {

/// One of the four edges that tiles can slide toward.
#[derive(Clone, Copy, Debug)]
pub enum MoveOrientation {
    Left,
    Up,
    Right,
    Down,
}

/// A discrete effect of one move, in line-local coordinates: `from` and `to`
/// are positions along the line being processed (0 is the edge slid toward).
#[derive(Clone, Copy, Debug, PartialEq, Eq, Structural)]
pub enum GameAction {
    Merge { from: usize, to: usize, merge_result: u32 },
    Move { from: usize, to: usize },
}

// ---------------------------------------------------------------------------
// Directional index mapping.
//
// Every slide direction is one affine function (i, p) |-> a*i + b*p + c from
// a line index `i` and a line-local position `p` to a linear cell index, so
// that a single line algorithm serves all four directions.
// ---------------------------------------------------------------------------

/// Coefficient of the line index in the affine cell mapping.
pub open spec fn lf_a(o: MoveOrientation, n: int) -> int {
    match o {
        MoveOrientation::Left => n,
        MoveOrientation::Up => 1,
        MoveOrientation::Right => n,
        MoveOrientation::Down => 1,
    }
}

/// Coefficient of the line-local position in the affine cell mapping.
pub open spec fn lf_b(o: MoveOrientation, n: int) -> int {
    match o {
        MoveOrientation::Left => 1,
        MoveOrientation::Up => n,
        MoveOrientation::Right => -1,
        MoveOrientation::Down => -n,
    }
}

/// Constant term of the affine cell mapping.
pub open spec fn lf_c(o: MoveOrientation, n: int) -> int {
    match o {
        MoveOrientation::Left => 0,
        MoveOrientation::Up => 0,
        MoveOrientation::Right => n - 1,
        MoveOrientation::Down => n * (n - 1),
    }
}

/// Linear cell index of position `p` of line `i`, for a grid of order `n`.
pub open spec fn line_cell(o: MoveOrientation, n: int, i: int, p: int) -> int {
    lf_a(o, n) * i + lf_b(o, n) * p + lf_c(o, n)
}

/// The line that a linear cell index belongs to, for orientation `o`.
pub open spec fn cell_line(o: MoveOrientation, n: int, idx: int) -> int {
    match o {
        MoveOrientation::Left => idx / n,
        MoveOrientation::Up => idx % n,
        MoveOrientation::Right => idx / n,
        MoveOrientation::Down => idx % n,
    }
}

/// The line-local position of a linear cell index, for orientation `o`.
pub open spec fn cell_pos(o: MoveOrientation, n: int, idx: int) -> int {
    match o {
        MoveOrientation::Left => idx % n,
        MoveOrientation::Up => idx / n,
        MoveOrientation::Right => n - 1 - idx % n,
        MoveOrientation::Down => n - 1 - idx / n,
    }
}

/// The affine mapping stays inside the grid and `cell_line`/`cell_pos`
/// invert it, so distinct (line, position) pairs reach distinct cells.
pub proof fn lemma_line_cell_bounds(o: MoveOrientation, n: int, i: int, p: int)
    requires
        0 <= i < n,
        0 <= p < n,
    ensures
        0 <= line_cell(o, n, i, p) < n * n,
        cell_line(o, n, line_cell(o, n, i, p)) == i,
        cell_pos(o, n, line_cell(o, n, i, p)) == p,
{
    let idx = line_cell(o, n, i, p);
    match o {
        MoveOrientation::Left => {
            assert(idx == i * n + p) by (nonlinear_arith)
                requires idx == n * i + 1 * p + 0;
            lemma_fundamental_div_mod_converse(idx, n, i, p);
            assert(0 <= idx < n * n) by (nonlinear_arith)
                requires idx == i * n + p, 0 <= i < n, 0 <= p < n;
        },
        MoveOrientation::Up => {
            assert(idx == p * n + i) by (nonlinear_arith)
                requires idx == 1 * i + n * p + 0;
            lemma_fundamental_div_mod_converse(idx, n, p, i);
            assert(0 <= idx < n * n) by (nonlinear_arith)
                requires idx == p * n + i, 0 <= i < n, 0 <= p < n;
        },
        MoveOrientation::Right => {
            assert(idx == i * n + (n - 1 - p)) by (nonlinear_arith)
                requires idx == n * i + (-1) * p + (n - 1);
            lemma_fundamental_div_mod_converse(idx, n, i, n - 1 - p);
            assert(0 <= idx < n * n) by (nonlinear_arith)
                requires idx == i * n + (n - 1 - p), 0 <= i < n, 0 <= p < n;
        },
        MoveOrientation::Down => {
            assert(idx == (n - 1 - p) * n + i) by (nonlinear_arith)
                requires idx == 1 * i + (-n) * p + n * (n - 1);
            lemma_fundamental_div_mod_converse(idx, n, n - 1 - p, i);
            assert(0 <= idx < n * n) by (nonlinear_arith)
                requires idx == (n - 1 - p) * n + i, 0 <= i < n, 0 <= p < n;
        },
    }
}

/// Every cell of the grid is reached by the affine mapping: the inverse pair
/// (`cell_line`, `cell_pos`) is in range and maps back to the cell.
pub proof fn lemma_cell_cover(o: MoveOrientation, n: int, idx: int)
    requires
        0 < n,
        0 <= idx < n * n,
    ensures
        0 <= cell_line(o, n, idx) < n,
        0 <= cell_pos(o, n, idx) < n,
        line_cell(o, n, cell_line(o, n, idx), cell_pos(o, n, idx)) == idx,
{
    lemma_fundamental_div_mod(idx, n);
    lemma_mod_bound(idx, n);
    assert(idx / n < n) by (nonlinear_arith)
        requires 0 < n, idx < n * n, idx == n * (idx / n) + idx % n, 0 <= idx % n;
    assert(0 <= idx / n) by (nonlinear_arith)
        requires 0 < n, 0 <= idx, idx == n * (idx / n) + idx % n, idx % n < n;
    match o {
        MoveOrientation::Left => {
            assert(n * (idx / n) + 1 * (idx % n) + 0 == idx);
        },
        MoveOrientation::Up => {
            assert(1 * (idx % n) + n * (idx / n) + 0 == idx);
        },
        MoveOrientation::Right => {
            assert(n * (idx / n) + (-1) * (n - 1 - idx % n) + (n - 1) == idx);
        },
        MoveOrientation::Down => {
            assert(1 * (idx % n) + (-n) * (n - 1 - idx / n) + n * (n - 1) == idx) by (nonlinear_arith)
                requires idx == n * (idx / n) + idx % n;
        },
    }
}

/// The linear cell index of position `p` of line `i`, computed without
/// signed arithmetic; it agrees with the affine mapping `line_cell`.
fn cell_index(o: MoveOrientation, n: usize, i: usize, p: usize) -> (idx: usize)
    requires
        i < n,
        p < n,
        (n as int) * (n as int) <= usize::MAX,
    ensures
        idx as int == line_cell(o, n as int, i as int, p as int),
        idx < n * n,
{
    proof {
        lemma_line_cell_bounds(o, n as int, i as int, p as int);
        assert(i * n + p < n * n && p * n + i < n * n && i * n + (n - 1 - p) < n * n
            && (n - 1 - p) * n + i < n * n) by (nonlinear_arith)
            requires i < n, p < n;
    }
    let ghost ni = n as int;
    let ghost ii = i as int;
    let ghost pi = p as int;
    match o {
        MoveOrientation::Left => {
            proof {
                assert(ni * ii + 1 * pi + 0 == ii * ni + pi) by (nonlinear_arith);
            }
            i * n + p
        },
        MoveOrientation::Up => {
            proof {
                assert(1 * ii + ni * pi + 0 == pi * ni + ii) by (nonlinear_arith);
            }
            p * n + i
        },
        MoveOrientation::Right => {
            proof {
                assert(ni * ii + (-1) * pi + (ni - 1) == ii * ni + (ni - 1 - pi))
                    by (nonlinear_arith);
            }
            i * n + (n - 1 - p)
        },
        MoveOrientation::Down => {
            proof {
                assert(1 * ii + (-ni) * pi + ni * (ni - 1) == (ni - 1 - pi) * ni + ii)
                    by (nonlinear_arith);
            }
            (n - 1 - p) * n + i
        },
    }
}

// ---------------------------------------------------------------------------
// The grid.
// ---------------------------------------------------------------------------

/// A square grid of tiles, stored row-major in one contiguous vector.
pub struct Game2048Matrix {
    pub storage: Vec<u32>,
    pub matrix_order: usize,
}

/// Line `i` of the grid contents `s`, for orientation `o`, as cell values in
/// line-local order (position 0 is the edge being slid toward).
pub open spec fn line_of(s: Seq<u32>, o: MoveOrientation, n: int, i: int) -> Seq<int>
    recommends n >= 0,
{
    Seq::new(n as nat, |p: int| s[line_cell(o, n, i, p)] as int)
}

/// Sum of all cell values of a grid's storage.
pub open spec fn sum_int(s: Seq<u32>) -> int
    decreases s.len(),
{
    if s.len() == 0 {
        0
    } else {
        sum_int(s.drop_last()) + s.last()
    }
}

/// Number of non-empty cells of a grid's storage.
pub open spec fn count_nonzero(s: Seq<u32>) -> int
    decreases s.len(),
{
    if s.len() == 0 {
        0
    } else {
        count_nonzero(s.drop_last()) + (if s.last() == 0 { 0int } else { 1int })
    }
}

/// Writing one cell shifts the sum by the difference of new and old value.
pub proof fn lemma_sum_update(s: Seq<u32>, j: int, v: u32)
    requires
        0 <= j < s.len(),
    ensures
        sum_int(s.update(j, v)) == sum_int(s) - s[j] + v,
    decreases s.len(),
{
    if j == s.len() - 1 {
        assert(s.update(j, v).drop_last() =~= s.drop_last());
    } else {
        assert(s.update(j, v).drop_last() =~= s.drop_last().update(j, v));
        lemma_sum_update(s.drop_last(), j, v);
    }
}

/// Writing one cell changes the count of non-empty cells by at most one,
/// exactly as the old and new value are zero or not.
pub proof fn lemma_count_update(s: Seq<u32>, j: int, v: u32)
    requires
        0 <= j < s.len(),
    ensures
        count_nonzero(s.update(j, v)) == count_nonzero(s) - (if s[j] == 0 { 0int } else { 1int })
            + (if v == 0 { 0int } else { 1int }),
    decreases s.len(),
{
    if j == s.len() - 1 {
        assert(s.update(j, v).drop_last() =~= s.drop_last());
    } else {
        assert(s.update(j, v).drop_last() =~= s.drop_last().update(j, v));
        lemma_count_update(s.drop_last(), j, v);
    }
}

/// Updating one cell of a line changes that line pointwise and leaves every
/// other line untouched.
pub proof fn lemma_line_of_update(s: Seq<u32>, o: MoveOrientation, n: int, i: int, p: int, v: u32)
    requires
        0 <= i < n,
        0 <= p < n,
        s.len() == n * n,
    ensures
        line_of(s.update(line_cell(o, n, i, p), v), o, n, i)
            =~= line_of(s, o, n, i).update(p, v as int),
        forall|idx: int|
            0 <= idx < n * n && cell_line(o, n, idx) != i
                ==> s.update(line_cell(o, n, i, p), v)[idx] == s[idx],
{
    lemma_line_cell_bounds(o, n, i, p);
    assert forall|q: int| 0 <= q < n && q != p implies line_cell(o, n, i, q) != line_cell(
        o, n, i, p,
    ) by {
        lemma_line_cell_bounds(o, n, i, q);
    }
    assert forall|q: int| 0 <= q < n implies 0 <= #[trigger] line_cell(o, n, i, q) < n * n by {
        lemma_line_cell_bounds(o, n, i, q);
    }
}

// ---------------------------------------------------------------------------
// Relating reported actions to the model.
// ---------------------------------------------------------------------------

/// The model counterpart of one reported action.
pub open spec fn action_view(a: GameAction) -> ActionModel {
    match a {
        GameAction::Merge { from, to, merge_result } => ActionModel::Merge {
            from: from as int,
            to: to as int,
            result: merge_result as int,
        },
        GameAction::Move { from, to } => ActionModel::Move { from: from as int, to: to as int },
    }
}

/// The model counterpart of a reported action sequence.
pub open spec fn acts_view(s: Seq<GameAction>) -> Seq<ActionModel> {
    s.map_values(|a: GameAction| action_view(a))
}

pub proof fn lemma_acts_view_push(s: Seq<GameAction>, a: GameAction)
    ensures
        acts_view(s.push(a)) == acts_view(s).push(action_view(a)),
{
    assert(acts_view(s.push(a)) =~= acts_view(s).push(action_view(a)));
}

pub proof fn lemma_acts_view_concat(a: Seq<GameAction>, b: Seq<GameAction>)
    ensures
        acts_view(a + b) == acts_view(a) + acts_view(b),
{
    assert(acts_view(a + b) =~= acts_view(a) + acts_view(b));
}

/// Every tile that sliding this line produces fits a `u32` cell; in
/// particular no merge of the line doubles past the cell type.
pub open spec fn tiles_fit(l: Seq<int>) -> bool {
    forall|j: int|
        0 <= j < slide_line(l).tiles.len() ==> slide_line(l).tiles[j] <= u32::MAX as int
}

/// Every line of the grid slides to tiles that fit a `u32` cell.
pub open spec fn grid_fits(s: Seq<u32>, o: MoveOrientation, n: int) -> bool {
    forall|i: int| 0 <= i < n ==> tiles_fit(line_of(s, o, n, i))
}

/// A grid whose cells are all at most half the cell type's maximum satisfies
/// `grid_fits`: no merge of any line can double past the cell type. This is
/// how a caller discharges `move_to`'s precondition without computing a
/// slide.
pub proof fn lemma_half_cells_fit(s: Seq<u32>, o: MoveOrientation, n: int)
    requires
        0 <= n,
        s.len() == n * n,
        forall|j: int| 0 <= j < s.len() ==> s[j] <= u32::MAX / 2,
    ensures
        grid_fits(s, o, n),
{
    assert forall|i: int| 0 <= i < n implies tiles_fit(line_of(s, o, n, i)) by {
        let l = line_of(s, o, n, i);
        assert forall|p: int| 0 <= p < l.len() implies l[p] <= u32::MAX as int / 2 by {
            lemma_line_cell_bounds(o, n, i, p);
        }
        crate::line_model::lemma_slide_tiles_bounded(l, l.len() as int, u32::MAX as int / 2);
    }
}

/// All actions of a move: the actions of sliding lines `0 .. k` of the grid
/// contents `s`, in increasing line order.
pub open spec fn move_actions_upto(s: Seq<u32>, o: MoveOrientation, n: int, k: int) -> Seq<
    ActionModel,
>
    decreases k,
{
    if k <= 0 {
        Seq::empty()
    } else {
        move_actions_upto(s, o, n, k - 1) + slide_line(line_of(s, o, n, k - 1)).actions
    }
}

/// All actions that a move over grid contents `s` reports.
pub open spec fn move_actions(s: Seq<u32>, o: MoveOrientation, n: int) -> Seq<ActionModel> {
    move_actions_upto(s, o, n, n)
}

impl Game2048Matrix {
    /// The storage holds exactly one cell per coordinate of the square grid.
    pub open spec fn wf(&self) -> bool {
        self.storage@.len() == (self.matrix_order as int) * (self.matrix_order as int)
            && (self.matrix_order as int) * (self.matrix_order as int) <= usize::MAX
    }

    pub open spec fn order_spec(&self) -> int {
        self.matrix_order as int
    }

    /// An `order x order` grid with every cell empty.
    pub fn new(matrix_order: usize) -> (m: Game2048Matrix)
        requires
            (matrix_order as int) * (matrix_order as int) <= usize::MAX,
        ensures
            m.wf(),
            m.matrix_order == matrix_order,
            forall|j: int| 0 <= j < m.storage@.len() ==> m.storage@[j] == 0,
    {
        let len = matrix_order * matrix_order;
        let mut storage: Vec<u32> = Vec::new();
        while storage.len() < len
            invariant
                storage@.len() <= len,
                forall|j: int| 0 <= j < storage@.len() ==> storage@[j] == 0,
            decreases len - storage@.len(),
        {
            storage.push(0);
        }
        Game2048Matrix { storage, matrix_order }
    }

    pub fn get_matrix_order(&self) -> (n: usize)
        ensures
            n == self.matrix_order,
    {
        self.matrix_order
    }

    /// Value of the cell at `(row, col)`, in the row-major linearization.
    pub fn read(&self, row: usize, col: usize) -> (v: u32)
        requires
            self.wf(),
            row < self.matrix_order,
            col < self.matrix_order,
        ensures
            v == self.storage@[row * self.matrix_order + col],
    {
        proof {
            assert(0 <= row * self.matrix_order + col < self.matrix_order * self.matrix_order)
                by (nonlinear_arith)
                requires row < self.matrix_order, col < self.matrix_order;
        }
        self.storage[row * self.matrix_order + col]
    }

    /// Writes `value` into the cell at `(row, col)`.
    pub fn write(&mut self, row: usize, col: usize, value: u32)
        requires
            old(self).wf(),
            row < old(self).matrix_order,
            col < old(self).matrix_order,
        ensures
            final(self).wf(),
            final(self).matrix_order == old(self).matrix_order,
            final(self).storage@ == old(self).storage@.update(
                row * old(self).matrix_order + col, value),
    {
        proof {
            assert(0 <= row * self.matrix_order + col < self.matrix_order * self.matrix_order)
                by (nonlinear_arith)
                requires row < self.matrix_order, col < self.matrix_order;
        }
        let idx = row * self.matrix_order + col;
        self.storage.set(idx, value);
    }

    /// Value at line-local position `p` of line `i`, for orientation `o`.
    fn get(&self, o: MoveOrientation, i: usize, p: usize) -> (v: u32)
        requires
            self.wf(),
            i < self.matrix_order,
            p < self.matrix_order,
        ensures
            v as int == line_of(self.storage@, o, self.matrix_order as int, i as int)[p as int],
    {
        let idx = cell_index(o, self.matrix_order, i, p);
        self.storage[idx]
    }

    /// Writes `v` at line-local position `p` of line `i`, for orientation `o`.
    fn set(&mut self, o: MoveOrientation, i: usize, p: usize, v: u32)
        requires
            old(self).wf(),
            i < old(self).matrix_order,
            p < old(self).matrix_order,
        ensures
            final(self).wf(),
            final(self).matrix_order == old(self).matrix_order,
            final(self).storage@ == old(self).storage@.update(
                line_cell(o, old(self).matrix_order as int, i as int, p as int), v),
    {
        let idx = cell_index(o, self.matrix_order, i, p);
        self.storage.set(idx, v);
    }

    /// Compacts and merges line `i` toward position 0, in a single pass,
    /// with each tile taking part in at most one merge. Returns the effects
    /// in the order they occurred. Every other line is left untouched; the
    /// sum of all cells is conserved and the number of occupied cells drops
    /// by exactly the number of merges.
    #[verifier::rlimit(50)]
    fn move_and_merge_array(&mut self, o: MoveOrientation, i: usize) -> (actions: Vec<GameAction>)
        requires
            old(self).wf(),
            i < old(self).matrix_order,
            tiles_fit(line_of(old(self).storage@, o, old(self).matrix_order as int, i as int)),
        ensures
            final(self).wf(),
            final(self).matrix_order == old(self).matrix_order,
            line_of(final(self).storage@, o, old(self).matrix_order as int, i as int)
                == slid_line(line_of(old(self).storage@, o, old(self).matrix_order as int, i as int)),
            forall|idx: int|
                0 <= idx < (old(self).matrix_order as int) * (old(self).matrix_order as int)
                    && cell_line(o, old(self).matrix_order as int, idx) != i as int
                    ==> final(self).storage@[idx] == old(self).storage@[idx],
            acts_view(actions@) == slide_line(
                line_of(old(self).storage@, o, old(self).matrix_order as int, i as int),
            ).actions,
            sum_int(final(self).storage@) == sum_int(old(self).storage@),
            count_nonzero(final(self).storage@) == count_nonzero(old(self).storage@)
                - merge_count(slide_line(
                    line_of(old(self).storage@, o, old(self).matrix_order as int, i as int),
                ).actions),
    {
        let n = self.matrix_order;
        let ghost n_int = n as int;
        let ghost line0 = line_of(old(self).storage@, o, n_int, i as int);
        let mut actions: Vec<GameAction> = Vec::new();
        let mut p_current: usize = 0;
        let mut p_next: usize = 1;
        proof {
            assert(acts_view(actions@) =~= Seq::<ActionModel>::empty());
            assert(slide_prefix(line0, 0).actions == Seq::<ActionModel>::empty());
        }
        while p_next < n
            invariant
                self.wf(),
                self.matrix_order == old(self).matrix_order,
                n == self.matrix_order,
                n_int == n as int,
                i < n,
                1 <= p_next <= n,
                line0 == line_of(old(self).storage@, o, n_int, i as int),
                tiles_fit(line0),
                ({
                    let st = slide_prefix(line0, p_next as int);
                    let cur = line_of(self.storage@, o, n_int, i as int);
                    &&& st.tiles.len() <= p_next
                    &&& p_current as int == (if st.mergeable {
                        st.tiles.len() - 1
                    } else {
                        st.tiles.len() as int
                    })
                    &&& forall|q: int| 0 <= q < st.tiles.len() ==> cur[q] == st.tiles[q]
                    &&& forall|q: int| st.tiles.len() <= q < p_next ==> cur[q] == 0
                    &&& forall|q: int| p_next <= q < n_int ==> cur[q] == line0[q]
                    &&& acts_view(actions@) == st.actions
                    &&& count_nonzero(self.storage@) == count_nonzero(old(self).storage@)
                        - merge_count(st.actions)
                }),
                forall|idx: int|
                    0 <= idx < n_int * n_int && cell_line(o, n_int, idx) != i as int
                        ==> self.storage@[idx] == old(self).storage@[idx],
                sum_int(self.storage@) == sum_int(old(self).storage@),
            decreases n - p_next,
        {
            let ghost k = p_next as int;
            let ghost st = slide_prefix(line0, k);
            let ghost st1 = slide_prefix(line0, k + 1);
            let ghost c = st.tiles.len() as int;
            let ghost cur = line_of(self.storage@, o, n_int, i as int);
            proof {
                lemma_slide_prefix_props(line0, k);
            }
            let next = self.get(o, i, p_next);
            proof {
                assert(cur[k] == line0[k]);
                assert(st1 == slide_step(st, k, line0[k]));
            }
            if next != 0 {
                proof {
                    if !st.mergeable {
                        // A full prefix of placed tiles would be mergeable,
                        // so the write cursor sits on an empty cell.
                        assert(c < k);
                        assert(cur[c] == 0);
                    }
                }
                let current = self.get(o, i, p_current);
                if current == next {
                    proof {
                        assert(st.mergeable && st.tiles.last() == next as int);
                        assert(st1.tiles == st.tiles.update(c - 1, next as int + next as int));
                        assert(st1.tiles.len() == c);
                        lemma_tile_stable(line0, k + 1, c - 1);
                        assert(st1.tiles[c - 1] <= u32::MAX as int);
                    }
                    let merge_result = next * 2;
                    let ghost s0 = self.storage@;
                    self.set(o, i, p_current, merge_result);
                    let ghost s1 = self.storage@;
                    proof {
                        lemma_line_cell_bounds(o, n_int, i as int, c - 1);
                        lemma_line_of_update(s0, o, n_int, i as int, c - 1, merge_result);
                        lemma_sum_update(s0, line_cell(o, n_int, i as int, c - 1), merge_result);
                        lemma_count_update(s0, line_cell(o, n_int, i as int, c - 1), merge_result);
                        assert(s0[line_cell(o, n_int, i as int, c - 1)] == current);
                    }
                    self.set(o, i, p_next, 0);
                    let ghost s2 = self.storage@;
                    proof {
                        lemma_line_cell_bounds(o, n_int, i as int, k);
                        lemma_line_of_update(s1, o, n_int, i as int, k, 0);
                        lemma_sum_update(s1, line_cell(o, n_int, i as int, k), 0);
                        lemma_count_update(s1, line_cell(o, n_int, i as int, k), 0);
                        assert(line_of(s1, o, n_int, i as int)[k] == cur[k]);
                        assert(s1[line_cell(o, n_int, i as int, k)] == next);
                    }
                    proof {
                        lemma_acts_view_push(actions@, GameAction::Merge {
                            from: p_next,
                            to: p_current,
                            merge_result,
                        });
                        lemma_merge_count_push(st.actions, ActionModel::Merge {
                            from: k,
                            to: c - 1,
                            result: next as int + next as int,
                        });
                    }
                    actions.push(GameAction::Merge { from: p_next, to: p_current, merge_result });
                    p_current = p_current + 1;
                    proof {
                        let cur1 = line_of(self.storage@, o, n_int, i as int);
                        assert(cur1 =~= cur.update(c - 1, merge_result as int).update(k, 0));
                        assert forall|q: int| 0 <= q < st1.tiles.len() implies cur1[q]
                            == st1.tiles[q] by {}
                        assert forall|q: int| st1.tiles.len() <= q < k + 1 implies cur1[q]
                            == 0 by {}
                    }
                } else {
                    if current != 0 {
                        p_current = p_current + 1;
                    }
                    proof {
                        assert(p_current as int == c);
                        assert(!(st.mergeable && st.tiles.last() == next as int));
                    }
                    if p_current != p_next {
                        proof {
                            assert(c < k);
                            assert(cur[c] == 0);
                            assert(st1.tiles == st.tiles.push(next as int));
                            assert(st1.actions == st.actions.push(ActionModel::Move {
                                from: k,
                                to: c,
                            }));
                        }
                        let ghost s0 = self.storage@;
                        self.set(o, i, p_current, next);
                        let ghost s1 = self.storage@;
                        proof {
                            lemma_line_cell_bounds(o, n_int, i as int, c);
                            lemma_line_of_update(s0, o, n_int, i as int, c, next);
                            lemma_sum_update(s0, line_cell(o, n_int, i as int, c), next);
                            lemma_count_update(s0, line_cell(o, n_int, i as int, c), next);
                            assert(s0[line_cell(o, n_int, i as int, c)] == 0);
                        }
                        self.set(o, i, p_next, 0);
                        proof {
                            lemma_line_cell_bounds(o, n_int, i as int, k);
                            lemma_line_of_update(s1, o, n_int, i as int, k, 0);
                            lemma_sum_update(s1, line_cell(o, n_int, i as int, k), 0);
                            lemma_count_update(s1, line_cell(o, n_int, i as int, k), 0);
                            assert(line_of(s1, o, n_int, i as int)[k] == cur[k]);
                            assert(s1[line_cell(o, n_int, i as int, k)] == next);
                        }
                        proof {
                            lemma_acts_view_push(actions@, GameAction::Move {
                                from: p_next,
                                to: p_current,
                            });
                            lemma_merge_count_push(st.actions, ActionModel::Move {
                                from: k,
                                to: c,
                            });
                        }
                        actions.push(GameAction::Move { from: p_next, to: p_current });
                        proof {
                            let cur1 = line_of(self.storage@, o, n_int, i as int);
                            assert(cur1 =~= cur.update(c, next as int).update(k, 0));
                            assert forall|q: int| 0 <= q < st1.tiles.len() implies cur1[q]
                                == st1.tiles[q] by {}
                            assert forall|q: int| st1.tiles.len() <= q < k + 1 implies cur1[q]
                                == 0 by {}
                        }
                    } else {
                        proof {
                            assert(c == k);
                            assert(st1.tiles == st.tiles.push(next as int));
                            assert(st1.actions == st.actions);
                            let cur1 = line_of(self.storage@, o, n_int, i as int);
                            assert forall|q: int| 0 <= q < st1.tiles.len() implies cur1[q]
                                == st1.tiles[q] by {}
                        }
                    }
                }
            } else {
                proof {
                    assert(st1 == st);
                    assert(cur[k] == 0);
                }
            }
            p_next = p_next + 1;
        }
        proof {
            let st = slide_prefix(line0, n_int);
            lemma_slide_prefix_props(line0, n_int);
            assert(line0.len() == n_int);
            assert(st == slide_line(line0));
            assert(line_of(self.storage@, o, n_int, i as int) =~= slid_line(line0));
        }
        actions
    }

    /// Slides the whole grid toward the edge that `orientation` names: every
    /// line is compacted and merged independently, in increasing line order.
    /// Returns all effects, line by line, in the order they occurred.
    ///
    /// The grid contents after the call are exactly the slid lines; the sum
    /// of all cells is unchanged, and the number of occupied cells drops by
    /// exactly the number of `Merge` effects reported.
    pub fn move_to(&mut self, orientation: MoveOrientation) -> (actions: Vec<GameAction>)
        requires
            old(self).wf(),
            grid_fits(old(self).storage@, orientation, old(self).matrix_order as int),
        ensures
            final(self).wf(),
            final(self).matrix_order == old(self).matrix_order,
            forall|i: int|
                0 <= i < old(self).matrix_order as int
                    ==> line_of(final(self).storage@, orientation, old(self).matrix_order as int, i)
                    == slid_line(line_of(old(self).storage@, orientation,
                        old(self).matrix_order as int, i)),
            acts_view(actions@) == move_actions(old(self).storage@, orientation,
                old(self).matrix_order as int),
            sum_int(final(self).storage@) == sum_int(old(self).storage@),
            count_nonzero(final(self).storage@) == count_nonzero(old(self).storage@)
                - merge_count(move_actions(old(self).storage@, orientation,
                    old(self).matrix_order as int)),
            count_nonzero(final(self).storage@) <= count_nonzero(old(self).storage@),
    {
        let n = self.matrix_order;
        let ghost n_int = n as int;
        let mut actions: Vec<GameAction> = Vec::new();
        proof {
            assert(acts_view(actions@) =~= Seq::<ActionModel>::empty());
        }
        let mut i: usize = 0;
        while i < n
            invariant
                self.wf(),
                self.matrix_order == old(self).matrix_order,
                n == self.matrix_order,
                n_int == n as int,
                i <= n,
                grid_fits(old(self).storage@, orientation, n_int),
                forall|j: int|
                    0 <= j < i as int
                        ==> line_of(self.storage@, orientation, n_int, j)
                        == slid_line(line_of(old(self).storage@, orientation, n_int, j)),
                forall|idx: int|
                    0 <= idx < n_int * n_int && cell_line(orientation, n_int, idx) >= i as int
                        ==> self.storage@[idx] == old(self).storage@[idx],
                acts_view(actions@) == move_actions_upto(old(self).storage@, orientation, n_int,
                    i as int),
                sum_int(self.storage@) == sum_int(old(self).storage@),
                count_nonzero(self.storage@) == count_nonzero(old(self).storage@)
                    - merge_count(move_actions_upto(old(self).storage@, orientation, n_int,
                        i as int)),
            decreases n - i,
        {
            let ghost prev = self.storage@;
            let ghost line_i = line_of(old(self).storage@, orientation, n_int, i as int);
            proof {
                assert forall|p: int| 0 <= p < n_int implies line_of(prev, orientation, n_int,
                    i as int)[p] == line_i[p] by {
                    lemma_line_cell_bounds(orientation, n_int, i as int, p);
                }
                assert(line_of(prev, orientation, n_int, i as int) =~= line_i);
            }
            let mut line_actions = self.move_and_merge_array(orientation, i);
            let ghost pa = actions@;
            let ghost la = line_actions@;
            actions.append(&mut line_actions);
            proof {
                assert(actions@ == pa + la);
                lemma_acts_view_concat(pa, la);
            }
            i = i + 1;
            proof {
                let cur = self.storage@;
                // Lines already slid stay slid: their cells are not on line `i`.
                assert forall|j: int| 0 <= j < i as int implies line_of(cur, orientation, n_int, j)
                    == slid_line(line_of(old(self).storage@, orientation, n_int, j)) by {
                    if j < i as int - 1 {
                        assert forall|p: int| 0 <= p < n_int implies line_of(cur, orientation,
                            n_int, j)[p] == line_of(prev, orientation, n_int, j)[p] by {
                            lemma_line_cell_bounds(orientation, n_int, j, p);
                        }
                        assert(line_of(cur, orientation, n_int, j) =~= line_of(prev, orientation,
                            n_int, j));
                    }
                }
                lemma_merge_count_concat(move_actions_upto(old(self).storage@, orientation, n_int,
                    i as int - 1), slide_line(line_i).actions);
            }
        }
        proof {
            lemma_merge_count_nonneg(move_actions(old(self).storage@, orientation, n_int));
        }
        actions
    }
}

impl PartialEq for Game2048Matrix {
    /// Two grids are equal when they have the same order and the same cell
    /// values at every coordinate.
    fn eq(&self, other: &Self) -> (r: bool) {
        if self.matrix_order != other.matrix_order {
            return false;
        }
        if self.storage.len() != other.storage.len() {
            return false;
        }
        let mut j: usize = 0;
        while j < self.storage.len()
            invariant
                j <= self.storage@.len(),
                self.storage@.len() == other.storage@.len(),
                self.matrix_order == other.matrix_order,
                forall|t: int| 0 <= t < j as int ==> self.storage@[t] == other.storage@[t],
            decreases self.storage@.len() - j as int,
        {
            if self.storage[j] != other.storage[j] {
                return false;
            }
            j = j + 1;
        }
        proof {
            assert(self.storage@ =~= other.storage@);
        }
        true
    }
}

impl vstd::std_specs::cmp::PartialEqSpecImpl for Game2048Matrix {
    open spec fn obeys_eq_spec() -> bool {
        true
    }

    open spec fn eq_spec(&self, other: &Self) -> bool {
        self.matrix_order == other.matrix_order && self.storage@ == other.storage@
    }
}

impl Clone for Game2048Matrix {
    /// An independent deep copy of the grid.
    fn clone(&self) -> (r: Self)
        ensures
            r.matrix_order == self.matrix_order,
            r.storage@ == self.storage@,
    {
        let mut storage: Vec<u32> = Vec::new();
        let mut j: usize = 0;
        while j < self.storage.len()
            invariant
                j <= self.storage@.len(),
                storage@.len() == j as int,
                forall|t: int| 0 <= t < j as int ==> storage@[t] == self.storage@[t],
            decreases self.storage@.len() - j as int,
        {
            storage.push(self.storage[j]);
            j = j + 1;
        }
        proof {
            assert(storage@ =~= self.storage@);
        }
        Game2048Matrix { storage, matrix_order: self.matrix_order }
    }
}

// ---------------------------------------------------------------------------
// Laws of a whole move.
// ---------------------------------------------------------------------------

/// Grid contents `s2` are the result of one move over grid contents `s1`:
/// every line of `s2` is the corresponding line of `s1`, slid. This is
/// exactly what `move_to` ensures of the grid before and after the call.
pub open spec fn move_rel(s1: Seq<u32>, s2: Seq<u32>, o: MoveOrientation, n: int) -> bool {
    s1.len() == n * n && s2.len() == n * n && forall|i: int|
        0 <= i < n ==> line_of(s2, o, n, i) == slid_line(line_of(s1, o, n, i))
}

/// Running a move twice in the same direction is idempotent, provided the
/// first move leaves no two equal neighbouring tiles on any line: the second
/// move reports no effect and leaves every cell as it was. (A first move can
/// leave equal neighbours — tiles 4, 2, 2, 4 slide to 4, 4, 4, 0 — and such
/// grids do merge again, so they are excluded.)
pub proof fn lemma_move_idempotent(
    s1: Seq<u32>,
    s2: Seq<u32>,
    s3: Seq<u32>,
    o: MoveOrientation,
    n: int,
)
    requires
        0 <= n,
        move_rel(s1, s2, o, n),
        move_rel(s2, s3, o, n),
        forall|i: int| 0 <= i < n ==> no_adjacent_equal(slide_line(line_of(s1, o, n, i)).tiles),
    ensures
        s3 == s2,
        move_actions(s2, o, n) == Seq::<ActionModel>::empty(),
{
    assert forall|i: int| 0 <= i < n implies slide_line(line_of(s2, o, n, i)).actions
        == Seq::<ActionModel>::empty() && slid_line(line_of(s2, o, n, i)) == line_of(
        s2, o, n, i,
    ) by {
        let l1 = line_of(s1, o, n, i);
        lemma_slide_idempotent(l1);
    }
    assert forall|idx: int| 0 <= idx < s2.len() implies s3[idx] == s2[idx] by {
        assert(n > 0) by (nonlinear_arith)
            requires 0 <= n, 0 <= idx, idx < n * n;
        lemma_cell_cover(o, n, idx);
        let i = cell_line(o, n, idx);
        let p = cell_pos(o, n, idx);
        assert(line_of(s3, o, n, i)[p] == s3[idx]);
        assert(line_of(s2, o, n, i)[p] == s2[idx]);
        assert(line_of(s3, o, n, i) == slid_line(line_of(s2, o, n, i)));
    }
    assert(s3 =~= s2);
    lemma_move_actions_upto_empty(s2, o, n, n);
}

proof fn lemma_move_actions_upto_empty(s: Seq<u32>, o: MoveOrientation, n: int, k: int)
    requires
        0 <= k <= n,
        forall|i: int|
            0 <= i < n ==> slide_line(line_of(s, o, n, i)).actions == Seq::<ActionModel>::empty(),
    ensures
        move_actions_upto(s, o, n, k) == Seq::<ActionModel>::empty(),
    decreases k,
{
    if k > 0 {
        lemma_move_actions_upto_empty(s, o, n, k - 1);
        assert(move_actions_upto(s, o, n, k) =~= Seq::<ActionModel>::empty());
    }
}

} // verus!
