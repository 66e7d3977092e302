//! The two-phase hierarchical selection state machine: a coarse two-keystroke
//! grid pick over the whole surface, then a fine one-keystroke subdivision of
//! the chosen cell.
use vstd::prelude::*;

use crate::render::{draw_border, spec_border};

verus! {

/// Rows of the fine-phase subdivision grid.
pub const FINE_ROWS: usize = 3;

/// Columns of the fine-phase subdivision grid.
pub const FINE_COLS: usize = 8;

/// A rectangular pixel region: origin plus width and height.
#[derive(Clone, Copy, Debug, PartialEq, Eq, Structural)]
pub struct Rect {
    pub x: usize,
    pub y: usize,
    pub width: usize,
    pub height: usize,
}

/// Index of the first occurrence of `key` in `keys`, or -1 when absent.
pub open spec fn key_index(keys: Seq<u32>, key: u32) -> int
    decreases keys.len(),
{
    if keys.len() == 0 {
        -1
    } else if keys[0] == key {
        0
    } else {
        let r = key_index(keys.subrange(1, keys.len() as int), key);
        if r < 0 {
            -1
        } else {
            r + 1
        }
    }
}

/// `key_index` finds the first occurrence when one exists.
pub proof fn lemma_key_index_first(keys: Seq<u32>, key: u32, i: int)
    requires
        0 <= i < keys.len(),
        keys[i] == key,
        forall|j: int| 0 <= j < i ==> keys[j] != key,
    ensures
        key_index(keys, key) == i,
    decreases keys.len(),
{
    if keys[0] == key {
        assert(i == 0);
    } else {
        let tail = keys.subrange(1, keys.len() as int);
        assert(forall|j: int| 0 <= j < tail.len() ==> tail[j] == keys[j + 1]);
        lemma_key_index_first(tail, key, i - 1);
    }
}

/// `key_index` reports absence when no occurrence exists.
pub proof fn lemma_key_index_none(keys: Seq<u32>, key: u32)
    requires
        forall|j: int| 0 <= j < keys.len() ==> keys[j] != key,
    ensures
        key_index(keys, key) == -1,
    decreases keys.len(),
{
    if keys.len() > 0 {
        let tail = keys.subrange(1, keys.len() as int);
        assert(forall|j: int| 0 <= j < tail.len() ==> tail[j] == keys[j + 1]);
        lemma_key_index_none(tail, key);
    }
}

/// Linear search for the first occurrence of `key`.
fn position_of(keys: &Vec<u32>, key: u32) -> (result: Option<usize>)
    ensures
        match result {
            Some(i) => i < keys@.len() && key_index(keys@, key) == i as int && keys@.contains(key),
            None => key_index(keys@, key) == -1 && !keys@.contains(key),
        },
{
    let n = keys.len();
    let mut i: usize = 0;
    while i < n
        invariant
            i <= n,
            n == keys@.len(),
            forall|j: int| 0 <= j < i ==> keys@[j] != key,
        decreases n - i,
    {
        if keys[i] == key {
            proof {
                lemma_key_index_first(keys@, key, i as int);
            }
            return Some(i);
        }
        i += 1;
    }
    proof {
        lemma_key_index_none(keys@, key);
        assert(!keys@.contains(key));
    }
    None
}

/// Copy of a key alphabet.
fn copy_keys(keys: &Vec<u32>) -> (result: Vec<u32>)
    ensures
        result@ == keys@,
{
    let n = keys.len();
    let mut out: Vec<u32> = Vec::new();
    let mut i: usize = 0;
    while i < n
        invariant
            i <= n,
            n == keys@.len(),
            out@ == keys@.subrange(0, i as int),
        decreases n - i,
    {
        out.push(keys[i]);
        proof {
            assert(out@ =~= keys@.subrange(0, i + 1 as int));
        }
        i += 1;
    }
    proof {
        assert(out@ =~= keys@);
    }
    out
}

/// The fine-phase subdivider: a candidate region, the subdivision grid shape,
/// how many subdivisions have completed, and the key alphabet in row-major
/// cell order.
#[derive(Debug)]
pub struct FinalSelector {
    pub x: usize,
    pub y: usize,
    pub width: usize,
    pub height: usize,
    pub n_rows: usize,
    pub n_cols: usize,
    pub depth: usize,
    pub keycodes: Vec<u32>,
}

/// Mathematical view of a fine-phase subdivider.
#[verifier::ext_equal]
pub struct FineView {
    pub x: int,
    pub y: int,
    pub width: int,
    pub height: int,
    pub n_rows: int,
    pub n_cols: int,
    pub depth: int,
    pub keycodes: Seq<u32>,
}

impl View for FinalSelector {
    type V = FineView;

    open spec fn view(&self) -> FineView {
        FineView {
            x: self.x as int,
            y: self.y as int,
            width: self.width as int,
            height: self.height as int,
            n_rows: self.n_rows as int,
            n_cols: self.n_cols as int,
            depth: self.depth as int,
            keycodes: self.keycodes@,
        }
    }
}

/// Well-formedness of a fine-phase subdivider: at least one grid lane each
/// way, an alphabet that fits within the grid (so every key addresses a
/// cell), and a region whose far corner is representable.
pub open spec fn fine_wf(v: FineView) -> bool {
    &&& 1 <= v.n_rows
    &&& 1 <= v.n_cols
    &&& v.keycodes.len() <= v.n_rows * v.n_cols
    &&& 0 <= v.x
    &&& 0 <= v.y
    &&& 0 <= v.width
    &&& 0 <= v.height
    &&& v.x + v.width <= usize::MAX
    &&& v.y + v.height <= usize::MAX
    &&& 0 <= v.depth
}

/// The subdivider after selecting the sub-cell in column `col` and row `row`:
/// the region shrinks to the cell computed by the cross-dimension partition
/// rule (width split by columns, height split by rows), and the completed
/// subdivision count rises by one.
pub open spec fn fine_select(v: FineView, col: int, row: int) -> FineView {
    FineView {
        x: v.x + (v.width / v.n_cols) * col,
        y: v.y + (v.height / v.n_rows) * row,
        width: v.width / v.n_cols,
        height: v.height / v.n_rows,
        depth: v.depth + 1,
        ..v
    }
}

/// One fine-phase key event: a key outside the alphabet changes nothing; a
/// key at alphabet index `idx` selects the sub-cell in row `idx / n_cols`,
/// column `idx % n_cols`.
pub open spec fn fine_step(v: FineView, key: u32) -> FineView {
    let idx = key_index(v.keycodes, key);
    if idx < 0 {
        v
    } else {
        fine_select(v, idx % v.n_cols, idx / v.n_cols)
    }
}

proof fn lemma_select_in_region(size: int, lanes: int, pick: int)
    requires
        0 <= size,
        1 <= lanes,
        0 <= pick < lanes,
    ensures
        0 <= (size / lanes) * pick,
        (size / lanes) * pick + size / lanes <= size,
{
    let lane = size / lanes;
    vstd::arithmetic::div_mod::lemma_div_pos_is_pos(size, lanes);
    vstd::arithmetic::mul::lemma_mul_nonnegative(lane, pick);
    assert(lane * pick + lane <= lane * lanes) by (nonlinear_arith)
        requires 0 <= lane && pick < lanes;
    vstd::arithmetic::div_mod::lemma_fundamental_div_mod(size, lanes);
    assert(lane * lanes <= size) by (nonlinear_arith)
        requires size == lanes * (size / lanes) + size % lanes && 0 <= size % lanes && lane == size / lanes;
}

impl FinalSelector {
    /// Builds a fine-phase subdivider over the given region with a completed
    /// subdivision count of zero.
    pub fn new(
        x: usize,
        y: usize,
        width: usize,
        height: usize,
        n_rows: usize,
        n_cols: usize,
        keycodes: Vec<u32>,
    ) -> (result: FinalSelector)
        requires
            1 <= n_rows,
            1 <= n_cols,
            keycodes@.len() <= n_rows * n_cols,
            x + width <= usize::MAX,
            y + height <= usize::MAX,
        ensures
            result@ == (FineView {
                x: x as int,
                y: y as int,
                width: width as int,
                height: height as int,
                n_rows: n_rows as int,
                n_cols: n_cols as int,
                depth: 0,
                keycodes: keycodes@,
            }),
            fine_wf(result@),
    {
        Self { x, y, width, height, n_cols, n_rows, depth: 0, keycodes }
    }

    /// The subdivider narrowed to the sub-cell in column `box_x` and row
    /// `box_y` of the fine grid, one subdivision deeper.
    pub fn select(&self, box_x: usize, box_y: usize) -> (result: FinalSelector)
        requires
            fine_wf(self@),
            self.depth < usize::MAX,
            (box_x as int) < self@.n_cols,
            (box_y as int) < self@.n_rows,
        ensures
            result@ == fine_select(self@, box_x as int, box_y as int),
            fine_wf(result@),
    {
        proof {
            lemma_select_in_region(self@.width, self@.n_cols, box_x as int);
            lemma_select_in_region(self@.height, self@.n_rows, box_y as int);
        }
        let width = self.width / self.n_cols;
        let height = self.height / self.n_rows;
        let x = self.x + width * box_x;
        let y = self.y + height * box_y;
        FinalSelector {
            x,
            y,
            width,
            height,
            n_rows: self.n_rows,
            n_cols: self.n_cols,
            depth: self.depth + 1,
            keycodes: copy_keys(&self.keycodes),
        }
    }

    /// One fine-phase key event: a key outside the alphabet is absorbed as a
    /// no-op; a recognized key replaces the state with the selected sub-cell
    /// and increments the completed subdivision count.
    pub fn handle_input(&mut self, pressed_key: u32)
        requires
            fine_wf(old(self)@),
            old(self).depth < usize::MAX,
        ensures
            final(self)@ == fine_step(old(self)@, pressed_key),
            fine_wf(final(self)@),
    {
        let idx = match position_of(&self.keycodes, pressed_key) {
            Some(idx) => idx,
            None => {
                return ;
            },
        };
        proof {
            vstd::arithmetic::div_mod::lemma_mod_division_less_than_divisor(
                idx as int,
                self@.n_cols,
            );
            vstd::arithmetic::div_mod::lemma_div_pos_is_pos(idx as int, self@.n_cols);
            assert((idx as int) / self@.n_cols < self@.n_rows) by {
                let nr = self@.n_rows;
                let nc = self@.n_cols;
                assert((nr - 1) * nc + (nc - 1) == nr * nc - 1) by (nonlinear_arith);
                vstd::arithmetic::div_mod::lemma_div_is_ordered(idx as int, nr * nc - 1, nc);
                vstd::arithmetic::div_mod::lemma_fundamental_div_mod_converse(
                    nr * nc - 1,
                    nc,
                    nr - 1,
                    nc - 1,
                );
            }
        }
        let col = idx % self.n_cols;
        let row = idx / self.n_cols;
        let next = self.select(col, row);
        *self = next;
    }
}

/// One cell of the coarse grid: the mapping entry from an ordered key pair to
/// its region.
#[derive(Clone, Copy, Debug, PartialEq, Eq, Structural)]
pub struct GridCell {
    pub row_key: u32,
    pub col_key: u32,
    pub rect: Rect,
}

/// Region of the first cell whose key pair is (k1, k2), or None when no cell
/// carries that pair.
pub open spec fn grid_lookup(cells: Seq<GridCell>, k1: u32, k2: u32) -> Option<Rect>
    decreases cells.len(),
{
    if cells.len() == 0 {
        None
    } else if cells[0].row_key == k1 && cells[0].col_key == k2 {
        Some(cells[0].rect)
    } else {
        grid_lookup(cells.subrange(1, cells.len() as int), k1, k2)
    }
}

/// `grid_lookup` returns the first matching cell's region.
pub proof fn lemma_grid_lookup_first(cells: Seq<GridCell>, k1: u32, k2: u32, i: int)
    requires
        0 <= i < cells.len(),
        cells[i].row_key == k1 && cells[i].col_key == k2,
        forall|j: int| 0 <= j < i ==> !(cells[j].row_key == k1 && cells[j].col_key == k2),
    ensures
        grid_lookup(cells, k1, k2) == Some(cells[i].rect),
    decreases cells.len(),
{
    if cells[0].row_key == k1 && cells[0].col_key == k2 {
        assert(i == 0);
    } else {
        let tail = cells.subrange(1, cells.len() as int);
        assert(forall|j: int| 0 <= j < tail.len() ==> tail[j] == cells[j + 1]);
        lemma_grid_lookup_first(tail, k1, k2, i - 1);
    }
}

/// `grid_lookup` reports absence when no cell matches.
pub proof fn lemma_grid_lookup_none(cells: Seq<GridCell>, k1: u32, k2: u32)
    requires
        forall|j: int|
            0 <= j < cells.len() ==> !(cells[j].row_key == k1 && cells[j].col_key == k2),
    ensures
        grid_lookup(cells, k1, k2) is None,
    decreases cells.len(),
{
    if cells.len() > 0 {
        let tail = cells.subrange(1, cells.len() as int);
        assert(forall|j: int| 0 <= j < tail.len() ==> tail[j] == cells[j + 1]);
        lemma_grid_lookup_none(tail, k1, k2);
    }
}

/// A found region belongs to some matching cell.
pub proof fn lemma_grid_lookup_found(cells: Seq<GridCell>, k1: u32, k2: u32)
    requires
        grid_lookup(cells, k1, k2) is Some,
    ensures
        exists|j: int|
            0 <= j < cells.len() && cells[j].row_key == k1 && cells[j].col_key == k2
                && grid_lookup(cells, k1, k2) == Some(cells[j].rect),
    decreases cells.len(),
{
    if cells[0].row_key == k1 && cells[0].col_key == k2 {
        assert(0 <= 0 < cells.len() && cells[0].row_key == k1 && cells[0].col_key == k2
            && grid_lookup(cells, k1, k2) == Some(cells[0].rect));
    } else {
        let tail = cells.subrange(1, cells.len() as int);
        assert(forall|j: int| 0 <= j < tail.len() ==> tail[j] == cells[j + 1]);
        lemma_grid_lookup_found(tail, k1, k2);
        let j = choose|j: int|
            0 <= j < tail.len() && tail[j].row_key == k1 && tail[j].col_key == k2 && grid_lookup(
                tail,
                k1,
                k2,
            ) == Some(tail[j].rect);
        assert(0 <= j + 1 < cells.len() && cells[j + 1].row_key == k1 && cells[j + 1].col_key == k2
            && grid_lookup(cells, k1, k2) == Some(cells[j + 1].rect));
    }
}

/// Whether all key codes of an alphabet are pairwise distinct.
pub open spec fn distinct_keys(keys: Seq<u32>) -> bool {
    forall|i: int, j: int| 0 <= i < j < keys.len() ==> keys[i] != keys[j]
}

/// The coarse picker: the key alphabet, the grid of regions keyed by ordered
/// key pairs, the first key pending a partner, the grid shape and the surface
/// dimensions the grid was built over.
#[derive(Debug)]
pub struct InitialSelector {
    pub keycodes: Vec<u32>,
    pub cells: Vec<GridCell>,
    pub last_key: Option<u32>,
    pub n_rows: usize,
    pub n_cols: usize,
    pub screen_width: usize,
    pub screen_height: usize,
}

/// Mathematical view of a coarse picker.
#[verifier::ext_equal]
pub struct InitView {
    pub keycodes: Seq<u32>,
    pub cells: Seq<GridCell>,
    pub last_key: Option<u32>,
    pub n_rows: int,
    pub n_cols: int,
    pub screen_width: int,
    pub screen_height: int,
}

impl View for InitialSelector {
    type V = InitView;

    open spec fn view(&self) -> InitView {
        InitView {
            keycodes: self.keycodes@,
            cells: self.cells@,
            last_key: self.last_key,
            n_rows: self.n_rows as int,
            n_cols: self.n_cols as int,
            screen_width: self.screen_width as int,
            screen_height: self.screen_height as int,
        }
    }
}

/// What cell number `j` of a row-major coarse grid holds: with row
/// `j / n_cols` and column `j % n_cols`, the keys at those alphabet
/// positions, and the region given by the cross-dimension partition rule
/// (cell width `screen_width / n_rows`, cell height `screen_height /
/// n_cols`).
pub open spec fn grid_cell_ok(
    keycodes: Seq<u32>,
    n_cols: int,
    cell_w: int,
    cell_h: int,
    cells: Seq<GridCell>,
    j: int,
) -> bool {
    let row = j / n_cols;
    let col = j % n_cols;
    let c = cells[j];
    &&& c.row_key == keycodes[row]
    &&& c.col_key == keycodes[col]
    &&& c.rect.x as int == cell_w * row
    &&& c.rect.y as int == cell_h * col
    &&& c.rect.width as int == cell_w
    &&& c.rect.height as int == cell_h
}

/// `grid_cell_ok` for cell `j` of a coarse picker.
pub open spec fn cell_ok(v: InitView, j: int) -> bool {
    grid_cell_ok(
        v.keycodes,
        v.n_cols,
        v.screen_width / v.n_rows,
        v.screen_height / v.n_cols,
        v.cells,
        j,
    )
}

/// Well-formedness of a coarse picker: a distinct alphabet long enough for
/// both grid dimensions, and the complete row-major grid of cells.
pub open spec fn init_wf(v: InitView) -> bool {
    &&& 1 <= v.n_rows
    &&& 1 <= v.n_cols
    &&& v.n_rows <= v.keycodes.len()
    &&& v.n_cols <= v.keycodes.len()
    &&& distinct_keys(v.keycodes)
    &&& v.cells.len() == v.n_rows * v.n_cols
    &&& forall|j: int| 0 <= j < v.cells.len() ==> cell_ok(v, j)
    &&& 0 <= v.screen_width <= usize::MAX
    &&& 0 <= v.screen_height <= usize::MAX
}

/// One coarse-phase key event. With no first key pending, a recognized key
/// becomes the pending first key and an unrecognized one changes nothing.
/// With a first key pending, a key that completes a pair present in the grid
/// resolves that pair's region and clears the pending key; any other key
/// changes nothing — the pending first key is deliberately retained.
pub open spec fn init_step(v: InitView, key: u32) -> (InitView, Option<Rect>) {
    match v.last_key {
        Some(last) => match grid_lookup(v.cells, last, key) {
            Some(r) => (InitView { last_key: None, ..v }, Some(r)),
            None => (v, None),
        },
        None => {
            if v.keycodes.contains(key) {
                (InitView { last_key: Some(key), ..v }, None)
            } else {
                (v, None)
            }
        },
    }
}

impl InitialSelector {
    /// Builds the coarse grid over the full surface: for each (row, column)
    /// index pair the cell is keyed by the alphabet entries at those indices,
    /// with the region given by the cross-dimension partition rule. Fails
    /// with a construction error when the alphabet is shorter than either
    /// grid dimension.
    pub fn new(
        keycodes: Vec<u32>,
        n_rows: usize,
        n_cols: usize,
        screen_width: usize,
        screen_height: usize,
    ) -> (result: Result<InitialSelector, crate::CoreError>)
        requires
            1 <= n_rows,
            1 <= n_cols,
            distinct_keys(keycodes@),
        ensures
            match result {
                Ok(s) => {
                    &&& keycodes@.len() >= n_rows && keycodes@.len() >= n_cols
                    &&& init_wf(s@)
                    &&& s@.keycodes == keycodes@
                    &&& s@.last_key is None
                    &&& s@.n_rows == n_rows as int
                    &&& s@.n_cols == n_cols as int
                    &&& s@.screen_width == screen_width as int
                    &&& s@.screen_height == screen_height as int
                },
                Err(e) => {
                    &&& e == crate::CoreError::AlphabetTooSmall
                    &&& keycodes@.len() < n_rows || keycodes@.len() < n_cols
                },
            },
    {
        if keycodes.len() < n_rows || keycodes.len() < n_cols {
            return Err(crate::CoreError::AlphabetTooSmall);
        }
        let width = screen_width / n_rows;
        let height = screen_height / n_cols;
        let mut cells: Vec<GridCell> = Vec::new();
        let mut row: usize = 0;
        while row < n_rows
            invariant
                row <= n_rows,
                n_rows <= keycodes@.len(),
                n_cols <= keycodes@.len(),
                1 <= n_rows,
                1 <= n_cols,
                width as int == screen_width as int / n_rows as int,
                height as int == screen_height as int / n_cols as int,
                cells@.len() == row as int * n_cols as int,
                forall|j: int|
                    0 <= j < cells@.len() ==> grid_cell_ok(
                        keycodes@,
                        n_cols as int,
                        width as int,
                        height as int,
                        cells@,
                        j,
                    ),
            decreases n_rows - row,
        {
            let row_key = keycodes[row];
            let mut col: usize = 0;
            while col < n_cols
                invariant
                    col <= n_cols,
                    row < n_rows,
                    n_rows <= keycodes@.len(),
                    n_cols <= keycodes@.len(),
                    1 <= n_rows,
                    1 <= n_cols,
                    width as int == screen_width as int / n_rows as int,
                    height as int == screen_height as int / n_cols as int,
                    row_key == keycodes@[row as int],
                    cells@.len() == row as int * n_cols as int + col as int,
                    forall|j: int|
                        0 <= j < cells@.len() ==> grid_cell_ok(
                            keycodes@,
                            n_cols as int,
                            width as int,
                            height as int,
                            cells@,
                            j,
                        ),
                decreases n_cols - col,
            {
                let col_key = keycodes[col];
                proof {
                    lemma_select_in_region(screen_width as int, n_rows as int, row as int);
                    lemma_select_in_region(screen_height as int, n_cols as int, col as int);
                }
                let x = width * row;
                let y = height * col;
                let ghost prev = cells@;
                cells.push(
                    GridCell { row_key, col_key, rect: Rect { x, y, width, height } },
                );
                proof {
                    let j_new = prev.len() as int;
                    vstd::arithmetic::div_mod::lemma_fundamental_div_mod_converse(
                        j_new,
                        n_cols as int,
                        row as int,
                        col as int,
                    );
                    assert(forall|j: int| 0 <= j < prev.len() ==> cells@[j] == prev[j]);
                    assert forall|j: int| 0 <= j < cells@.len() implies grid_cell_ok(
                        keycodes@,
                        n_cols as int,
                        width as int,
                        height as int,
                        cells@,
                        j,
                    ) by {
                        if j < prev.len() {
                            assert(grid_cell_ok(
                                keycodes@,
                                n_cols as int,
                                width as int,
                                height as int,
                                prev,
                                j,
                            ));
                        }
                    }
                }
                col += 1;
            }
            proof {
                assert((row as int + 1) * n_cols as int == row as int * n_cols as int
                    + n_cols as int) by (nonlinear_arith);
            }
            row += 1;
        }
        proof {
            assert forall|j: int| 0 <= j < cells@.len() implies cell_ok(
                (InitView {
                    keycodes: keycodes@,
                    cells: cells@,
                    last_key: None,
                    n_rows: n_rows as int,
                    n_cols: n_cols as int,
                    screen_width: screen_width as int,
                    screen_height: screen_height as int,
                }),
                j,
            ) by {
                assert(grid_cell_ok(
                    keycodes@,
                    n_cols as int,
                    width as int,
                    height as int,
                    cells@,
                    j,
                ));
            }
        }
        Ok(
            InitialSelector {
                keycodes,
                cells,
                last_key: None,
                n_rows,
                n_cols,
                screen_width,
                screen_height,
            },
        )
    }

    /// One coarse-phase key event, as `init_step` describes: returns the
    /// resolved region when this key completes a grid pair, and None
    /// otherwise. An unrecognized second key deliberately keeps the pending
    /// first key.
    pub fn handle_input(&mut self, keycode: u32) -> (result: Option<Rect>)
        ensures
            final(self)@ == init_step(old(self)@, keycode).0,
            result == init_step(old(self)@, keycode).1,
    {
        if let Some(last) = self.last_key {
            return match find_cell(&self.cells, last, keycode) {
                Some(r) => {
                    self.last_key = None;
                    Some(r)
                },
                None => None,
            };
        }
        let recognized = match position_of(&self.keycodes, keycode) {
            Some(_) => true,
            None => false,
        };
        if recognized {
            self.last_key = Some(keycode);
        }
        None
    }
}

/// Decomposing a row-major cell number within an n_rows-by-n_cols grid gives
/// a row below n_rows and a column below n_cols.
pub proof fn lemma_cell_coords(j: int, n_rows: int, n_cols: int)
    requires
        1 <= n_rows,
        1 <= n_cols,
        0 <= j < n_rows * n_cols,
    ensures
        0 <= j / n_cols < n_rows,
        0 <= j % n_cols < n_cols,
{
    vstd::arithmetic::div_mod::lemma_mod_division_less_than_divisor(j, n_cols);
    vstd::arithmetic::div_mod::lemma_div_pos_is_pos(j, n_cols);
    assert((n_rows - 1) * n_cols + (n_cols - 1) == n_rows * n_cols - 1) by (nonlinear_arith);
    vstd::arithmetic::div_mod::lemma_div_is_ordered(j, n_rows * n_cols - 1, n_cols);
    vstd::arithmetic::div_mod::lemma_fundamental_div_mod_converse(
        n_rows * n_cols - 1,
        n_cols,
        n_rows - 1,
        n_cols - 1,
    );
}

/// Every cell region of a well-formed coarse grid lies within the surface:
/// its far corner stays inside the surface dimensions.
pub proof fn lemma_cell_rect_in_surface(v: InitView, j: int)
    requires
        init_wf(v),
        0 <= j < v.cells.len(),
    ensures
        0 <= v.cells[j].rect.x as int + v.cells[j].rect.width as int <= v.screen_width,
        0 <= v.cells[j].rect.y as int + v.cells[j].rect.height as int <= v.screen_height,
{
    lemma_cell_coords(j, v.n_rows, v.n_cols);
    lemma_select_in_region(v.screen_width, v.n_rows, j / v.n_cols);
    lemma_select_in_region(v.screen_height, v.n_cols, j % v.n_cols);
    assert(cell_ok(v, j));
}

/// Linear search for the first cell keyed by the ordered pair (k1, k2).
fn find_cell(cells: &Vec<GridCell>, k1: u32, k2: u32) -> (result: Option<Rect>)
    ensures
        result == grid_lookup(cells@, k1, k2),
{
    let n = cells.len();
    let mut i: usize = 0;
    while i < n
        invariant
            i <= n,
            n == cells@.len(),
            forall|j: int|
                0 <= j < i ==> !(cells@[j].row_key == k1 && cells@[j].col_key == k2),
        decreases n - i,
    {
        let c = cells[i];
        if c.row_key == k1 && c.col_key == k2 {
            proof {
                lemma_grid_lookup_first(cells@, k1, k2, i as int);
            }
            return Some(c.rect);
        }
        i += 1;
    }
    proof {
        lemma_grid_lookup_none(cells@, k1, k2);
    }
    None
}

/// The selector phase in flight: the coarse two-keystroke picker, or the fine
/// one-keystroke subdivider it resolves into. Transitions run coarse to fine
/// only, never backward.
#[derive(Debug)]
pub enum SelectorState {
    Initial(InitialSelector),
    Final(FinalSelector),
}

/// Mathematical view of a selector phase.
#[verifier::ext_equal]
pub enum SelView {
    Initial(InitView),
    Final(FineView),
}

impl View for SelectorState {
    type V = SelView;

    open spec fn view(&self) -> SelView {
        match self {
            SelectorState::Initial(s) => SelView::Initial(s@),
            SelectorState::Final(s) => SelView::Final(s@),
        }
    }
}

/// Well-formedness of a selector phase. In the coarse phase the alphabet also
/// fits within the fine grid that a resolution will hand it to; in the fine
/// phase the completed subdivision count is below the counter's ceiling.
pub open spec fn sel_wf(s: SelView) -> bool {
    match s {
        SelView::Initial(v) => init_wf(v) && v.keycodes.len() <= FINE_ROWS as int * FINE_COLS as int,
        SelView::Final(v) => fine_wf(v) && v.depth < usize::MAX,
    }
}

/// One key event against the selector phase: a coarse resolution replaces the
/// state with a fine subdivider over the resolved region, at depth zero, on
/// the fine grid shape, with the same alphabet; otherwise the phase steps in
/// place.
pub open spec fn sel_step(s: SelView, key: u32) -> SelView {
    match s {
        SelView::Initial(v) => {
            match init_step(v, key).1 {
                Some(rect) => SelView::Final(
                    FineView {
                        x: rect.x as int,
                        y: rect.y as int,
                        width: rect.width as int,
                        height: rect.height as int,
                        n_rows: FINE_ROWS as int,
                        n_cols: FINE_COLS as int,
                        depth: 0,
                        keycodes: v.keycodes,
                    },
                ),
                None => SelView::Initial(init_step(v, key).0),
            }
        },
        SelView::Final(v) => SelView::Final(fine_step(v, key)),
    }
}

impl SelectorState {
    /// Forwards one key event to whichever phase is active, replacing a
    /// resolved coarse pick with the fine subdivider over its region, as
    /// `sel_step` describes.
    pub fn handle_key(&mut self, key: u32)
        requires
            sel_wf(old(self)@),
        ensures
            final(self)@ == sel_step(old(self)@, key),
            sel_wf(final(self)@) || (final(self)@ matches SelView::Final(v) && v.depth
                == usize::MAX),
    {
        match self {
            SelectorState::Initial(initial_selector) => {
                let picked = initial_selector.handle_input(key);
                match picked {
                    Some(rect) => {
                        proof {
                            let v = old(self)@->Initial_0;
                            let last = v.last_key->0;
                            lemma_grid_lookup_found(v.cells, last, key);
                            let j = choose|j: int|
                                0 <= j < v.cells.len() && v.cells[j].row_key == last
                                    && v.cells[j].col_key == key && grid_lookup(
                                    v.cells,
                                    last,
                                    key,
                                ) == Some(v.cells[j].rect);
                            lemma_cell_rect_in_surface(v, j);
                        }
                        let keys = copy_keys(&initial_selector.keycodes);
                        *self = SelectorState::Final(
                            FinalSelector::new(
                                rect.x,
                                rect.y,
                                rect.width,
                                rect.height,
                                FINE_ROWS,
                                FINE_COLS,
                                keys,
                            ),
                        );
                    },
                    None => {
                        proof {
                            let v = old(self)@->Initial_0;
                            let v2 = init_step(v, key).0;
                            assert forall|j: int| 0 <= j < v2.cells.len() implies cell_ok(
                                v2,
                                j,
                            ) by {
                                assert(cell_ok(v, j));
                            }
                        }
                    },
                }
            },
            SelectorState::Final(final_selector) => final_selector.handle_input(key),
        }
    }
}


/// Whether pixel (px, py) lies inside region `r`.
pub open spec fn rect_contains(r: Rect, px: int, py: int) -> bool {
    &&& r.x <= px < r.x as int + r.width as int
    &&& r.y <= py < r.y as int + r.height as int
}

/// Whether two regions share no pixel.
pub open spec fn rects_disjoint(a: Rect, b: Rect) -> bool {
    forall|px: int, py: int| !(rect_contains(a, px, py) && rect_contains(b, px, py))
}

proof fn lemma_lane_ranges_disjoint(lane: int, p1: int, p2: int)
    requires
        0 <= lane,
        0 <= p1 < p2,
    ensures
        lane * p1 + lane <= lane * p2,
{
    assert(lane * p1 + lane == lane * (p1 + 1)) by (nonlinear_arith);
    vstd::arithmetic::mul::lemma_mul_inequality(p1 + 1, p2, lane);
    assert((p1 + 1) * lane == lane * (p1 + 1)) by (nonlinear_arith);
    assert(p2 * lane == lane * p2) by (nonlinear_arith);
}

/// Law: a well-formed coarse grid holds exactly n_rows * n_cols cells; their
/// (row_key, col_key) pairs are pairwise distinct; every cell region's area
/// equals (screen_width / n_rows) * (screen_height / n_cols); and the regions
/// are pairwise disjoint.
pub proof fn lemma_grid_complete(v: InitView)
    requires
        init_wf(v),
    ensures
        v.cells.len() == v.n_rows * v.n_cols,
        forall|j1: int, j2: int|
            0 <= j1 < j2 < v.cells.len() ==> !((#[trigger] v.cells[j1]).row_key == (
            #[trigger] v.cells[j2]).row_key && v.cells[j1].col_key == v.cells[j2].col_key),
        forall|j: int|
            0 <= j < v.cells.len() ==> (#[trigger] v.cells[j]).rect.width as int
                * v.cells[j].rect.height as int == (v.screen_width / v.n_rows) * (v.screen_height
                / v.n_cols),
        forall|j1: int, j2: int|
            0 <= j1 < j2 < v.cells.len() ==> rects_disjoint(
                (#[trigger] v.cells[j1]).rect,
                (#[trigger] v.cells[j2]).rect,
            ),
{
    let nr = v.n_rows;
    let nc = v.n_cols;
    let cw = v.screen_width / nr;
    let ch = v.screen_height / nc;
    assert forall|j1: int, j2: int| 0 <= j1 < j2 < v.cells.len() implies !((
    #[trigger] v.cells[j1]).row_key == (#[trigger] v.cells[j2]).row_key && v.cells[j1].col_key
        == v.cells[j2].col_key) by {
        lemma_cell_coords(j1, nr, nc);
        lemma_cell_coords(j2, nr, nc);
        assert(cell_ok(v, j1));
        assert(cell_ok(v, j2));
        vstd::arithmetic::div_mod::lemma_fundamental_div_mod(j1, nc);
        vstd::arithmetic::div_mod::lemma_fundamental_div_mod(j2, nc);
        if v.cells[j1].row_key == v.cells[j2].row_key && v.cells[j1].col_key
            == v.cells[j2].col_key {
            assert(v.keycodes[j1 / nc] == v.keycodes[j2 / nc]);
            assert(v.keycodes[j1 % nc] == v.keycodes[j2 % nc]);
            assert(j1 / nc == j2 / nc);
            assert(j1 % nc == j2 % nc);
        }
    }
    assert forall|j: int| 0 <= j < v.cells.len() implies (#[trigger] v.cells[j]).rect.width as int
        * v.cells[j].rect.height as int == cw * ch by {
        assert(cell_ok(v, j));
    }
    assert forall|j1: int, j2: int| 0 <= j1 < j2 < v.cells.len() implies rects_disjoint(
        (#[trigger] v.cells[j1]).rect,
        (#[trigger] v.cells[j2]).rect,
    ) by {
        lemma_cell_coords(j1, nr, nc);
        lemma_cell_coords(j2, nr, nc);
        assert(cell_ok(v, j1));
        assert(cell_ok(v, j2));
        vstd::arithmetic::div_mod::lemma_fundamental_div_mod(j1, nc);
        vstd::arithmetic::div_mod::lemma_fundamental_div_mod(j2, nc);
        let a = v.cells[j1].rect;
        let b = v.cells[j2].rect;
        let r1 = j1 / nc;
        let c1 = j1 % nc;
        let r2 = j2 / nc;
        let c2 = j2 % nc;
        assert forall|px: int, py: int| !(rect_contains(a, px, py) && rect_contains(
            b,
            px,
            py,
        )) by {
            if rect_contains(a, px, py) && rect_contains(b, px, py) {
                if r1 < r2 {
                    lemma_lane_ranges_disjoint(cw, r1, r2);
                } else if r2 < r1 {
                    lemma_lane_ranges_disjoint(cw, r2, r1);
                } else if c1 < c2 {
                    lemma_lane_ranges_disjoint(ch, c1, c2);
                } else {
                    assert(c2 < c1);
                    lemma_lane_ranges_disjoint(ch, c2, c1);
                }
            }
        }
    }
}

/// Law: for any key pair present in the grid, pressing its two keys in order
/// resolves exactly the region stored for that pair and clears the pending
/// key; pressing the same pair again from the state left behind resolves the
/// same region.
pub proof fn lemma_round_trip(v: InitView, k1: u32, k2: u32)
    requires
        init_wf(v),
        v.last_key is None,
        grid_lookup(v.cells, k1, k2) is Some,
    ensures
        ({
            let v1 = init_step(v, k1).0;
            let v2 = init_step(v1, k2).0;
            let r2 = init_step(v1, k2).1;
            &&& r2 == grid_lookup(v.cells, k1, k2)
            &&& v2.last_key is None
            &&& v2.cells == v.cells
            &&& init_step(init_step(v2, k1).0, k2).1 == r2
        }),
{
    lemma_grid_lookup_found(v.cells, k1, k2);
    let j = choose|j: int|
        0 <= j < v.cells.len() && v.cells[j].row_key == k1 && v.cells[j].col_key == k2
            && grid_lookup(v.cells, k1, k2) == Some(v.cells[j].rect);
    lemma_cell_coords(j, v.n_rows, v.n_cols);
    assert(cell_ok(v, j));
    assert(v.keycodes[j / v.n_cols] == k1);
    assert(v.keycodes.contains(k1));
}

/// Law: pressing an unrecognized key with no first key pending changes
/// nothing — the picker keeps awaiting a first key.
pub proof fn lemma_unrecognized_first_key(v: InitView, key: u32)
    requires
        v.last_key is None,
        !v.keycodes.contains(key),
    ensures
        init_step(v, key).0 == v,
        init_step(v, key).1 is None,
{
}

/// Law: with a first key pending, a second key that completes no grid pair
/// with it changes nothing — the same first key stays pending — and a later
/// second key that does complete a pair still resolves that pair's region.
pub proof fn lemma_pending_key_retained(v: InitView, k1: u32, k_bad: u32, k2: u32)
    requires
        v.last_key == Some(k1),
        grid_lookup(v.cells, k1, k_bad) is None,
        grid_lookup(v.cells, k1, k2) is Some,
    ensures
        ({
            let v1 = init_step(v, k_bad).0;
            &&& v1 == v
            &&& v1.last_key == Some(k1)
            &&& init_step(v, k_bad).1 is None
            &&& init_step(v1, k2).1 == grid_lookup(v.cells, k1, k2)
        }),
{
}


/// The buffer after drawing the borders of the first `k` sub-cells of the
/// fine grid, in row-major order.
pub open spec fn fine_cells_drawn(s: Seq<u8>, v: FineView, screen_width: int, k: int) -> Seq<u8>
    decreases k,
{
    if k <= 0 {
        s
    } else {
        let j = k - 1;
        let row = j / v.n_cols;
        let col = j % v.n_cols;
        spec_border(
            fine_cells_drawn(s, v, screen_width, j),
            v.x + (v.width / v.n_cols) * col,
            v.y + (v.height / v.n_rows) * row,
            v.width / v.n_cols,
            v.height / v.n_rows,
            screen_width,
        )
    }
}

/// Whether cell `j` of the coarse grid is drawn: its row key matches the
/// pending first key, or no first key is pending yet.
pub open spec fn cell_selected(v: InitView, j: int) -> bool {
    match v.last_key {
        Some(k) => v.cells[j].row_key == k,
        None => true,
    }
}

/// The buffer after drawing borders around the selected cells among the
/// first `k` cells of the coarse grid.
pub open spec fn coarse_cells_drawn(s: Seq<u8>, v: InitView, screen_width: int, k: int) -> Seq<u8>
    decreases k,
{
    if k <= 0 {
        s
    } else {
        let j = k - 1;
        let prev = coarse_cells_drawn(s, v, screen_width, j);
        if cell_selected(v, j) {
            spec_border(
                prev,
                v.cells[j].rect.x as int,
                v.cells[j].rect.y as int,
                v.cells[j].rect.width as int,
                v.cells[j].rect.height as int,
                screen_width,
            )
        } else {
            prev
        }
    }
}

/// The buffer after rendering the active phase's overlay borders.
pub open spec fn sel_drawn(s: Seq<u8>, sel: SelView, screen_width: int) -> Seq<u8> {
    match sel {
        SelView::Initial(v) => coarse_cells_drawn(s, v, screen_width, v.cells.len() as int),
        SelView::Final(v) => fine_cells_drawn(
            spec_border(s, v.x, v.y, v.width, v.height, screen_width),
            v,
            screen_width,
            v.n_rows * v.n_cols,
        ),
    }
}

impl FinalSelector {
    /// Renders the fine phase: a border around the active region, then a
    /// border around each of its n_rows-by-n_cols sub-cells. Sub-cells carry
    /// no labels — the alphabet ordering is assumed memorized.
    #[verifier::loop_isolation(false)]
    pub fn draw(&self, buf: &mut Vec<u8>, screen_width: usize)
        requires
            fine_wf(self@),
        ensures
            final(buf)@ == fine_cells_drawn(
                spec_border(
                    old(buf)@,
                    self@.x,
                    self@.y,
                    self@.width,
                    self@.height,
                    screen_width as int,
                ),
                self@,
                screen_width as int,
                self@.n_rows * self@.n_cols,
            ),
    {
        draw_border(buf, self.x, self.y, self.width, self.height, screen_width);
        let ghost s0 = buf@;
        let width = self.width / self.n_cols;
        let height = self.height / self.n_rows;
        let mut row: usize = 0;
        while row < self.n_rows
            invariant
                row <= self.n_rows,
                buf@ == fine_cells_drawn(
                    s0,
                    self@,
                    screen_width as int,
                    row as int * self@.n_cols,
                ),
            decreases self.n_rows - row,
        {
            let mut col: usize = 0;
            while col < self.n_cols
                invariant
                    col <= self.n_cols,
                    row < self.n_rows,
                    buf@ == fine_cells_drawn(
                        s0,
                        self@,
                        screen_width as int,
                        row as int * self@.n_cols + col as int,
                    ),
                decreases self.n_cols - col,
            {
                proof {
                    lemma_select_in_region(self@.width, self@.n_cols, col as int);
                    lemma_select_in_region(self@.height, self@.n_rows, row as int);
                    vstd::arithmetic::mul::lemma_mul_nonnegative(row as int, self@.n_cols);
                }
                let x = self.x + width * col;
                let y = self.y + height * row;
                draw_border(buf, x, y, width, height, screen_width);
                proof {
                    let j = row as int * self@.n_cols + col as int;
                    vstd::arithmetic::div_mod::lemma_fundamental_div_mod_converse(
                        j,
                        self@.n_cols,
                        row as int,
                        col as int,
                    );
                    assert(buf@ == fine_cells_drawn(s0, self@, screen_width as int, j + 1));
                }
                col += 1;
            }
            proof {
                assert(row as int * self@.n_cols + self@.n_cols == (row as int + 1)
                    * self@.n_cols) by (nonlinear_arith);
            }
            row += 1;
        }
    }
}

impl InitialSelector {
    /// Renders the coarse phase's borders: one around every grid cell whose
    /// row key matches the pending first key, or around every cell when no
    /// first key is pending. Cell labels are rendered by the text-layout
    /// collaborator, whose glyph samples are composited through
    /// `composite_glyph`.
    #[verifier::loop_isolation(false)]
    pub fn draw(&self, buf: &mut Vec<u8>, screen_width: usize)
        requires
            init_wf(self@),
        ensures
            final(buf)@ == coarse_cells_drawn(
                old(buf)@,
                self@,
                screen_width as int,
                self@.cells.len() as int,
            ),
    {
        let ghost s0 = buf@;
        let n = self.cells.len();
        let mut i: usize = 0;
        while i < n
            invariant
                i <= n,
                n == self@.cells.len(),
                buf@ == coarse_cells_drawn(s0, self@, screen_width as int, i as int),
            decreases n - i,
        {
            let c = self.cells[i];
            let selected = match self.last_key {
                Some(k) => c.row_key == k,
                None => true,
            };
            if selected {
                proof {
                    lemma_cell_rect_in_surface(self@, i as int);
                }
                draw_border(buf, c.rect.x, c.rect.y, c.rect.width, c.rect.height, screen_width);
            }
            i += 1;
        }
    }
}

impl SelectorState {
    /// Renders whichever phase is active into the buffer.
    pub fn draw(&self, buf: &mut Vec<u8>, screen_width: usize)
        requires
            self@ matches SelView::Initial(v) ==> init_wf(v),
            self@ matches SelView::Final(v) ==> fine_wf(v),
        ensures
            final(buf)@ == sel_drawn(old(buf)@, self@, screen_width as int),
    {
        match self {
            SelectorState::Initial(selector) => selector.draw(buf, screen_width),
            SelectorState::Final(selector) => selector.draw(buf, screen_width),
        }
    }
}


/// Law: phase transitions run forward only — a fine-phase selector never
/// steps back to the coarse phase, and its completed subdivision count
/// never decreases.
pub proof fn lemma_transitions_forward_only(s: SelView, key: u32)
    ensures
        s matches SelView::Final(v) ==> sel_step(s, key) matches SelView::Final(v2)
            && v2.depth >= v.depth,
{
}


/// In a well-formed grid, the ordered pair (alphabet[row], alphabet[col])
/// with row below n_rows and col below n_cols looks up exactly the cell at
/// that row and column: the region given by the cross-dimension partition
/// rule.
pub proof fn lemma_grid_lookup_formula(v: InitView, row: int, col: int)
    requires
        init_wf(v),
        0 <= row < v.n_rows,
        0 <= col < v.n_cols,
    ensures
        grid_lookup(v.cells, v.keycodes[row], v.keycodes[col]) == Some(
            Rect {
                x: ((v.screen_width / v.n_rows) * row) as usize,
                y: ((v.screen_height / v.n_cols) * col) as usize,
                width: (v.screen_width / v.n_rows) as usize,
                height: (v.screen_height / v.n_cols) as usize,
            },
        ),
{
    let nr = v.n_rows;
    let nc = v.n_cols;
    let j = row * nc + col;
    assert((nr - 1) * nc + (nc - 1) == nr * nc - 1) by (nonlinear_arith);
    vstd::arithmetic::mul::lemma_mul_inequality(row, nr - 1, nc);
    vstd::arithmetic::mul::lemma_mul_nonnegative(row, nc);
    assert(0 <= j < nr * nc);
    vstd::arithmetic::div_mod::lemma_fundamental_div_mod_converse(j, nc, row, col);
    assert(cell_ok(v, j));
    let k1 = v.keycodes[row];
    let k2 = v.keycodes[col];
    assert forall|jp: int| 0 <= jp < j implies !(v.cells[jp].row_key == k1
        && v.cells[jp].col_key == k2) by {
        lemma_cell_coords(jp, nr, nc);
        assert(cell_ok(v, jp));
        vstd::arithmetic::div_mod::lemma_fundamental_div_mod(jp, nc);
        let rp = jp / nc;
        let cp = jp % nc;
        if v.cells[jp].row_key == k1 && v.cells[jp].col_key == k2 {
            assert(v.keycodes[rp] == v.keycodes[row]);
            assert(v.keycodes[cp] == v.keycodes[col]);
            if rp < row {
                assert(v.keycodes[rp] != v.keycodes[row]);
            } else if row < rp {
                assert(v.keycodes[row] != v.keycodes[rp]);
            }
            assert(rp == row);
            if cp < col {
                assert(v.keycodes[cp] != v.keycodes[col]);
            } else if col < cp {
                assert(v.keycodes[col] != v.keycodes[cp]);
            }
            assert(cp == col);
            assert(jp == nc * rp + cp);
            vstd::arithmetic::mul::lemma_mul_is_commutative(nc, row);
            assert(jp == j);
        }
    }
    lemma_grid_lookup_first(v.cells, k1, k2, j);
    lemma_select_in_region(v.screen_width, nr, row);
    lemma_select_in_region(v.screen_height, nc, col);
}

} // verus!
