//! A 2D colored grid: the universal state representation.
use vstd::prelude::*;

verus! {

/// The abstract value of a grid: its width, its height and its rows of colors.
pub type GridModel = (usize, usize, Seq<Seq<u8>>);

/// A 2D colored grid.
#[derive(Debug, PartialEq, Eq, Hash)]
pub struct Grid {
    pub width: usize,
    pub height: usize,
    pub cells: Vec<Vec<u8>>,
}

impl View for Grid {
    type V = GridModel;

    open spec fn view(&self) -> GridModel {
        (self.width, self.height, self.cells@.map_values(|row: Vec<u8>| row@))
    }
}

/// Every cell inside `width x height` exists in the rows.
pub open spec fn covered(g: GridModel) -> bool {
    &&& g.2.len() >= g.1
    &&& forall|r: int| 0 <= r < g.1 ==> #[trigger] g.2[r].len() >= g.0
}

/// Exactly `height` rows of exactly `width` cells each.
pub open spec fn shaped(g: GridModel) -> bool {
    &&& g.2.len() == g.1
    &&& forall|r: int| 0 <= r < g.1 ==> #[trigger] g.2[r].len() == g.0
}

/// The number of cells of a grid fits in a `usize`.
pub open spec fn countable(g: GridModel) -> bool {
    g.0 * g.1 <= usize::MAX
}

/// The grid of the given size with every cell set to `color`.
pub open spec fn filled_model(width: usize, height: usize, color: u8) -> GridModel {
    (width, height, Seq::new(height as nat, |r: int| Seq::new(width as nat, |c: int| color)))
}

/// Number of positions below `n` at which two rows differ.
pub open spec fn row_diff(a: Seq<u8>, b: Seq<u8>, n: int) -> nat
    decreases n,
{
    if n <= 0 {
        0
    } else {
        row_diff(a, b, n - 1) + (if a[n - 1] != b[n - 1] { 1nat } else { 0nat })
    }
}

/// Number of cells in the first `rows` rows and `width` columns at which two grids differ.
pub open spec fn cells_diff(a: Seq<Seq<u8>>, b: Seq<Seq<u8>>, rows: int, width: int) -> nat
    decreases rows,
{
    if rows <= 0 {
        0
    } else {
        cells_diff(a, b, rows - 1, width) + row_diff(a[rows - 1], b[rows - 1], width)
    }
}

/// Hamming distance: the number of differing cells, or `usize::MAX` for
/// grids of different dimensions.
pub open spec fn hamming(a: GridModel, b: GridModel) -> int {
    if a.0 != b.0 || a.1 != b.1 {
        usize::MAX as int
    } else {
        cells_diff(a.2, b.2, a.1 as int, a.0 as int) as int
    }
}

/// The first column at or after `c` of `row` that holds `color`.
pub open spec fn row_first(row: Seq<u8>, color: u8, c: int) -> Option<int>
    decreases row.len() - c,
{
    if c < 0 || c >= row.len() {
        None
    } else if row[c] == color {
        Some(c)
    } else {
        row_first(row, color, c + 1)
    }
}

/// The first cell, in row-major order from row `r` on, that holds `color`.
pub open spec fn cells_first(cells: Seq<Seq<u8>>, color: u8, r: int) -> Option<(int, int)>
    decreases cells.len() - r,
{
    if r < 0 || r >= cells.len() {
        None
    } else {
        match row_first(cells[r], color, 0) {
            Some(c) => Some((r, c)),
            None => cells_first(cells, color, r + 1),
        }
    }
}

/// Position of the first cell of `g` (row-major) that holds `color`.
pub open spec fn find_color_model(g: GridModel, color: u8) -> Option<(int, int)> {
    cells_first(g.2, color, 0)
}

/// Color of the agent's own marker.
pub open spec fn marker_color() -> u8 {
    1
}

/// Color of the other agent's marker.
pub open spec fn other_color() -> u8 {
    2
}

/// A row with every cell of `color` replaced by background.
pub open spec fn strip_row(row: Seq<u8>, color: u8) -> Seq<u8> {
    row.map_values(|x: u8| if x == color { 0u8 } else { x })
}

/// A grid with every cell of `color` replaced by background.
pub open spec fn strip_model(g: GridModel, color: u8) -> GridModel {
    (g.0, g.1, g.2.map_values(|row: Seq<u8>| strip_row(row, color)))
}

/// The grid after writing `val` at `(row, col)`, a no-op outside `width x height`.
pub open spec fn set_model(g: GridModel, row: int, col: int, val: u8) -> GridModel {
    if 0 <= row < g.1 && 0 <= col < g.0 {
        (g.0, g.1, g.2.update(row, g.2[row].update(col, val)))
    } else {
        g
    }
}

/// Absolute difference of two integers.
pub open spec fn abs_diff(a: int, b: int) -> int {
    if a >= b { a - b } else { b - a }
}

/// Manhattan distance between two positions.
pub open spec fn manhattan_model(a: (int, int), b: (int, int)) -> int {
    abs_diff(a.0, b.0) + abs_diff(a.1, b.1)
}

/// A found position holds the color and lies inside the rows.
pub proof fn lemma_cells_first_found(cells: Seq<Seq<u8>>, color: u8, r0: int)
    requires
        cells_first(cells, color, r0) is Some,
    ensures
        ({
            let (r, c) = cells_first(cells, color, r0)->0;
            &&& 0 <= r < cells.len()
            &&& 0 <= c < cells[r].len()
            &&& cells[r][c] == color
        }),
    decreases cells.len() - r0,
{
    if 0 <= r0 < cells.len() {
        match row_first(cells[r0], color, 0) {
            Some(c) => {
                lemma_row_first_found(cells[r0], color, 0);
            },
            None => {
                lemma_cells_first_found(cells, color, r0 + 1);
            },
        }
    }
}

proof fn lemma_row_first_found(row: Seq<u8>, color: u8, c0: int)
    requires
        row_first(row, color, c0) is Some,
    ensures
        0 <= row_first(row, color, c0)->0 < row.len(),
        row[row_first(row, color, c0)->0] == color,
    decreases row.len() - c0,
{
    if 0 <= c0 < row.len() && row[c0] != color {
        lemma_row_first_found(row, color, c0 + 1);
    }
}

/// No cell at or after `c0` holds the color: nothing is found.
pub proof fn lemma_row_first_none(row: Seq<u8>, color: u8, c0: int)
    requires
        0 <= c0,
        forall|i: int| c0 <= i < row.len() ==> row[i] != color,
    ensures
        row_first(row, color, c0) is None,
    decreases row.len() - c0,
{
    if c0 < row.len() {
        lemma_row_first_none(row, color, c0 + 1);
    }
}

/// The first cell at or after `c0` holding the color is found.
pub proof fn lemma_row_first_at(row: Seq<u8>, color: u8, c0: int, c: int)
    requires
        0 <= c0 <= c < row.len(),
        row[c] == color,
        forall|i: int| c0 <= i < c ==> row[i] != color,
    ensures
        row_first(row, color, c0) == Some(c),
    decreases c - c0,
{
    if c0 < c {
        lemma_row_first_at(row, color, c0 + 1, c);
    }
}

/// The first row at or after `r0` holding the color is found, at its first such cell.
pub proof fn lemma_cells_first_at(cells: Seq<Seq<u8>>, color: u8, r0: int, r: int, c: int)
    requires
        0 <= r0 <= r < cells.len(),
        row_first(cells[r], color, 0) == Some(c),
        forall|i: int| r0 <= i < r ==> row_first(#[trigger] cells[i], color, 0) is None,
    ensures
        cells_first(cells, color, r0) == Some((r, c)),
    decreases r - r0,
{
    if r0 < r {
        lemma_cells_first_at(cells, color, r0 + 1, r, c);
    }
}

/// At most `n` positions differ among the first `n`.
pub proof fn lemma_row_diff_bound(a: Seq<u8>, b: Seq<u8>, n: int)
    requires
        n >= 0,
    ensures
        row_diff(a, b, n) <= n,
    decreases n,
{
    if n > 0 {
        lemma_row_diff_bound(a, b, n - 1);
    }
}

/// No position below `n` differs exactly when the rows agree there.
pub proof fn lemma_row_diff_zero(a: Seq<u8>, b: Seq<u8>, n: int)
    requires
        n >= 0,
    ensures
        row_diff(a, b, n) == 0 <==> (forall|i: int| 0 <= i < n ==> a[i] == b[i]),
    decreases n,
{
    if n > 0 {
        lemma_row_diff_zero(a, b, n - 1);
    }
}

/// At most `rows * width` cells differ.
pub proof fn lemma_cells_diff_bound(a: Seq<Seq<u8>>, b: Seq<Seq<u8>>, rows: int, width: int)
    requires
        rows >= 0,
        width >= 0,
    ensures
        cells_diff(a, b, rows, width) <= rows * width,
    decreases rows,
{
    if rows > 0 {
        lemma_cells_diff_bound(a, b, rows - 1, width);
        lemma_row_diff_bound(a[rows - 1], b[rows - 1], width);
        assert((rows - 1) * width + width == rows * width) by (nonlinear_arith);
    }
}

/// No cell differs exactly when the grids agree on every cell.
pub proof fn lemma_cells_diff_zero(a: Seq<Seq<u8>>, b: Seq<Seq<u8>>, rows: int, width: int)
    requires
        rows >= 0,
        width >= 0,
    ensures
        cells_diff(a, b, rows, width) == 0 <==> (forall|r: int, c: int|
            0 <= r < rows && 0 <= c < width ==> #[trigger] a[r][c] == #[trigger] b[r][c]),
    decreases rows,
{
    if rows > 0 {
        lemma_cells_diff_zero(a, b, rows - 1, width);
        lemma_row_diff_zero(a[rows - 1], b[rows - 1], width);
    }
}

/// The character of a decimal digit.
pub open spec fn digit_char(d: int) -> char {
    (48 + d) as char
}

/// The decimal digits of `n`, most significant first.
pub open spec fn decimal(n: nat) -> Seq<char>
    decreases n,
{
    if n < 10 {
        seq![digit_char(n as int)]
    } else {
        decimal(n / 10) + seq![digit_char((n % 10) as int)]
    }
}

/// The cells of a row in decimal, separated by single spaces.
pub open spec fn row_text(row: Seq<u8>) -> Seq<char>
    decreases row.len(),
{
    if row.len() == 0 {
        Seq::empty()
    } else if row.len() == 1 {
        decimal(row[0] as nat)
    } else {
        row_text(row.drop_last()) + seq![' '] + decimal(row.last() as nat)
    }
}

/// The rows as text, each followed by a line break.
pub open spec fn grid_text(cells: Seq<Seq<u8>>) -> Seq<char>
    decreases cells.len(),
{
    if cells.len() == 0 {
        Seq::empty()
    } else {
        grid_text(cells.drop_last()) + row_text(cells.last()) + seq!['\n']
    }
}

/// The text of one decimal digit.
fn digit_str(d: u8) -> (s: &'static str)
    requires
        d < 10,
    ensures
        s@ == seq![digit_char(d as int)],
{
    match d {
        0 => {
            proof { reveal_strlit("0"); }
            "0"
        },
        1 => {
            proof { reveal_strlit("1"); }
            "1"
        },
        2 => {
            proof { reveal_strlit("2"); }
            "2"
        },
        3 => {
            proof { reveal_strlit("3"); }
            "3"
        },
        4 => {
            proof { reveal_strlit("4"); }
            "4"
        },
        5 => {
            proof { reveal_strlit("5"); }
            "5"
        },
        6 => {
            proof { reveal_strlit("6"); }
            "6"
        },
        7 => {
            proof { reveal_strlit("7"); }
            "7"
        },
        8 => {
            proof { reveal_strlit("8"); }
            "8"
        },
        _ => {
            proof { reveal_strlit("9"); }
            "9"
        },
    }
}

/// Appends `n` in decimal to `out`.
fn push_decimal(out: &mut String, n: u8)
    ensures
        final(out)@ == old(out)@ + decimal(n as nat),
{
    if n >= 100 {
        out.append(digit_str(n / 100));
        out.append(digit_str((n / 10) % 10));
        out.append(digit_str(n % 10));
        assert(decimal((n / 10) as nat) == decimal((n / 100) as nat) + seq![digit_char(((n / 10) % 10) as int)]);
    } else if n >= 10 {
        out.append(digit_str(n / 10));
        out.append(digit_str(n % 10));
        assert(decimal(n as nat) == decimal((n / 10) as nat) + seq![digit_char((n % 10) as int)]);
    } else {
        out.append(digit_str(n));
    }
}

impl Grid {
    /// Create a grid filled with a single color.
    pub fn filled(width: usize, height: usize, color: u8) -> (g: Grid)
        ensures
            g@ == filled_model(width, height, color),
    {
        let mut cells: Vec<Vec<u8>> = Vec::new();
        let mut r: usize = 0;
        while r < height
            invariant
                r <= height,
                cells@.len() == r,
                forall|i: int| 0 <= i < r ==> #[trigger] cells@[i]@ == Seq::new(width as nat, |c: int| color),
            decreases height - r,
        {
            let mut row: Vec<u8> = Vec::new();
            let mut c: usize = 0;
            while c < width
                invariant
                    c <= width,
                    row@ == Seq::new(c as nat, |j: int| color),
                decreases width - c,
            {
                row.push(color);
                c += 1;
            }
            cells.push(row);
            r += 1;
        }
        let g = Grid { width, height, cells };
        g
    }

    /// Create from row data: the width is the length of the first row.
    pub fn from_rows(rows: Vec<Vec<u8>>) -> (g: Grid)
        ensures
            g.height == rows@.len(),
            g.width == (if rows@.len() > 0 { rows@[0]@.len() } else { 0 }),
            g.cells@ == rows@,
    {
        let height = rows.len();
        let width = if height > 0 { rows[0].len() } else { 0 };
        Grid { width, height, cells: rows }
    }

    /// Get a cell's value (`None` if out of bounds of the stored rows).
    pub fn get(&self, row: usize, col: usize) -> (v: Option<u8>)
        ensures
            v == (if row < self@.2.len() && col < self@.2[row as int].len() {
                Some(self@.2[row as int][col as int])
            } else {
                None::<u8>
            }),
    {
        if row < self.cells.len() && col < self.cells[row].len() {
            Some(self.cells[row][col])
        } else {
            None
        }
    }

    /// Set a cell's value (no-op outside `width x height`).
    pub fn set(&mut self, row: usize, col: usize, val: u8)
        requires
            row < old(self).height && col < old(self).width ==> row < old(self).cells@.len() && col
                < old(self).cells@[row as int]@.len(),
        ensures
            final(self)@ == set_model(old(self)@, row as int, col as int, val),
    {
        if row < self.height && col < self.width {
            self.cells[row][col] = val;
        }
    }

    /// Hamming distance: count of cells that differ, or `usize::MAX` if the
    /// grids have different dimensions.
    pub fn hamming_distance(&self, other: &Grid) -> (d: usize)
        requires
            self.width == other.width && self.height == other.height ==> covered(self@) && covered(
                other@,
            ) && countable(self@),
        ensures
            d == hamming(self@, other@),
    {
        if self.width != other.width || self.height != other.height {
            return usize::MAX;
        }
        let ghost a = self@.2;
        let ghost b = other@.2;
        let w = self.width;
        let h = self.height;
        let mut dist: usize = 0;
        let mut r: usize = 0;
        while r < h
            invariant
                w == self.width,
                h == self.height,
                a == self@.2,
                b == other@.2,
                self.width == other.width,
                self.height == other.height,
                covered(self@),
                covered(other@),
                countable(self@),
                r <= h,
                dist == cells_diff(a, b, r as int, w as int),
            decreases h - r,
        {
            let row_a = &self.cells[r];
            let row_b = &other.cells[r];
            let mut c: usize = 0;
            while c < w
                invariant
                    w == self.width,
                    h == self.height,
                    r < h,
                    covered(self@),
                    covered(other@),
                    countable(self@),
                    row_a@ == a[r as int],
                    row_b@ == b[r as int],
                    row_a@.len() >= w,
                    row_b@.len() >= w,
                    a == self@.2,
                    b == other@.2,
                    self.width == other.width,
                    c <= w,
                    dist == cells_diff(a, b, r as int, w as int) + row_diff(a[r as int], b[r as int], c as int),
                decreases w - c,
            {
                proof {
                    lemma_cells_diff_bound(a, b, r as int, w as int);
                    lemma_row_diff_bound(a[r as int], b[r as int], c as int);
                    assert(r * w + c < (r + 1) * w) by (nonlinear_arith)
                        requires c < w;
                    assert((r + 1) * w <= h * w) by (nonlinear_arith)
                        requires r < h;
                    assert(w * h == h * w) by (nonlinear_arith);
                }
                if row_a[c] != row_b[c] {
                    dist += 1;
                }
                c += 1;
            }
            r += 1;
        }
        dist
    }

    /// Total number of cells.
    pub fn size(&self) -> (n: usize)
        requires
            countable(self@),
        ensures
            n == self.width * self.height,
    {
        self.width * self.height
    }
}

impl Grid {
    /// Whether two grids are equal: same dimensions and same rows.
    pub fn equals(&self, other: &Grid) -> (eq: bool)
        ensures
            eq == (self@ == other@),
    {
        if self.width != other.width || self.height != other.height || self.cells.len()
            != other.cells.len() {
            assert(self@.2.len() != other@.2.len() || self@.0 != other@.0 || self@.1 != other@.1);
            return false;
        }
        let n = self.cells.len();
        let mut r: usize = 0;
        while r < n
            invariant
                n == self.cells@.len(),
                n == other.cells@.len(),
                r <= n,
                forall|i: int| 0 <= i < r ==> #[trigger] self@.2[i] == other@.2[i],
            decreases n - r,
        {
            let ra = &self.cells[r];
            let rb = &other.cells[r];
            assert(ra@ == self@.2[r as int]);
            if ra.len() != rb.len() {
                return false;
            }
            let m = ra.len();
            let mut c: usize = 0;
            while c < m
                invariant
                    m == ra@.len(),
                    m == rb@.len(),
                    n == self.cells@.len(),
                    n == other.cells@.len(),
                    r < n,
                    ra@ == self@.2[r as int],
                    rb@ == other@.2[r as int],
                    c <= m,
                    forall|j: int| 0 <= j < c ==> ra@[j] == rb@[j],
                decreases m - c,
            {
                if ra[c] != rb[c] {
                    return false;
                }
                c += 1;
            }
            r += 1;
        }
        assert(self@.2 =~= other@.2);
        true
    }

    /// The grid as text: each row's cells in decimal, separated by single
    /// spaces, each row followed by a line break.
    pub fn render(&self) -> (t: String)
        ensures
            t@ == grid_text(self@.2),
    {
        let mut out = String::new();
        let n = self.cells.len();
        let mut r: usize = 0;
        while r < n
            invariant
                n == self@.2.len(),
                r <= n,
                out@ == grid_text(self@.2.take(r as int)),
            decreases n - r,
        {
            let line = &self.cells[r];
            let ghost before = out@;
            let m = line.len();
            let mut c: usize = 0;
            while c < m
                invariant
                    m == line@.len(),
                    line@ == self@.2[r as int],
                    c <= m,
                    out@ == before + row_text(line@.take(c as int)),
                decreases m - c,
            {
                if c > 0 {
                    proof { reveal_strlit(" "); }
                    out.append(" ");
                }
                push_decimal(&mut out, line[c]);
                proof {
                    let t = line@.take(c + 1);
                    assert(t.drop_last() =~= line@.take(c as int));
                }
                c += 1;
            }
            proof { reveal_strlit("\n"); }
            out.append("\n");
            proof {
                let t = self@.2.take(r + 1);
                assert(t.drop_last() =~= self@.2.take(r as int));
                assert(line@.take(m as int) =~= line@);
            }
            r += 1;
        }
        assert(self@.2.take(n as int) =~= self@.2);
        out
    }

    /// Position of the first cell (row-major) that holds `color`.
    pub fn find_color(&self, color: u8) -> (p: Option<(usize, usize)>)
        ensures
            match p {
                Some((r, c)) => find_color_model(self@, color) == Some((r as int, c as int)),
                None => find_color_model(self@, color) is None,
            },
    {
        let ghost cells = self@.2;
        let n = self.cells.len();
        let mut r: usize = 0;
        while r < n
            invariant
                n == cells.len(),
                cells == self@.2,
                r <= n,
                cells_first(cells, color, 0) == cells_first(cells, color, r as int),
            decreases n - r,
        {
            let line = &self.cells[r];
            let m = line.len();
            let mut c: usize = 0;
            while c < m
                invariant
                    m == line@.len(),
                    n == cells.len(),
                    cells == self@.2,
                    r < n,
                    cells_first(cells, color, 0) == cells_first(cells, color, r as int),
                    line@ == cells[r as int],
                    c <= m,
                    row_first(cells[r as int], color, 0) == row_first(cells[r as int], color, c as int),
                decreases m - c,
            {
                if line[c] == color {
                    return Some((r, c));
                }
                c += 1;
            }
            r += 1;
        }
        None
    }

    /// Position of the agent's own marker.
    pub fn find_marker(&self) -> (p: Option<(usize, usize)>)
        ensures
            match p {
                Some((r, c)) => find_color_model(self@, marker_color()) == Some((r as int, c as int)),
                None => find_color_model(self@, marker_color()) is None,
            },
    {
        self.find_color(1)
    }

    /// Position of the other agent's marker.
    pub fn find_other(&self) -> (p: Option<(usize, usize)>)
        ensures
            match p {
                Some((r, c)) => find_color_model(self@, other_color()) == Some((r as int, c as int)),
                None => find_color_model(self@, other_color()) is None,
            },
    {
        self.find_color(2)
    }

    /// A copy of the grid with every cell of `color` replaced by background.
    pub fn strip_color(&self, color: u8) -> (g: Grid)
        ensures
            g@ == strip_model(self@, color),
    {
        let mut cells: Vec<Vec<u8>> = Vec::new();
        let n = self.cells.len();
        let mut r: usize = 0;
        while r < n
            invariant
                n == self@.2.len(),
                r <= n,
                cells@.len() == r,
                forall|i: int| 0 <= i < r ==> #[trigger] cells@[i]@ == strip_row(self@.2[i], color),
            decreases n - r,
        {
            let line = &self.cells[r];
            let m = line.len();
            let mut out: Vec<u8> = Vec::new();
            let mut c: usize = 0;
            while c < m
                invariant
                    m == line@.len(),
                    line@ == self@.2[r as int],
                    c <= m,
                    out@ == strip_row(line@, color).take(c as int),
                decreases m - c,
            {
                let x = line[c];
                out.push(if x == color { 0 } else { x });
                c += 1;
            }
            cells.push(out);
            r += 1;
        }
        let g = Grid { width: self.width, height: self.height, cells };
        g
    }
}

impl Clone for Grid {
    /// An exact copy of the grid.
    fn clone(&self) -> (g: Self)
        ensures
            g@ == self@,
    {
        let mut cells: Vec<Vec<u8>> = Vec::new();
        let n = self.cells.len();
        let mut r: usize = 0;
        while r < n
            invariant
                n == self@.2.len(),
                r <= n,
                cells@.len() == r,
                forall|i: int| 0 <= i < r ==> #[trigger] cells@[i]@ == self@.2[i],
            decreases n - r,
        {
            let line = &self.cells[r];
            let m = line.len();
            let mut out: Vec<u8> = Vec::new();
            let mut c: usize = 0;
            while c < m
                invariant
                    m == line@.len(),
                    line@ == self@.2[r as int],
                    c <= m,
                    out@ == line@.take(c as int),
                decreases m - c,
            {
                out.push(line[c]);
                c += 1;
            }
            cells.push(out);
            r += 1;
        }
        let g = Grid { width: self.width, height: self.height, cells };
        g
    }
}

/// Manhattan distance between two positions.
pub fn manhattan(a: (usize, usize), b: (usize, usize)) -> (d: usize)
    requires
        manhattan_model((a.0 as int, a.1 as int), (b.0 as int, b.1 as int)) <= usize::MAX,
    ensures
        d == manhattan_model((a.0 as int, a.1 as int), (b.0 as int, b.1 as int)),
{
    let dr = if a.0 >= b.0 { a.0 - b.0 } else { b.0 - a.0 };
    let dc = if a.1 >= b.1 { a.1 - b.1 } else { b.1 - a.1 };
    dr + dc
}

/// Read after write: a cell written inside the grid reads back the written
/// value, and every other cell keeps its value.
pub proof fn law_set_then_get(g: GridModel, row: int, col: int, val: u8, r: int, c: int)
    requires
        covered(g),
        0 <= row < g.1,
        0 <= col < g.0,
        0 <= r < g.2.len(),
        0 <= c < g.2[r].len(),
    ensures
        set_model(g, row, col, val).2[r][c] == (if r == row && c == col { val } else { g.2[r][c] }),
        set_model(g, row, col, val).0 == g.0 && set_model(g, row, col, val).1 == g.1,
{
}

/// A grid is at Hamming distance 0 from itself.
pub proof fn law_hamming_self_zero(g: GridModel)
    ensures
        hamming(g, g) == 0,
{
    lemma_cells_diff_zero(g.2, g.2, g.1 as int, g.0 as int);
}

/// Hamming distance is symmetric.
pub proof fn law_hamming_symmetric(a: GridModel, b: GridModel)
    ensures
        hamming(a, b) == hamming(b, a),
{
    if a.0 == b.0 && a.1 == b.1 {
        lemma_cells_diff_symmetric(a.2, b.2, a.1 as int, a.0 as int);
    }
}

proof fn lemma_cells_diff_symmetric(a: Seq<Seq<u8>>, b: Seq<Seq<u8>>, rows: int, width: int)
    ensures
        cells_diff(a, b, rows, width) == cells_diff(b, a, rows, width),
    decreases rows,
{
    if rows > 0 {
        lemma_cells_diff_symmetric(a, b, rows - 1, width);
        lemma_row_diff_symmetric(a[rows - 1], b[rows - 1], width);
    }
}

proof fn lemma_row_diff_symmetric(a: Seq<u8>, b: Seq<u8>, n: int)
    ensures
        row_diff(a, b, n) == row_diff(b, a, n),
    decreases n,
{
    if n > 0 {
        lemma_row_diff_symmetric(a, b, n - 1);
    }
}

/// Two well-shaped grids are at Hamming distance 0 exactly when they are equal:
/// "identical states have distance 0", and no other pair does.
pub proof fn law_hamming_zero_iff_equal(a: GridModel, b: GridModel)
    requires
        shaped(a),
        shaped(b),
    ensures
        hamming(a, b) == 0 <==> a == b,
{
    if a.0 == b.0 && a.1 == b.1 {
        lemma_cells_diff_zero(a.2, b.2, a.1 as int, a.0 as int);
        if hamming(a, b) == 0 {
            assert(forall|r: int| 0 <= r < a.1 ==> #[trigger] a.2[r] =~= b.2[r]);
            assert(a.2 =~= b.2);
        }
    }
}

} // verus!
