//! Pages, their wire layout and the rules that start the next page from the current one.
use vstd::prelude::*;
use crate::types::{color_of_value, color_value, decode_cell_color, kind_color, piece_cell, CellColor, Piece};

verus! {

broadcast use vstd::seq_lib::group_seq_properties, vstd::array::group_array_axioms;

/// One row of ten cells, left to right.
pub type Row = [CellColor; 10];

/// The visible field: 23 rows, y-up (index 0 is the bottom row).
pub type Grid = [[CellColor; 10]; 23];

/// The field as it travels on the wire: 24 rows, y-down, the garbage row last.
pub type WireGrid = [[CellColor; 10]; 24];

/// One frame of a diagram.
#[derive(Clone, Debug, PartialEq, Eq, Hash)]
pub struct Page {
    pub piece: Option<Piece>,
    pub rise: bool,
    pub mirror: bool,
    pub lock: bool,
    pub comment: Option<String>,
    /// y-up: index 0 is the bottom row.
    pub field: [[CellColor; 10]; 23],
    pub garbage_row: [CellColor; 10],
}

/// What a page holds, with its field and garbage row as sequences of cells.
pub struct PageView {
    pub piece: Option<Piece>,
    pub rise: bool,
    pub mirror: bool,
    pub lock: bool,
    pub comment: Option<Seq<char>>,
    pub field: Seq<Seq<CellColor>>,
    pub garbage_row: Seq<CellColor>,
}

impl View for Page {
    type V = PageView;

    open spec fn view(&self) -> PageView {
        PageView {
            piece: self.piece,
            rise: self.rise,
            mirror: self.mirror,
            lock: self.lock,
            comment: match self.comment {
                Some(c) => Some(c@),
                None => None,
            },
            field: rows_of(self.field),
            garbage_row: self.garbage_row@,
        }
    }
}

/// A grid of rows as a sequence of sequences of cells.
pub open spec fn rows_of<const N: usize>(g: [[CellColor; 10]; N]) -> Seq<Seq<CellColor>> {
    g@.map_values(|r: [CellColor; 10]| r@)
}

/// A row of ten empty cells.
pub open spec fn empty_row() -> Seq<CellColor> {
    Seq::new(10, |x: int| CellColor::Empty)
}

/// Whether no cell of a row is empty.
pub open spec fn row_full(r: Seq<CellColor>) -> bool {
    forall|x: int| 0 <= x < r.len() ==> r[x] != CellColor::Empty
}

/// Whether one of the four cells of `p` is `(x, y)`.
pub open spec fn covers(p: Piece, x: int, y: int) -> bool {
    exists|i: int| 0 <= i < 4 && #[trigger] piece_cell(p, i) == (x, y)
}

/// The field with the cells of `p` painted in its colour; cells off the field are dropped.
pub open spec fn lock_rows(g: Seq<Seq<CellColor>>, p: Piece) -> Seq<Seq<CellColor>> {
    Seq::new(
        23,
        |y: int|
            Seq::new(10, |x: int| if covers(p, x, y) { kind_color(p.kind) } else { g[y][x] }),
    )
}

/// The field with its full rows removed, the rest moved down and empty rows on top.
pub open spec fn clear_rows(g: Seq<Seq<CellColor>>) -> Seq<Seq<CellColor>> {
    let kept = g.filter(|r: Seq<CellColor>| !row_full(r));
    kept + Seq::new((23 - kept.len()) as nat, |i: int| empty_row())
}

/// The field moved up one row, with the garbage row entering at the bottom.
pub open spec fn rise_rows(g: Seq<Seq<CellColor>>, garbage: Seq<CellColor>) -> Seq<Seq<CellColor>> {
    seq![garbage] + g.take(22)
}

/// The field with each row reversed left to right.
pub open spec fn mirror_rows(g: Seq<Seq<CellColor>>) -> Seq<Seq<CellColor>> {
    Seq::new(23, |y: int| Seq::new(10, |x: int| g[y][9 - x]))
}

/// The field the following page starts from: lock, line clear, rise, then mirror.
pub open spec fn next_rows(p: PageView) -> Seq<Seq<CellColor>> {
    let g0 = p.field;
    let g1 = if p.lock && p.piece is Some { lock_rows(g0, p.piece.unwrap()) } else { g0 };
    let g2 = if p.lock { clear_rows(g1) } else { g1 };
    let g3 = if p.rise { rise_rows(g2, p.garbage_row) } else { g2 };
    if p.mirror { mirror_rows(g3) } else { g3 }
}

pub(crate) fn empty_line() -> (r: Row)
    ensures
        r@ == empty_row(),
{
    let mut r = [CellColor::Empty; 10];
    let mut x: usize = 0;
    while x < 10
        invariant
            0 <= x <= 10,
            forall|k: int| 0 <= k < x ==> #[trigger] r[k] == CellColor::Empty,
        decreases 10 - x,
    {
        r[x] = CellColor::Empty;
        x = x + 1;
    }
    assert(r@ =~= empty_row());
    r
}

fn empty_grid() -> (r: Grid)
    ensures
        rows_of(r) == Seq::new(23, |i: int| empty_row()),
{
    let e = empty_line();
    let mut r = [e; 23];
    let mut y: usize = 0;
    while y < 23
        invariant
            0 <= y <= 23,
            e@ == empty_row(),
            forall|k: int| 0 <= k < y ==> #[trigger] r[k] == e,
        decreases 23 - y,
    {
        r[y] = e;
        y = y + 1;
    }
    assert(rows_of(r) =~~= Seq::new(23, |i: int| empty_row()));
    r
}

fn lock_piece(field: &mut Grid, p: Piece)
    ensures
        rows_of(*final(field)) == lock_rows(rows_of(*old(field)), p),
{
    let ghost orig = *field;
    let cells = p.cells();
    let color = p.kind.color();
    let mut i: usize = 0;
    while i < 4
        invariant
            0 <= i <= 4,
            forall|j: int| 0 <= j < 4 ==> (#[trigger] cells[j].0 as int, cells[j].1 as int) == piece_cell(p, j),
            color == kind_color(p.kind),
            forall|y: int, x: int|
                0 <= y < 23 && 0 <= x < 10 ==> #[trigger] field[y][x] == if exists|j: int|
                    0 <= j < i && #[trigger] piece_cell(p, j) == (x, y) {
                    color
                } else {
                    orig[y][x]
                },
        decreases 4 - i,
    {
        let (x, y) = cells[i];
        if 0 <= x && x < 10 && 0 <= y && y < 23 {
            let mut row = field[y as usize];
            row[x as usize] = color;
            field[y as usize] = row;
        }
        assert forall|yy: int, xx: int| 0 <= yy < 23 && 0 <= xx < 10 implies #[trigger] field[yy][xx]
            == if exists|j: int| 0 <= j < i + 1 && #[trigger] piece_cell(p, j) == (xx, yy) {
            color
        } else {
            orig[yy][xx]
        } by {
            if piece_cell(p, i as int) == (xx, yy) {
            } else {
                if exists|j: int| 0 <= j < i + 1 && #[trigger] piece_cell(p, j) == (xx, yy) {
                    let j = choose|j: int| 0 <= j < i + 1 && #[trigger] piece_cell(p, j) == (xx, yy);
                    assert(j < i);
                }
            }
        }
        i = i + 1;
    }
    assert(rows_of(*field) =~~= lock_rows(rows_of(orig), p));
}


fn row_is_full(r: &Row) -> (b: bool)
    ensures
        b == row_full(r@),
{
    let mut x: usize = 0;
    while x < 10
        invariant
            0 <= x <= 10,
            forall|k: int| 0 <= k < x ==> r[k] != CellColor::Empty,
        decreases 10 - x,
    {
        if r[x] == CellColor::Empty {
            return false;
        }
        x = x + 1;
    }
    true
}

fn clear_lines(field: &Grid) -> (r: Grid)
    ensures
        rows_of(r) == clear_rows(rows_of(*field)),
{
    let ghost g = rows_of(*field);
    let ghost pred = |r: Seq<CellColor>| !row_full(r);
    let mut out = empty_grid();
    assert forall|k: int| 0 <= k < 23 implies #[trigger] out[k]@ == empty_row() by {
        assert(rows_of(out)[k] == out[k]@);
    }
    let mut y: usize = 0;
    let mut i: usize = 0;
    while i < 23
        invariant
            0 <= i <= 23,
            g == rows_of(*field),
            pred == (|r: Seq<CellColor>| !row_full(r)),
            y == g.take(i as int).filter(pred).len(),
            y <= i,
            forall|k: int| 0 <= k < y ==> #[trigger] out[k]@ == g.take(i as int).filter(pred)[k],
            forall|k: int| y <= k < 23 ==> #[trigger] out[k]@ == empty_row(),
        decreases 23 - i,
    {
        let row = field[i];
        proof {
            assert(g.take(i + 1) == g.take(i as int).push(g[i as int]));
            g.take(i as int).lemma_filter_push(g[i as int], pred);
        }
        if !row_is_full(&row) {
            out[y] = row;
            y = y + 1;
        }
        i = i + 1;
    }
    proof {
        assert(g.take(23) == g);
        assert(rows_of(out) =~~= clear_rows(g));
    }
    out
}

fn rise_field(field: &Grid, garbage: &Row) -> (r: Grid)
    ensures
        rows_of(r) == rise_rows(rows_of(*field), garbage@),
{
    let mut out = *field;
    let mut i: usize = 22;
    while i > 0
        invariant
            0 <= i <= 22,
            forall|k: int| 0 <= k <= i ==> #[trigger] out[k] == field[k],
            forall|k: int| i < k < 23 ==> #[trigger] out[k] == field[k - 1],
        decreases i,
    {
        out[i] = out[i - 1];
        i = i - 1;
    }
    out[0] = *garbage;
    assert(rows_of(out) =~~= rise_rows(rows_of(*field), garbage@));
    out
}

fn mirror_field(field: &Grid) -> (r: Grid)
    ensures
        rows_of(r) == mirror_rows(rows_of(*field)),
{
    let mut out = *field;
    let mut y: usize = 0;
    while y < 23
        invariant
            0 <= y <= 23,
            forall|k: int, x: int| 0 <= k < y && 0 <= x < 10 ==> #[trigger] out[k][x] == field[k][9 - x],
        decreases 23 - y,
    {
        let src = field[y];
        let mut row = src;
        let mut x: usize = 0;
        while x < 10
            invariant
                0 <= x <= 10,
                forall|j: int| 0 <= j < x ==> #[trigger] row[j] == src[9 - j],
            decreases 10 - x,
        {
            row[x] = src[9 - x];
            x = x + 1;
        }
        out[y] = row;
        y = y + 1;
    }
    assert(rows_of(out) =~~= mirror_rows(rows_of(*field)));
    out
}


/// The page that follows `p`: its field after the transition rules, no comment, the
/// piece kept only when it was not locked, and the one-page flags cleared.
pub open spec fn next_page_view(p: PageView) -> PageView {
    PageView {
        piece: if p.lock { None } else { p.piece },
        rise: false,
        mirror: false,
        lock: p.lock,
        comment: None,
        field: next_rows(p),
        garbage_row: if p.rise { empty_row() } else { p.garbage_row },
    }
}

/// A fresh page: empty field and garbage row, no piece, no comment, locking on.
pub open spec fn default_page_view() -> PageView {
    PageView {
        piece: None,
        rise: false,
        mirror: false,
        lock: true,
        comment: None,
        field: Seq::new(23, |y: int| empty_row()),
        garbage_row: empty_row(),
    }
}

/// The wire grid of a page: field rows top to bottom, then the garbage row.
pub open spec fn wire_rows(p: PageView) -> Seq<Seq<CellColor>> {
    Seq::new(24, |y: int| if y < 23 { p.field[22 - y] } else { p.garbage_row })
}

/// The wire delta of one cell: `8 + to - from`.
pub open spec fn cell_delta(from: CellColor, to: CellColor) -> int {
    8 + color_value(to) - color_value(from)
}

/// Whether a view has the shape of a page: 23 rows of ten cells and a garbage row of ten.
pub open spec fn well_shaped(p: PageView) -> bool {
    &&& p.field.len() == 23
    &&& forall|y: int| 0 <= y < 23 ==> (#[trigger] p.field[y]).len() == 10
    &&& p.garbage_row.len() == 10
}

impl Default for Page {
    fn default() -> (r: Page)
        ensures
            r@ == default_page_view(),
    {
        let r = Page {
            piece: None,
            rise: false,
            mirror: false,
            lock: true,
            comment: None,
            field: empty_grid(),
            garbage_row: empty_line(),
        };
        r
    }
}

impl Page {
    /// Every page value has the shape of a page.
    pub proof fn lemma_well_shaped(&self)
        ensures
            well_shaped(self@),
    {
    }

    /// A copy of this page.
    pub fn duplicate(&self) -> (r: Page)
        ensures
            r@ == self@,
    {
        Page {
            piece: self.piece,
            rise: self.rise,
            mirror: self.mirror,
            lock: self.lock,
            comment: self.get_comment(),
            field: self.field,
            garbage_row: self.garbage_row,
        }
    }

    /// The page that follows this one, as fumen starts it: the piece locks when locking is
    /// on, full rows clear when locking is on, the garbage row rises, the field mirrors.
    pub fn next_page(&self) -> (r: Page)
        ensures
            r@ == next_page_view(self@),
    {
        let mut field = self.field;
        if self.lock {
            if let Some(p) = self.piece {
                lock_piece(&mut field, p);
            }
            field = clear_lines(&field);
        }
        if self.rise {
            field = rise_field(&field, &self.garbage_row);
        }
        if self.mirror {
            field = mirror_field(&field);
        }
        let garbage_row = if self.rise {
            empty_line()
        } else {
            self.garbage_row
        };
        let r = Page {
            piece: if self.lock { None } else { self.piece },
            rise: false,
            mirror: false,
            lock: self.lock,
            comment: None,
            field,
            garbage_row,
        };
        assert(r@.field == next_rows(self@));
        r
    }

    /// The page's field in wire order: rows from the top, then the garbage row.
    pub fn fumen_field(&self) -> (r: WireGrid)
        ensures
            rows_of(r) == wire_rows(self@),
    {
        let mut out = [[CellColor::Empty; 10]; 24];
        let mut y: usize = 0;
        while y < 23
            invariant
                0 <= y <= 23,
                forall|k: int| 0 <= k < y ==> #[trigger] out[k] == self.field[22 - k],
            decreases 23 - y,
        {
            out[y] = self.field[22 - y];
            y = y + 1;
        }
        out[23] = self.garbage_row;
        assert(rows_of(out) =~~= wire_rows(self@));
        out
    }

    /// The comment, if any.
    pub fn comment(&self) -> (r: Option<String>)
        ensures
            r matches Some(c) ==> self@.comment == Some(c@),
            r is None ==> self@.comment is None,
    {
        self.get_comment()
    }

    /// The comment, if any.
    pub fn get_comment(&self) -> (r: Option<String>)
        ensures
            r matches Some(c) ==> self@.comment == Some(c@),
            r is None ==> self@.comment is None,
    {
        match &self.comment {
            Some(c) => Some(c.clone()),
            None => None,
        }
    }

    /// Replaces the comment.
    pub fn set_comment(&mut self, comment: Option<String>)
        ensures
            final(self)@ == (PageView {
                comment: match comment {
                    Some(c) => Some(c@),
                    None => None,
                },
                ..old(self)@
            }),
    {
        self.set_comment_rs(comment)
    }

    /// Replaces the comment.
    pub fn set_comment_rs(&mut self, comment: Option<String>)
        ensures
            final(self)@ == (PageView {
                comment: match comment {
                    Some(c) => Some(c@),
                    None => None,
                },
                ..old(self)@
            }),
    {
        self.comment = comment;
    }

    /// The field, y-up.
    pub fn get_field(&self) -> (r: Grid)
        ensures
            rows_of(r) == self@.field,
    {
        self.field
    }

    /// The garbage row.
    pub fn get_garbage_row(&self) -> (r: Row)
        ensures
            r@ == self@.garbage_row,
    {
        self.garbage_row
    }

    /// Replaces the field (y-up).
    pub fn set_field_rs(&mut self, field: Grid)
        ensures
            final(self)@ == (PageView { field: rows_of(field), ..old(self)@ }),
    {
        self.field = field;
    }

    /// Replaces the garbage row.
    pub fn set_garbage_row_rs(&mut self, garbage_row: Row)
        ensures
            final(self)@ == (PageView { garbage_row: garbage_row@, ..old(self)@ }),
    {
        self.garbage_row = garbage_row;
    }

    /// The field as rows (bottom first) of numeric cell values.
    pub fn field(&self) -> (r: Vec<Vec<u8>>)
        ensures
            r@.len() == 23,
            forall|y: int| 0 <= y < 23 ==> (#[trigger] r@[y])@.len() == 10,
            forall|y: int, x: int|
                0 <= y < 23 && 0 <= x < 10 ==> r@[y]@[x] as nat == color_value(#[trigger] self@.field[y][x]),
    {
        let mut out: Vec<Vec<u8>> = Vec::new();
        let mut y: usize = 0;
        while y < 23
            invariant
                0 <= y <= 23,
                out@.len() == y,
                forall|k: int| 0 <= k < y ==> (#[trigger] out@[k])@.len() == 10,
                forall|k: int, x: int|
                    0 <= k < y && 0 <= x < 10 ==> out@[k]@[x] as nat == color_value(#[trigger] self.field[k][x]),
            decreases 23 - y,
        {
            out.push(values_of_row(&self.field[y]));
            y = y + 1;
        }
        out
    }

    /// The garbage row as numeric cell values.
    pub fn garbage_row(&self) -> (r: Vec<u8>)
        ensures
            r@.len() == 10,
            forall|x: int| 0 <= x < 10 ==> r@[x] as nat == color_value(#[trigger] self@.garbage_row[x]),
    {
        values_of_row(&self.garbage_row)
    }

    /// Sets the cells given as numeric values: `field[y][x]` for row `y` (bottom first); cells
    /// not given keep their colour.
    pub fn set_field(&mut self, field: Vec<Vec<u8>>)
        requires
            field@.len() <= 23,
            forall|y: int| 0 <= y < field@.len() ==> (#[trigger] field@[y])@.len() <= 10,
            forall|y: int, x: int|
                0 <= y < field@.len() && 0 <= x < field@[y]@.len() ==> #[trigger] field@[y]@[x] <= 8,
        ensures
            final(self).piece == old(self).piece,
            final(self)@.comment == old(self)@.comment,
            final(self)@.garbage_row == old(self)@.garbage_row,
            final(self).rise == old(self).rise && final(self).mirror == old(self).mirror
                && final(self).lock == old(self).lock,
            forall|y: int, x: int|
                0 <= y < 23 && 0 <= x < 10 ==> #[trigger] final(self).field[y][x] == if y < field@.len() && x
                    < field@[y]@.len() {
                    color_of_value(field@[y]@[x] as int).unwrap()
                } else {
                    old(self).field[y][x]
                },
    {
        let mut y: usize = 0;
        while y < field.len()
            invariant
                0 <= y <= field@.len() <= 23,
                forall|k: int| 0 <= k < field@.len() ==> (#[trigger] field@[k])@.len() <= 10,
                forall|k: int, x: int|
                    0 <= k < field@.len() && 0 <= x < field@[k]@.len() ==> #[trigger] field@[k]@[x] <= 8,
                self.piece == old(self).piece,
                self.comment == old(self).comment,
                self.garbage_row == old(self).garbage_row,
                self.rise == old(self).rise && self.mirror == old(self).mirror && self.lock == old(self).lock,
                forall|k: int, x: int|
                    0 <= k < 23 && 0 <= x < 10 ==> #[trigger] self.field[k][x] == if k < y && x
                        < field@[k]@.len() {
                        color_of_value(field@[k]@[x] as int).unwrap()
                    } else {
                        old(self).field[k][x]
                    },
            decreases field@.len() - y,
        {
            let row = apply_values(&self.field[y], &field[y]);
            self.field[y] = row;
            y = y + 1;
        }
    }

    /// Sets the garbage cells given as numeric values; cells not given keep their colour.
    pub fn set_garbage_row(&mut self, garbage_row: Vec<u8>)
        requires
            garbage_row@.len() <= 10,
            forall|x: int| 0 <= x < garbage_row@.len() ==> #[trigger] garbage_row@[x] <= 8,
        ensures
            *final(self) == (Page { garbage_row: final(self).garbage_row, ..*old(self) }),
            forall|x: int|
                0 <= x < 10 ==> #[trigger] final(self).garbage_row[x] == if x < garbage_row@.len() {
                    color_of_value(garbage_row@[x] as int).unwrap()
                } else {
                    old(self).garbage_row[x]
                },
    {
        self.garbage_row = apply_values(&self.garbage_row, &garbage_row);
    }
}

fn values_of_row(row: &Row) -> (r: Vec<u8>)
    ensures
        r@.len() == 10,
        forall|x: int| 0 <= x < 10 ==> r@[x] as nat == color_value(#[trigger] row[x]),
{
    let mut out: Vec<u8> = Vec::new();
    let mut x: usize = 0;
    while x < 10
        invariant
            0 <= x <= 10,
            out@.len() == x,
            forall|k: int| 0 <= k < x ==> out@[k] as nat == color_value(#[trigger] row[k]),
        decreases 10 - x,
    {
        out.push(row[x].value());
        x = x + 1;
    }
    out
}

fn apply_values(row: &Row, values: &Vec<u8>) -> (r: Row)
    requires
        values@.len() <= 10,
        forall|x: int| 0 <= x < values@.len() ==> #[trigger] values@[x] <= 8,
    ensures
        forall|x: int|
            0 <= x < 10 ==> #[trigger] r[x] == if x < values@.len() {
                color_of_value(values@[x] as int).unwrap()
            } else {
                row[x]
            },
{
    let mut out = *row;
    let mut x: usize = 0;
    while x < values.len()
        invariant
            0 <= x <= values@.len() <= 10,
            forall|k: int| 0 <= k < values@.len() ==> #[trigger] values@[k] <= 8,
            forall|k: int|
                0 <= k < 10 ==> #[trigger] out[k] == if k < x {
                    color_of_value(values@[k] as int).unwrap()
                } else {
                    row[k]
                },
        decreases values@.len() - x,
    {
        match decode_cell_color(values[x] as usize) {
            Some(c) => out[x] = c,
            None => {},
        }
        x = x + 1;
    }
    out
}

/// Per-cell wire deltas `8 + to - from` between two wire grids.
pub fn fumen_field_delta(from: WireGrid, to: WireGrid) -> (r: [[usize; 10]; 24])
    ensures
        forall|y: int, x: int|
            0 <= y < 24 && 0 <= x < 10 ==> #[trigger] r[y][x] as int == cell_delta(from[y][x], to[y][x]),
{
    let mut deltas = [[0usize; 10]; 24];
    let mut y: usize = 0;
    while y < 24
        invariant
            0 <= y <= 24,
            forall|k: int, x: int|
                0 <= k < y && 0 <= x < 10 ==> #[trigger] deltas[k][x] as int == cell_delta(from[k][x], to[k][x]),
        decreases 24 - y,
    {
        let mut row = [0usize; 10];
        let mut x: usize = 0;
        while x < 10
            invariant
                0 <= x <= 10,
                0 <= y < 24,
                forall|j: int| 0 <= j < x ==> #[trigger] row[j] as int == cell_delta(from[y as int][j], to[y as int][j]),
            decreases 10 - x,
        {
            row[x] = 8 + to[y][x].value() as usize - from[y][x].value() as usize;
            x = x + 1;
        }
        deltas[y] = row;
        y = y + 1;
    }
    deltas
}

/// A page with nothing on it starts a page with nothing on it.
pub proof fn lemma_next_of_default()
    ensures
        next_page_view(default_page_view()) == default_page_view(),
{
    let d = default_page_view();
    let pred = |r: Seq<CellColor>| !row_full(r);
    assert forall|i: int| 0 <= i < d.field.len() implies pred(d.field[i]) by {
        assert(d.field[i][0] == CellColor::Empty);
    }
    lemma_filter_keeps_all(d.field, pred);
    assert(clear_rows(d.field) =~= d.field);
    assert(next_page_view(d).field == d.field);
    assert(next_page_view(d) == d);
}

proof fn lemma_filter_keeps_all(s: Seq<Seq<CellColor>>, pred: spec_fn(Seq<CellColor>) -> bool)
    requires
        forall|i: int| 0 <= i < s.len() ==> pred(s[i]),
    ensures
        s.filter(pred) == s,
    decreases s.len(),
{
    reveal(Seq::filter);
    if s.len() > 0 {
        lemma_filter_keeps_all(s.drop_last(), pred);
        assert(s.drop_last().push(s.last()) =~= s);
    }
}


/// The page that follows a page of page shape has page shape too.
pub proof fn lemma_next_well_shaped(p: PageView)
    requires
        well_shaped(p),
    ensures
        well_shaped(next_page_view(p)),
        forall|y: int| 0 <= y < 24 ==> (#[trigger] wire_rows(next_page_view(p))[y]).len() == 10,
{
    let g0 = p.field;
    let g1 = if p.lock && p.piece is Some { lock_rows(g0, p.piece.unwrap()) } else { g0 };
    assert(g1.len() == 23 && forall|y: int| 0 <= y < 23 ==> (#[trigger] g1[y]).len() == 10);
    let g2 = if p.lock { clear_rows(g1) } else { g1 };
    if p.lock {
        let pred = |r: Seq<CellColor>| !row_full(r);
        let kept = g1.filter(pred);
        g1.lemma_filter_len(pred);
        assert forall|y: int| 0 <= y < kept.len() implies (#[trigger] kept[y]).len() == 10 by {
            assert(kept.contains(kept[y]));
            g1.lemma_filter_contains_rev(pred, kept[y]);
        }
        assert(g2.len() == 23);
        assert forall|y: int| 0 <= y < 23 implies (#[trigger] g2[y]).len() == 10 by {
            if y < kept.len() {
                assert(g2[y] == kept[y]);
            }
        }
    }
    let g3 = if p.rise { rise_rows(g2, p.garbage_row) } else { g2 };
    assert(g3.len() == 23 && forall|y: int| 0 <= y < 23 ==> (#[trigger] g3[y]).len() == 10) by {
        if p.rise {
            assert forall|y: int| 0 <= y < 23 implies (#[trigger] g3[y]).len() == 10 by {
                if y > 0 {
                    assert(g3[y] == g2[y - 1]);
                }
            }
        }
    }
}

} // verus!
