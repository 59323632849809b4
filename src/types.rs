//! Cell colours, piece kinds, rotations and pieces.
use vstd::prelude::*;

verus! {

/// The contents of one cell of a field.
#[derive(Clone, Copy, Debug, PartialEq, Eq, Hash, Structural)]
pub enum CellColor {
    Empty,
    I,
    L,
    O,
    Z,
    T,
    J,
    S,
    Grey,
}

/// The numeric identity of a cell colour on the wire.
pub open spec fn color_value(c: CellColor) -> nat {
    match c {
        CellColor::Empty => 0,
        CellColor::I => 1,
        CellColor::L => 2,
        CellColor::O => 3,
        CellColor::Z => 4,
        CellColor::T => 5,
        CellColor::J => 6,
        CellColor::S => 7,
        CellColor::Grey => 8,
    }
}

/// The colour whose numeric identity is `v`, if there is one.
pub open spec fn color_of_value(v: int) -> Option<CellColor> {
    if v == 0 {
        Some(CellColor::Empty)
    } else if v == 1 {
        Some(CellColor::I)
    } else if v == 2 {
        Some(CellColor::L)
    } else if v == 3 {
        Some(CellColor::O)
    } else if v == 4 {
        Some(CellColor::Z)
    } else if v == 5 {
        Some(CellColor::T)
    } else if v == 6 {
        Some(CellColor::J)
    } else if v == 7 {
        Some(CellColor::S)
    } else if v == 8 {
        Some(CellColor::Grey)
    } else {
        None
    }
}

impl CellColor {
    /// The numeric identity of this colour.
    pub fn value(self) -> (r: u8)
        ensures
            r as nat == color_value(self),
    {
        match self {
            CellColor::Empty => 0,
            CellColor::I => 1,
            CellColor::L => 2,
            CellColor::O => 3,
            CellColor::Z => 4,
            CellColor::T => 5,
            CellColor::J => 6,
            CellColor::S => 7,
            CellColor::Grey => 8,
        }
    }
}

/// Maps a numeric identity back to its colour; values outside `0..=8` have none.
pub fn decode_cell_color(value: usize) -> (r: Option<CellColor>)
    ensures
        r == color_of_value(value as int),
        r is Some <==> value <= 8,
        r matches Some(c) ==> color_value(c) == value,
{
    match value {
        0 => Some(CellColor::Empty),
        1 => Some(CellColor::I),
        2 => Some(CellColor::L),
        3 => Some(CellColor::O),
        4 => Some(CellColor::Z),
        5 => Some(CellColor::T),
        6 => Some(CellColor::J),
        7 => Some(CellColor::S),
        8 => Some(CellColor::Grey),
        _ => None,
    }
}

/// Every colour is recovered from its numeric identity.
pub proof fn lemma_color_value_round_trip(c: CellColor)
    ensures
        color_value(c) <= 8,
        color_of_value(color_value(c) as int) == Some(c),
{
}

/// The seven tetromino kinds.
#[derive(Clone, Copy, Debug, PartialEq, Eq, Hash, Structural)]
pub enum PieceType {
    I,
    L,
    O,
    Z,
    T,
    J,
    S,
}

/// The numeric identity of a piece kind (`1..=7`), shared with its cell colour.
pub open spec fn kind_value(k: PieceType) -> nat {
    match k {
        PieceType::I => 1,
        PieceType::L => 2,
        PieceType::O => 3,
        PieceType::Z => 4,
        PieceType::T => 5,
        PieceType::J => 6,
        PieceType::S => 7,
    }
}

/// The piece kind whose numeric identity is `v`; `v` is in `1..=7`.
pub open spec fn kind_of_value(v: int) -> PieceType {
    if v == 1 {
        PieceType::I
    } else if v == 2 {
        PieceType::L
    } else if v == 3 {
        PieceType::O
    } else if v == 4 {
        PieceType::Z
    } else if v == 5 {
        PieceType::T
    } else if v == 6 {
        PieceType::J
    } else {
        PieceType::S
    }
}

/// The cell colour that a piece kind paints.
pub open spec fn kind_color(k: PieceType) -> CellColor {
    match k {
        PieceType::I => CellColor::I,
        PieceType::L => CellColor::L,
        PieceType::O => CellColor::O,
        PieceType::Z => CellColor::Z,
        PieceType::T => CellColor::T,
        PieceType::J => CellColor::J,
        PieceType::S => CellColor::S,
    }
}

impl PieceType {
    /// The piece kind with numeric identity `v`.
    pub fn from_i64(v: i64) -> (r: PieceType)
        requires
            1 <= v <= 7,
        ensures
            r == kind_of_value(v as int),
            kind_value(r) == v,
    {
        if v == 1 {
            PieceType::I
        } else if v == 2 {
            PieceType::L
        } else if v == 3 {
            PieceType::O
        } else if v == 4 {
            PieceType::Z
        } else if v == 5 {
            PieceType::T
        } else if v == 6 {
            PieceType::J
        } else {
            PieceType::S
        }
    }

    /// The numeric identity of this kind.
    pub fn value(self) -> (r: u8)
        ensures
            r as nat == kind_value(self),
    {
        match self {
            PieceType::I => 1,
            PieceType::L => 2,
            PieceType::O => 3,
            PieceType::Z => 4,
            PieceType::T => 5,
            PieceType::J => 6,
            PieceType::S => 7,
        }
    }

    /// The cell colour this kind paints.
    pub fn color(self) -> (r: CellColor)
        ensures
            r == kind_color(self),
            color_value(r) == kind_value(self),
    {
        match self {
            PieceType::I => CellColor::I,
            PieceType::L => CellColor::L,
            PieceType::O => CellColor::O,
            PieceType::Z => CellColor::Z,
            PieceType::T => CellColor::T,
            PieceType::J => CellColor::J,
            PieceType::S => CellColor::S,
        }
    }
}

impl From<PieceType> for CellColor {
    fn from(v: PieceType) -> (r: CellColor) {
        v.color()
    }
}

impl vstd::std_specs::convert::FromSpecImpl<PieceType> for CellColor {
    open spec fn obeys_from_spec() -> bool {
        true
    }

    open spec fn from_spec(v: PieceType) -> CellColor {
        kind_color(v)
    }
}

/// The four orientations; North is the spawn orientation.
#[derive(Clone, Copy, Debug, PartialEq, Eq, Hash, Structural)]
pub enum RotationState {
    South,
    East,
    North,
    West,
}

/// The wire identity of a rotation.
pub open spec fn rotation_value(r: RotationState) -> nat {
    match r {
        RotationState::South => 0,
        RotationState::East => 1,
        RotationState::North => 2,
        RotationState::West => 3,
    }
}

/// The rotation whose wire identity is `v`; `v` is in `0..4`.
pub open spec fn rotation_of_value(v: int) -> RotationState {
    if v == 0 {
        RotationState::South
    } else if v == 1 {
        RotationState::East
    } else if v == 2 {
        RotationState::North
    } else {
        RotationState::West
    }
}

impl RotationState {
    /// The wire identity of this rotation.
    pub fn value(self) -> (r: u8)
        ensures
            r as nat == rotation_value(self),
    {
        match self {
            RotationState::South => 0,
            RotationState::East => 1,
            RotationState::North => 2,
            RotationState::West => 3,
        }
    }
}


/// A tetromino placed by its SRS rotation centre, y-up.
#[derive(Clone, Copy, Debug, PartialEq, Eq, Hash, Structural)]
pub struct Piece {
    pub kind: PieceType,
    pub rotation: RotationState,
    pub x: u32,
    pub y: u32,
}

/// Horizontal shift from the SRS centre to the fumen centre.
pub open spec fn offset_x(k: PieceType, r: RotationState) -> int {
    match (k, r) {
        (PieceType::S, RotationState::East) => 1,
        (PieceType::Z, RotationState::West) => -1,
        (PieceType::O, RotationState::West) => -1,
        (PieceType::O, RotationState::South) => -1,
        (PieceType::I, RotationState::South) => -1,
        _ => 0,
    }
}

/// Vertical shift (y-up) from the SRS centre to the fumen centre.
pub open spec fn offset_y(k: PieceType, r: RotationState) -> int {
    match (k, r) {
        (PieceType::S, RotationState::North) => 1,
        (PieceType::Z, RotationState::North) => 1,
        (PieceType::O, RotationState::North) => 1,
        (PieceType::O, RotationState::West) => 1,
        (PieceType::I, RotationState::West) => 1,
        _ => 0,
    }
}

/// The position index of a piece's fumen centre: column plus ten times the row counted
/// from the top of the visible field.
pub open spec fn fumen_pos_of(p: Piece) -> int {
    (p.x + offset_x(p.kind, p.rotation)) + (22 - (p.y + offset_y(p.kind, p.rotation))) * 10
}

/// The packed piece number: kind, rotation and position.
pub open spec fn piece_number_of(p: Piece) -> int {
    kind_value(p.kind) + 8 * rotation_value(p.rotation) + 32 * fumen_pos_of(p)
}

/// Whether a piece's fumen centre lies on the 10 by 23 grid, so that its position
/// fits the wire format.
pub open spec fn on_grid(p: Piece) -> bool {
    0 <= p.x + offset_x(p.kind, p.rotation) < 10 && 0 <= p.y + offset_y(p.kind, p.rotation) <= 22
}

/// An integer taken modulo 2^32, as an unsigned coordinate.
pub open spec fn wrap32(v: int) -> u32 {
    (v % 0x1_0000_0000) as u32
}

/// The piece that a packed piece number describes, `None` when its kind bits are zero.
pub open spec fn piece_of_number(n: int) -> Option<Piece> {
    if n % 8 == 0 {
        None
    } else {
        let k = kind_of_value(n % 8);
        let r = rotation_of_value(n / 8 % 4);
        let pos = n / 32 % 240;
        Some(
            Piece {
                kind: k,
                rotation: r,
                x: wrap32(pos % 10 - offset_x(k, r)),
                y: wrap32(22 - pos / 10 - offset_y(k, r)),
            },
        )
    }
}

/// The four cells of a piece kind in the North orientation, relative to its centre.
pub open spec fn north_cells(k: PieceType) -> Seq<(int, int)> {
    match k {
        PieceType::I => seq![(-1, 0), (0, 0), (1, 0), (2, 0)],
        PieceType::O => seq![(0, 0), (1, 0), (0, 1), (1, 1)],
        PieceType::T => seq![(-1, 0), (0, 0), (1, 0), (0, 1)],
        PieceType::L => seq![(-1, 0), (0, 0), (1, 0), (1, 1)],
        PieceType::J => seq![(-1, 0), (0, 0), (1, 0), (-1, 1)],
        PieceType::S => seq![(-1, 0), (0, 0), (0, 1), (1, 1)],
        PieceType::Z => seq![(1, 0), (0, 0), (0, 1), (-1, 1)],
    }
}

/// A North-relative offset turned to the given orientation.
pub open spec fn rotate(r: RotationState, c: (int, int)) -> (int, int) {
    match r {
        RotationState::North => c,
        RotationState::East => (c.1, -c.0),
        RotationState::South => (-c.0, -c.1),
        RotationState::West => (-c.1, c.0),
    }
}

/// The absolute coordinates of the `i`-th cell of a piece.
pub open spec fn piece_cell(p: Piece, i: int) -> (int, int) {
    let c = rotate(p.rotation, north_cells(p.kind)[i]);
    (c.0 + p.x, c.1 + p.y)
}

fn north_cell(k: PieceType, i: usize) -> (r: (i64, i64))
    requires
        i < 4,
    ensures
        (r.0 as int, r.1 as int) == north_cells(k)[i as int],
{
    let (a, b, c, d): ((i64, i64), (i64, i64), (i64, i64), (i64, i64)) = match k {
        PieceType::I => ((-1, 0), (0, 0), (1, 0), (2, 0)),
        PieceType::O => ((0, 0), (1, 0), (0, 1), (1, 1)),
        PieceType::T => ((-1, 0), (0, 0), (1, 0), (0, 1)),
        PieceType::L => ((-1, 0), (0, 0), (1, 0), (1, 1)),
        PieceType::J => ((-1, 0), (0, 0), (1, 0), (-1, 1)),
        PieceType::S => ((-1, 0), (0, 0), (0, 1), (1, 1)),
        PieceType::Z => ((1, 0), (0, 0), (0, 1), (-1, 1)),
    };
    if i == 0 {
        a
    } else if i == 1 {
        b
    } else if i == 2 {
        c
    } else {
        d
    }
}

impl Piece {
    fn cell(&self, i: usize) -> (r: (i64, i64))
        requires
            i < 4,
        ensures
            (r.0 as int, r.1 as int) == piece_cell(*self, i as int),
    {
        let (x, y) = north_cell(self.kind, i);
        let (rx, ry): (i64, i64) = match self.rotation {
            RotationState::North => (x, y),
            RotationState::East => (y, -x),
            RotationState::South => (-x, -y),
            RotationState::West => (-y, x),
        };
        (rx + self.x as i64, ry + self.y as i64)
    }

    /// The absolute coordinates of the four cells this piece occupies; they are distinct.
    pub fn cells(&self) -> (r: [(i64, i64); 4])
        ensures
            forall|i: int|
                0 <= i < 4 ==> (#[trigger] r[i].0 as int, r[i].1 as int) == piece_cell(*self, i),
            forall|i: int, j: int| 0 <= i < j < 4 ==> r[i] != r[j],
    {
        proof {
            lemma_cells_distinct(*self);
        }
        [self.cell(0), self.cell(1), self.cell(2), self.cell(3)]
    }

    /// The position index of this piece's fumen centre (may fall off the grid).
    pub fn fumen_pos(&self) -> (r: i64)
        ensures
            r == fumen_pos_of(*self),
            -0x10_0000_0000 < r < 0x10_0000_0000,
    {
        let dx: i64 = match (self.kind, self.rotation) {
            (PieceType::S, RotationState::East) => 1,
            (PieceType::Z, RotationState::West) => -1,
            (PieceType::O, RotationState::West) => -1,
            (PieceType::O, RotationState::South) => -1,
            (PieceType::I, RotationState::South) => -1,
            _ => 0,
        };
        let dy: i64 = match (self.kind, self.rotation) {
            (PieceType::S, RotationState::North) => 1,
            (PieceType::Z, RotationState::North) => 1,
            (PieceType::O, RotationState::North) => 1,
            (PieceType::O, RotationState::West) => 1,
            (PieceType::I, RotationState::West) => 1,
            _ => 0,
        };
        (self.x as i64 + dx) + (22 - (self.y as i64 + dy)) * 10
    }

    /// The packed piece number of this piece.
    pub fn fumen_number(&self) -> (r: i64)
        ensures
            r == piece_number_of(*self),
            -0x400_0000_0000 < r < 0x400_0000_0000,
    {
        self.kind.value() as i64 + 8 * self.rotation.value() as i64 + 32 * self.fumen_pos()
    }
}

/// The four cells of every piece are pairwise distinct.
pub proof fn lemma_cells_distinct(p: Piece)
    ensures
        forall|i: int, j: int| 0 <= i < j < 4 ==> piece_cell(p, i) != piece_cell(p, j),
{
}


/// The piece a packed piece number describes, `None` when its kind bits are zero.
pub fn piece_from_number(n: usize) -> (r: Option<Piece>)
    ensures
        r == piece_of_number(n as int),
{
    let kind_bits = n % 8;
    if kind_bits == 0 {
        return None;
    }
    let kind = PieceType::from_i64(kind_bits as i64);
    let rot_bits = n / 8 % 4;
    let rotation = if rot_bits == 0 {
        RotationState::South
    } else if rot_bits == 1 {
        RotationState::East
    } else if rot_bits == 2 {
        RotationState::North
    } else {
        RotationState::West
    };
    let pos = n / 32 % 240;
    let fx = (pos % 10) as i64;
    let fy = 22 - (pos / 10) as i64;
    let dx: i64 = match (kind, rotation) {
        (PieceType::S, RotationState::East) => 1,
        (PieceType::Z, RotationState::West) => -1,
        (PieceType::O, RotationState::West) => -1,
        (PieceType::O, RotationState::South) => -1,
        (PieceType::I, RotationState::South) => -1,
        _ => 0,
    };
    let dy: i64 = match (kind, rotation) {
        (PieceType::S, RotationState::North) => 1,
        (PieceType::Z, RotationState::North) => 1,
        (PieceType::O, RotationState::North) => 1,
        (PieceType::O, RotationState::West) => 1,
        (PieceType::I, RotationState::West) => 1,
        _ => 0,
    };
    Some(Piece { kind, rotation, x: to_coordinate(fx - dx), y: to_coordinate(fy - dy) })
}

/// A small signed coordinate stored as an unsigned one, wrapping below zero.
fn to_coordinate(v: i64) -> (r: u32)
    requires
        -2 <= v <= 23,
    ensures
        r == wrap32(v as int),
{
    if v < 0 {
        (0x1_0000_0000i64 + v) as u32
    } else {
        v as u32
    }
}

/// A piece whose fumen centre lies on the grid is recovered from its packed number.
pub proof fn lemma_piece_number_round_trip(p: Piece)
    requires
        on_grid(p),
    ensures
        0 < piece_number_of(p) < 7680,
        piece_of_number(piece_number_of(p)) == Some(p),
{
    let pos = fumen_pos_of(p);
    let n = piece_number_of(p);
    let k = kind_value(p.kind) as int;
    let r = rotation_value(p.rotation) as int;
    assert(0 <= pos < 230);
    assert(n % 8 == k && n / 8 % 4 == r && n / 32 == pos) by (nonlinear_arith)
        requires
            n == k + 8 * r + 32 * pos,
            1 <= k < 8,
            0 <= r < 4,
            0 <= pos,
    ;
    assert(pos % 10 == p.x + offset_x(p.kind, p.rotation));
    assert(pos / 10 == 22 - (p.y + offset_y(p.kind, p.rotation)));
}

} // verus!
