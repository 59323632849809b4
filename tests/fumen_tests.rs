use fumen::{fumen_field_delta, CellColor, DecodeFumenError, Fumen, Page, Piece, PieceType, RotationState};

#[test]
fn empty() {
    let fumen = Fumen::default();
    assert_eq!(fumen.encode(), "v115@");
    assert_eq!(Fumen::decode("v115@"), Ok(fumen));
}

#[test]
fn one_page_lock_piece() {
    let mut fumen = Fumen::default();
    fumen.add_page().piece = Some(Piece {
        kind: PieceType::T,
        rotation: RotationState::North,
        x: 2,
        y: 0,
    });
    assert_eq!(fumen.encode(), "v115@vhAVPJ");
    assert_eq!(Fumen::decode("v115@vhAVPJ"), Ok(fumen));
}

#[test]
fn lock_piece() {
    let mut fumen = Fumen::default();
    fumen.add_page().piece = Some(Piece {
        kind: PieceType::T,
        rotation: RotationState::North,
        x: 2,
        y: 0,
    });
    fumen.pages.push(Page::default());
    assert_eq!(fumen.encode(), "v115@vhAVPJThQLHeSLPeAAA");
    assert_eq!(Fumen::decode("v115@vhAVPJThQLHeSLPeAAA"), Ok(fumen));
}

#[test]
fn o_piece_wobble() {
    let mut fumen = Fumen::default();
    let page = fumen.add_page();
    page.field[2][3] = CellColor::Grey;
    page.field[5][3] = CellColor::Grey;
    page.field[8][3] = CellColor::Grey;
    page.piece = Some(Piece {
        kind: PieceType::O,
        rotation: RotationState::North,
        x: 3,
        y: 0,
    });
    fumen.add_page().piece = Some(Piece {
        kind: PieceType::O,
        rotation: RotationState::West,
        x: 4,
        y: 3,
    });
    fumen.add_page().piece = Some(Piece {
        kind: PieceType::O,
        rotation: RotationState::South,
        x: 4,
        y: 7,
    });
    fumen.add_page().piece = Some(Piece {
        kind: PieceType::O,
        rotation: RotationState::East,
        x: 3,
        y: 10,
    });
    fumen.pages.push(Page::default());
    assert_eq!(
        fumen.encode(),
        "v115@OgA8ceA8ceA8jezKJvhC7bBjMBr9A6fxSHexSHeAAIexSHexSHeAAIexSHexSHeAAIexSHexSOeAAA"
    );
    assert_eq!(
        Fumen::decode(
            "v115@OgA8ceA8ceA8jezKJvhC7bBjMBr9A6fxSHexSHeAAIexSHexSHeAAIexSHexSHeAAIexSHexSOeAAA"
        ),
        Ok(fumen)
    );
}

#[test]
fn fumen_field() {
    let mut page = Page::default();
    page.field[0] = [CellColor::Grey; 10];
    page.garbage_row[0] = CellColor::Grey;
    let mut fumen_field = [[CellColor::Empty; 10]; 24];
    fumen_field[22] = [CellColor::Grey; 10];
    fumen_field[23][0] = CellColor::Grey;
    assert_eq!(page.fumen_field(), fumen_field);
}

#[test]
fn fumen_field_deltas() {
    let mut page = Page::default();
    let empty = page.fumen_field();
    page.field[0] = [CellColor::Grey; 10];
    page.garbage_row[0] = CellColor::Grey;
    let mut deltas = [[8; 10]; 24];
    deltas[22] = [16; 10];
    deltas[23][0] = 16;
    assert_eq!(fumen_field_delta(empty, page.fumen_field()), deltas);
}

#[test]
fn simple_field() {
    let mut fumen = Fumen::default();
    fumen.add_page().field[22][0] = CellColor::Grey;
    assert_eq!(fumen.encode(), "v115@A8uhAgH");
    assert_eq!(Fumen::decode("v115@A8uhAgH"), Ok(fumen));
}

#[test]
fn arbitrary_field() {
    let mut fumen = Fumen::default();
    let page = fumen.add_page();
    page.field[0] = [CellColor::Grey; 10];
    page.field[0][4] = CellColor::Empty;
    page.field[0][7] = CellColor::T;
    page.field[1] = [CellColor::S; 10];
    page.field[1][1] = CellColor::Empty;
    page.field[1][9] = CellColor::L;
    page.field[2] = [CellColor::Z; 10];
    page.field[2][6] = CellColor::Empty;
    page.field[2][2] = CellColor::O;
    page.field[3] = [CellColor::I; 10];
    page.field[3][2] = CellColor::Empty;
    page.field[3][6] = CellColor::J;
    assert_eq!(fumen.encode(), "v115@9gxhAeyhg0yhBtQpCtAeCtQ4AeW4glD8AeB8wwB8JeAgH");
    assert_eq!(
        Fumen::decode("v115@9gxhAeyhg0yhBtQpCtAeCtQ4AeW4glD8AeB8wwB8JeAgH"),
        Ok(fumen)
    );
}

#[test]
fn line_clear() {
    let mut fumen = Fumen::default();
    fumen.add_page().field[0] = [CellColor::Grey; 10];
    fumen.add_page();
    assert_eq!(fumen.encode(), "v115@bhJ8JeAgHvhAAAA");
    assert_eq!(Fumen::decode("v115@bhJ8JeAgHvhAAAA"), Ok(fumen));
}

#[test]
fn rise() {
    let mut fumen = Fumen::default();
    let page = fumen.add_page();
    page.field[0][1] = CellColor::I;
    page.garbage_row[4] = CellColor::Grey;
    page.rise = true;
    fumen.add_page();
    fumen.pages.push(Page::default());
    assert_eq!(fumen.encode(), "v115@chwhLeA8EeAYJvhAAAAShQaLeAAOeAAA");
    assert_eq!(Fumen::decode("v115@chwhLeA8EeAYJvhAAAAShQaLeAAOeAAA"), Ok(fumen));
}

#[test]
fn mirror() {
    let mut fumen = Fumen::default();
    let page = fumen.add_page();
    page.field[0] = [
        CellColor::I,
        CellColor::L,
        CellColor::O,
        CellColor::Z,
        CellColor::T,
        CellColor::J,
        CellColor::S,
        CellColor::Grey,
        CellColor::Empty,
        CellColor::Empty,
    ];
    page.mirror = true;
    fumen.add_page();
    fumen.pages.push(Page::default());
    assert_eq!(fumen.encode(), "v115@bhwhglQpAtwwg0Q4A8LeAQLvhAAAAdhAAwDgHQLAPwSgWQaJeAAA");
    assert_eq!(
        Fumen::decode("v115@bhwhglQpAtwwg0Q4A8LeAQLvhAAAAdhAAwDgHQLAPwSgWQaJeAAA"),
        Ok(fumen)
    );
}

#[test]
fn comment() {
    let mut fumen = Fumen::default();
    fumen.add_page().comment = Some("Hello World!".to_owned());
    assert_eq!(fumen.encode(), "v115@vhAAgWQAIoMDEvoo2AXXaDEkoA6A");
    assert_eq!(Fumen::decode("v115@vhAAgWQAIoMDEvoo2AXXaDEkoA6A"), Ok(fumen));
}

#[test]
fn comment_unicode() {
    let mut fumen = Fumen::default();
    fumen.add_page().comment = Some("こんにちは世界".to_owned());
    assert_eq!(
        fumen.encode(),
        "v115@vhAAgWqAlvs2A1sDfEToABBlvs2AWDEfET4J6Alvs2AWJEfE0H3KBlvtHB00AAA"
    );
    assert_eq!(
        Fumen::decode("v115@vhAAgWqAlvs2A1sDfEToABBlvs2AWDEfET4J6Alvs2AWJEfE0H3KBlvtHB00AAA"),
        Ok(fumen)
    );
}

#[test]
fn comment_surrogate_pair() {
    let mut fumen = Fumen::default();
    fumen.add_page().comment = Some("🂡🆛🏍😵".to_owned());
    assert_eq!(
        fumen.encode(),
        "v115@vhAAgWwAl/SSBzEEfEEFj6Al/SSBzEEfEkGpzBl/SSBzEEfEkpv6Bl/SSBTGEfEEojHB"
    );
    assert_eq!(
        Fumen::decode(
            "v115@vhAAgWwAl/SSBzEEfEEFj6Al/SSBzEEfEkGpzBl/SSBzEEfEkpv6Bl/SSBTGEfEEojHB"
        ),
        Ok(fumen)
    );
}

#[test]
fn not_a_fumen() {
    assert_eq!(Fumen::decode(""), Err(DecodeFumenError));
    assert_eq!(Fumen::decode("v115@hello world"), Err(DecodeFumenError));
    assert_eq!(Fumen::decode("無効"), Err(DecodeFumenError));
}

#[test]
fn no_piece_lock() {
    let mut fumen = Fumen::default();
    let page = fumen.add_page();
    page.field[0] = [CellColor::Grey; 10];
    page.lock = false;
    page.piece = Some(Piece {
        kind: PieceType::T,
        rotation: RotationState::North,
        x: 3,
        y: 1,
    });
    fumen.add_page();
    assert_eq!(fumen.encode(), "v115@bhJ8Je1KnvhA1qf");
    assert_eq!(Fumen::decode("v115@bhJ8Je1KnvhA1qf"), Ok(fumen));
}
