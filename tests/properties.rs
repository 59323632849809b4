use fumen::{CellColor, DecodeFumenError, Fumen, Page, Piece, PieceType, RotationState};

fn all_kinds() -> Vec<PieceType> {
    vec![
        PieceType::I,
        PieceType::L,
        PieceType::O,
        PieceType::Z,
        PieceType::T,
        PieceType::J,
        PieceType::S,
    ]
}

fn all_rotations() -> Vec<RotationState> {
    vec![
        RotationState::South,
        RotationState::East,
        RotationState::North,
        RotationState::West,
    ]
}

#[test]
fn next_page_of_default_is_default() {
    assert_eq!(Page::default().next_page(), Page::default());
}

#[test]
fn cells_are_four_distinct() {
    for kind in all_kinds() {
        for rotation in all_rotations() {
            let cells = Piece { kind, rotation, x: 4, y: 10 }.cells();
            for i in 0..4 {
                for j in (i + 1)..4 {
                    assert_ne!(cells[i], cells[j]);
                }
            }
        }
    }
}

#[test]
fn cells_of_t_east() {
    let cells = Piece { kind: PieceType::T, rotation: RotationState::East, x: 4, y: 10 }.cells();
    assert_eq!(cells, [(4, 11), (4, 10), (4, 9), (5, 10)]);
}

#[test]
fn empty_run_closes_at_sixty_four_pages() {
    let mut fumen = Fumen::new();
    for _ in 0..65 {
        fumen.add_page();
    }
    let mut expected = String::from("v115@vh/AgH");
    for _ in 0..63 {
        expected.push_str("AAA");
    }
    expected.push_str("vhAAAA");
    let encoded = fumen.encode();
    assert_eq!(encoded, expected);
    assert_eq!(Fumen::decode(&encoded), Ok(fumen));
}

#[test]
fn round_trip_every_piece_on_grid() {
    let mut fumen = Fumen::new();
    for kind in all_kinds() {
        for rotation in all_rotations() {
            let page = fumen.add_page();
            page.lock = false;
            page.piece = Some(Piece { kind, rotation, x: 4, y: 5 });
        }
    }
    let encoded = fumen.encode();
    let decoded = Fumen::decode(&encoded).unwrap();
    assert_eq!(decoded, fumen);
    assert_eq!(decoded.encode(), encoded);
}

#[test]
fn wrapped_coordinate_round_trip() {
    let mut fumen = Fumen::new();
    fumen.add_page().piece = Some(Piece {
        kind: PieceType::S,
        rotation: RotationState::East,
        x: u32::MAX,
        y: 0,
    });
    let encoded = fumen.encode();
    assert_eq!(Fumen::decode(&encoded), Ok(fumen));
}

#[test]
fn guideline_off_is_kept() {
    let mut fumen = Fumen::new();
    fumen.guideline = false;
    fumen.add_page();
    assert_eq!(fumen.encode(), "v115@vhAAAA");
    assert_eq!(Fumen::decode("v115@vhAAAA"), Ok(fumen));
}

#[test]
fn question_marks_are_ignored() {
    assert_eq!(Fumen::decode("v115@vh?AVP?J"), Fumen::decode("v115@vhAVPJ"));
    assert!(Fumen::decode("v115@vh?AVP?J").is_ok());
}

#[test]
fn comment_is_truncated() {
    let mut fumen = Fumen::new();
    fumen.add_page().comment = Some("a".repeat(5000));
    let decoded = Fumen::decode(&fumen.encode()).unwrap();
    assert_eq!(decoded.get_pages()[0].get_comment(), Some("a".repeat(4095)));
}

#[test]
fn comment_escapes_round_trip() {
    let mut fumen = Fumen::new();
    fumen.add_page().comment = Some("a b%c@*_+-./é€😵".to_owned());
    let encoded = fumen.encode();
    assert_eq!(Fumen::decode(&encoded), Ok(fumen));
}

#[test]
fn comment_space_is_escaped() {
    let mut fumen = Fumen::new();
    fumen.add_page().comment = Some(" ".to_owned());
    let encoded = fumen.encode();
    // "%20" is three bytes: a length of 3, then one group of five symbols.
    assert_eq!(&encoded[..13], "v115@vhAAgWDA");
    assert_eq!(encoded.len(), 5 + 3 + 3 + 2 + 5);
}

#[test]
fn decode_errors() {
    assert_eq!(Fumen::decode("v115"), Err(DecodeFumenError));
    assert_eq!(Fumen::decode("v114@vhAAgH"), Err(DecodeFumenError));
    assert_eq!(Fumen::decode("v115@A"), Err(DecodeFumenError));
    assert_eq!(Fumen::decode("v115@vh"), Err(DecodeFumenError));
    assert_eq!(Fumen::decode("v115@vhAAg"), Err(DecodeFumenError));
    assert_eq!(Fumen::decode("v115@Hhjf"), Err(DecodeFumenError));
    assert_eq!(Fumen::decode("v115@vDAAA"), Err(DecodeFumenError));
    assert_eq!(Fumen::decode("v115@vhAAgW"), Err(DecodeFumenError));
}

#[test]
fn error_message() {
    assert_eq!(
        DecodeFumenError.message(),
        "the string does not contain valid fumen data"
    );
}

#[test]
fn add_page_follows_last_page() {
    let mut fumen = Fumen::new();
    let page = fumen.add_page();
    page.field[0] = [CellColor::Grey; 10];
    page.field[1][3] = CellColor::J;
    page.comment = Some("x".to_owned());
    page.rise = true;
    page.garbage_row = [CellColor::Grey; 10];
    let next = fumen.add_page().clone();
    assert_eq!(next, fumen.get_pages()[0].next_page());
    assert_eq!(next.field[0], [CellColor::Grey; 10]);
    assert_eq!(next.field[1][3], CellColor::J);
    assert_eq!(next.garbage_row, [CellColor::Empty; 10]);
    assert_eq!(next.comment, None);
    assert!(!next.rise);
}

#[test]
fn page_accessors() {
    let mut page = Page::default();
    page.set_field(vec![vec![8, 0, 1], vec![], vec![5]]);
    assert_eq!(page.get_field()[0][0], CellColor::Grey);
    assert_eq!(page.get_field()[0][2], CellColor::I);
    assert_eq!(page.get_field()[2][0], CellColor::T);
    let values = page.field();
    assert_eq!(values.len(), 23);
    assert_eq!(values[0][..3], [8, 0, 1]);
    page.set_garbage_row(vec![0, 8]);
    assert_eq!(page.garbage_row(), vec![0, 8, 0, 0, 0, 0, 0, 0, 0, 0]);
    page.set_comment(Some("hi".to_owned()));
    assert_eq!(page.comment(), Some("hi".to_owned()));
    page.set_comment_rs(None);
    assert_eq!(page.get_comment(), None);
    let mut grid = [[CellColor::Empty; 10]; 23];
    grid[22][9] = CellColor::S;
    page.set_field_rs(grid);
    assert_eq!(page.get_field(), grid);
    page.set_garbage_row_rs([CellColor::Grey; 10]);
    assert_eq!(page.get_garbage_row(), [CellColor::Grey; 10]);
}

#[test]
fn kinds_and_colours() {
    assert_eq!(PieceType::from_i64(5), PieceType::T);
    assert_eq!(CellColor::from(PieceType::Z), CellColor::Z);
    assert_eq!(CellColor::Grey.value(), 8);
    assert_eq!(RotationState::West.value(), 3);
}

#[test]
fn pages_are_copied() {
    let mut fumen = Fumen::new();
    fumen.add_page().comment = Some("c".to_owned());
    fumen.add_page();
    let pages = fumen.pages();
    assert_eq!(&pages, fumen.get_pages());
    fumen.get_pages_mut().clear();
    assert_eq!(fumen.encode(), "v115@");
    assert_eq!(pages.len(), 2);
}
