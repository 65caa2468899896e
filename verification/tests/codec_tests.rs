use rand::SeedableRng;
use seeker::data::{Data, DataParseError};
use seeker::fixed::PROB_ONE;

fn rng() -> rand::rngs::StdRng {
    rand::rngs::StdRng::seed_from_u64(42)
}

#[test]
fn packed_board_round_trips() {
    let lines = vec![
        "0f3a".to_string(),
        "9c01".to_string(),
        "ffff".to_string(),
        "0000".to_string(),
    ];
    let data = Data::Grid(lines.clone());
    let grid = data.parse(&mut rng()).expect("valid packed board");
    match Data::unparse(&grid) {
        Data::Grid(packed) => assert_eq!(packed, lines),
        Data::Random { .. } => panic!("packing always yields an explicit board"),
    }
}

#[test]
fn upper_case_digits_decode_but_encode_lower() {
    let data = Data::Grid(vec!["A0".to_string()]);
    let grid = data.parse(&mut rng()).expect("upper-case hex is accepted");
    match Data::unparse(&grid) {
        Data::Grid(packed) => assert_eq!(packed, vec!["a0".to_string()]),
        Data::Random { .. } => unreachable!(),
    }
}

#[test]
fn nibble_bit_zero_is_the_leftmost_cell() {
    // '1' = bit 0 set: only the leftmost of the four cells is alive
    let data = Data::Grid(vec!["1".to_string()]);
    let grid = data.parse(&mut rng()).unwrap();
    assert!(grid.get(0, 0).is_some());
    assert!(grid.get(1, 0).is_none());
    assert!(grid.get(2, 0).is_none());
    assert!(grid.get(3, 0).is_none());
    // '8' = bit 3 set: only the rightmost
    let data8 = Data::Grid(vec!["8".to_string()]);
    let grid8 = data8.parse(&mut rng()).unwrap();
    assert!(grid8.get(0, 0).is_none());
    assert!(grid8.get(3, 0).is_some());
}

#[test]
fn empty_board_is_an_error() {
    let data = Data::Grid(Vec::new());
    assert_eq!(data.parse(&mut rng()).unwrap_err(), DataParseError::WrongLineLength);
}

#[test]
fn empty_first_row_is_an_error() {
    let data = Data::Grid(vec!["".to_string()]);
    assert_eq!(data.parse(&mut rng()).unwrap_err(), DataParseError::WrongLineLength);
}

#[test]
fn ragged_rows_are_an_error() {
    let data = Data::Grid(vec!["00".to_string(), "000".to_string()]);
    assert_eq!(data.parse(&mut rng()).unwrap_err(), DataParseError::WrongLineLength);
}

#[test]
fn unknown_symbol_is_reported() {
    let data = Data::Grid(vec!["0z".to_string()]);
    assert_eq!(data.parse(&mut rng()).unwrap_err(), DataParseError::UnknownSymbol('z'));
}

#[test]
fn random_request_with_bad_width_is_an_error() {
    // not a multiple of four, so the board could not be packed again
    let data = Data::Random { width: 6, height: 8, alive_ratio: PROB_ONE / 2 };
    assert_eq!(data.parse(&mut rng()).unwrap_err(), DataParseError::WrongSize);
    let data2 = Data::Random { width: 0, height: 8, alive_ratio: PROB_ONE / 2 };
    assert_eq!(data2.parse(&mut rng()).unwrap_err(), DataParseError::WrongSize);
}

#[test]
fn random_request_fills_fresh_cells_only() {
    let data = Data::Random { width: 16, height: 16, alive_ratio: PROB_ONE / 2 };
    let grid = data.parse(&mut rng()).unwrap();
    let size = grid.size();
    assert_eq!((size.x, size.y), (16, 16));
    let mut alive = 0usize;
    for y in 0..16 {
        for x in 0..16 {
            if let Some(cell) = grid.get(x, y) {
                alive += 1;
                assert_eq!(cell.age, 1);
            }
        }
    }
    assert!(alive > 0, "half-density fill leaves live cells");
    // repeated placements may collide, so at most the requested count
    assert!(alive <= 128);
}

#[test]
fn data_clone_copies_the_lines() {
    let data = Data::Grid(vec!["0f".to_string()]);
    let copy = data.clone();
    match (data, copy) {
        (Data::Grid(a), Data::Grid(b)) => assert_eq!(a, b),
        _ => panic!("clone keeps the variant"),
    }
}

#[test]
fn the_reported_non_hex_symbol_is_the_first_in_scan_order() {
    let data = Data::Grid(vec!["0z".to_string(), "y0".to_string()]);
    assert_eq!(data.parse(&mut rng()).unwrap_err(), DataParseError::UnknownSymbol('z'));
}
