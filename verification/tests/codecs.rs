use life_grid::{parse_size_value, Cell, Life106DecoderError, RLEDecoderError, Universe};

fn alive_set(u: &Universe) -> Vec<(i32, i32)> {
    let mut out = Vec::new();
    for y in 0..u.height() {
        for x in 0..u.width() {
            if u.get_cell(x, y) == Cell::Alive {
                out.push((x, y));
            }
        }
    }
    out
}

#[test]
fn life106_all_dead_is_just_the_header_line() {
    let u = Universe::new(3, 3);
    assert_eq!(u.to_life_106(), "#Life 1.06\n");
}

#[test]
fn life106_lists_alive_cells_in_scan_order() {
    let mut u = Universe::new(3, 2);
    u.set_cell(1, 0, Cell::Alive);
    u.set_cell(0, 1, Cell::Alive);
    u.set_cell(2, 1, Cell::Alive);
    assert_eq!(u.to_life_106(), "#Life 1.06\n1 0\n0 1\n2 1");
}

#[test]
fn life106_round_trip_for_tightly_bounded_pattern() {
    // A glider occupies its full 3x3 bounding box borders.
    let mut u = Universe::new(3, 3);
    let glider = vec![vec![1, 0], vec![2, 1], vec![0, 2], vec![1, 2], vec![2, 2]];
    u.set_cells(&glider, Cell::Alive).unwrap();
    let text = u.to_life_106();
    let v = Universe::from_life_106(&text).unwrap();
    assert_eq!(v.width(), 3);
    assert_eq!(v.height(), 3);
    assert_eq!(alive_set(&v), alive_set(&u));
}

#[test]
fn life106_decode_shifts_negative_coordinates_to_origin() {
    let v = Universe::from_life_106("#Life 1.06\n-1 -1\n1 1").unwrap();
    assert_eq!(v.width(), 3);
    assert_eq!(v.height(), 3);
    assert_eq!(alive_set(&v), vec![(0, 0), (2, 2)]);
}

#[test]
fn life106_decode_skips_comments_and_blank_lines() {
    let v = Universe::from_life_106("#Life 1.06\n# a comment\n\n0 0\n\n1 1").unwrap();
    assert_eq!(v.width(), 2);
    assert_eq!(v.height(), 2);
    assert_eq!(alive_set(&v), vec![(0, 0), (1, 1)]);
}

#[test]
fn life106_decode_rejects_wrong_field_count() {
    let r = Universe::from_life_106("#Life 1.06\n1 2 3");
    assert_eq!(r.err(), Some(Life106DecoderError::InvalidFormat));
    let r = Universe::from_life_106("#Life 1.06\nfoo");
    assert_eq!(r.err(), Some(Life106DecoderError::InvalidFormat));
    let r = Universe::from_life_106("#Life 1.06\n1 x");
    assert_eq!(r.err(), Some(Life106DecoderError::InvalidFormat));
}

#[test]
fn life106_decode_rejects_empty_pattern() {
    let r = Universe::from_life_106("#Life 1.06\n");
    assert_eq!(r.err(), Some(Life106DecoderError::InvalidFormat));
}

#[test]
fn life106_error_messages() {
    assert_eq!(Life106DecoderError::InvalidType.message(), "Invalid type");
    assert_eq!(Life106DecoderError::InvalidFormat.message(), "Invalid format");
}

#[test]
fn rle_all_dead_three_by_three() {
    let u = Universe::new(3, 3);
    assert_eq!(u.to_rle(), "x = 3, y = 3, rule = B3/S23\n2$!");
}

#[test]
fn rle_encode_omits_trailing_dead_run() {
    let mut u = Universe::new(4, 1);
    u.set_cell(0, 0, Cell::Alive);
    // The three dead cells after the alive one produce no `b` run.
    assert_eq!(u.to_rle(), "x = 4, y = 1, rule = B3/S23\no!");
}

#[test]
fn rle_decode_pads_stripped_row_with_dead_cells() {
    let v = Universe::from_rle("x = 4, y = 1, rule = B3/S23\no!").unwrap();
    assert_eq!(v.width(), 4);
    assert_eq!(v.height(), 1);
    assert_eq!(alive_set(&v), vec![(0, 0)]);
}

#[test]
fn rle_encode_compresses_runs() {
    let mut u = Universe::new(5, 2);
    for x in 0..5 {
        u.set_cell(x, 0, Cell::Alive);
    }
    u.set_cell(2, 1, Cell::Alive);
    assert_eq!(u.to_rle(), "x = 5, y = 2, rule = B3/S23\n5o$2bo!");
}

#[test]
fn rle_round_trip_for_tightly_bounded_pattern() {
    let mut u = Universe::new(3, 3);
    let glider = vec![vec![1, 0], vec![2, 1], vec![0, 2], vec![1, 2], vec![2, 2]];
    u.set_cells(&glider, Cell::Alive).unwrap();
    let text = u.to_rle();
    let v = Universe::from_rle(&text).unwrap();
    assert_eq!(v.width(), 3);
    assert_eq!(v.height(), 3);
    assert_eq!(alive_set(&v), alive_set(&u));
}

#[test]
fn rle_wraps_body_at_seventy_characters() {
    let mut u = Universe::new(80, 1);
    for x in 0..80 {
        if x % 2 == 0 {
            u.set_cell(x, 0, Cell::Alive);
        }
    }
    let text = u.to_rle();
    let mut lines = text.lines();
    assert_eq!(lines.next(), Some("x = 80, y = 1, rule = B3/S23"));
    for line in lines {
        assert!(line.len() <= 70);
    }
    let v = Universe::from_rle(&text).unwrap();
    assert_eq!(alive_set(&v), alive_set(&u));
}

#[test]
fn rle_decode_accepts_counted_rows_and_comments() {
    let v = Universe::from_rle("#C a comment\nx = 3, y = 3, rule = B3/S23\no2$2o!").unwrap();
    assert_eq!(alive_set(&v), vec![(0, 0), (0, 2), (1, 2)]);
}

#[test]
fn rle_decode_skips_blank_rows_by_count() {
    let v = Universe::from_rle("x = 2, y = 4, rule = B3/S23\no3$o!").unwrap();
    assert_eq!(alive_set(&v), vec![(0, 0), (0, 3)]);
}

#[test]
fn rle_decode_rejects_missing_header() {
    assert_eq!(Universe::from_rle("").err(), Some(RLEDecoderError::InvalidHeader));
    assert_eq!(Universe::from_rle("#only comments").err(), Some(RLEDecoderError::InvalidHeader));
    assert_eq!(Universe::from_rle("x = 3\no!").err(), Some(RLEDecoderError::InvalidHeader));
    assert_eq!(
        Universe::from_rle("y = 3, x = 3, rule = B3/S23\no!").err(),
        Some(RLEDecoderError::InvalidHeader)
    );
    assert_eq!(
        Universe::from_rle("x = b, y = 3, rule = B3/S23\no!").err(),
        Some(RLEDecoderError::InvalidHeader)
    );
}

#[test]
fn rle_decode_rejects_stray_characters() {
    assert_eq!(
        Universe::from_rle("x = 3, y = 3, rule = B3/S23\noz!").err(),
        Some(RLEDecoderError::InvalidTag)
    );
}

#[test]
fn rle_decode_rejects_oversized_count() {
    assert_eq!(
        Universe::from_rle("x = 3, y = 3, rule = B3/S23\n99999999999o!").err(),
        Some(RLEDecoderError::InvalidNumber)
    );
}

#[test]
fn rle_decode_wraps_overflowing_cells_toroidally() {
    // Painting past the declared width wraps onto the same row.
    let v = Universe::from_rle("x = 3, y = 2, rule = B3/S23\n4o!").unwrap();
    assert_eq!(alive_set(&v), vec![(0, 0), (1, 0), (2, 0)]);
}

#[test]
fn rle_decode_ignores_line_breaks_inside_the_body() {
    // A count split across body lines is re-joined before tokenizing.
    let v = Universe::from_rle("x = 12, y = 1, rule = B3/S23\n1\n2o!").unwrap();
    assert_eq!(alive_set(&v).len(), 12);
}

#[test]
fn parse_size_value_parses_trimmed_assignments() {
    assert_eq!(parse_size_value("x", " x = 34 "), Ok(34));
    assert_eq!(parse_size_value("y", "y=7"), Ok(7));
    assert_eq!(parse_size_value("x", "y = 3"), Err(RLEDecoderError::InvalidHeader));
    assert_eq!(parse_size_value("x", "x = -3"), Err(RLEDecoderError::InvalidHeader));
    assert_eq!(parse_size_value("x", "x = 3 = 4"), Err(RLEDecoderError::InvalidHeader));
    assert_eq!(parse_size_value("x", "x"), Err(RLEDecoderError::InvalidHeader));
}

#[test]
fn rle_error_messages() {
    assert_eq!(RLEDecoderError::InternalError.message(), "internal error");
    assert_eq!(RLEDecoderError::InvalidType.message(), "invalid type");
    assert_eq!(RLEDecoderError::InvalidNumber.message(), "invalid number");
    assert_eq!(RLEDecoderError::InvalidTag.message(), "invalid tag");
    assert_eq!(RLEDecoderError::InvalidHeader.message(), "invalid header");
}
