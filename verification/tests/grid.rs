use streamchat::hexpath::grid::{
    format_grid, format_grid_file, generate_grid, neighbors4, parse_wh, rainbow_ansi256,
    seal_grid, validate_grid, Grid,
};

fn grid(w: usize, h: usize, cells: &[u8]) -> Grid {
    Grid { w, h, cells: cells.to_vec() }
}

#[test]
fn idx_is_row_major() {
    let g = grid(3, 2, &[0, 1, 2, 3, 4, 0xFF]);
    assert_eq!(g.idx(0, 0), Some(0));
    assert_eq!(g.idx(2, 0), Some(2));
    assert_eq!(g.idx(0, 1), Some(3));
    assert_eq!(g.idx(2, 1), Some(5));
    assert_eq!(g.idx(3, 0), None);
    assert_eq!(g.idx(0, 2), None);
}

#[test]
fn at_reads_cells() {
    let g = grid(3, 2, &[0, 1, 2, 3, 4, 0xFF]);
    assert_eq!(g.at(1, 0), Some(1));
    assert_eq!(g.at(2, 1), Some(0xFF));
    assert_eq!(g.at(3, 1), None);
    let short = grid(3, 2, &[0, 1, 2, 3]);
    assert_eq!(short.at(0, 1), Some(3));
    assert_eq!(short.at(1, 1), None);
}

#[test]
fn neighbours_in_order() {
    assert_eq!(neighbors4(1, 1, 3, 3), vec![(1, 0), (1, 2), (0, 1), (2, 1)]);
    assert_eq!(neighbors4(0, 0, 3, 3), vec![(0, 1), (1, 0)]);
    assert_eq!(neighbors4(2, 2, 3, 3), vec![(2, 1), (1, 2)]);
    assert_eq!(neighbors4(0, 0, 1, 1), vec![]);
    assert_eq!(neighbors4(0, 0, 0, 0), vec![]);
    assert_eq!(neighbors4(0, 1, 1, 3), vec![(0, 0), (0, 2)]);
    assert_eq!(neighbors4(5, 5, 3, 3), vec![(5, 4), (4, 5)]);
}

#[test]
fn rainbow_colours() {
    let reference = |v: u8| {
        let t = v as u16;
        let r = ((t * 5) / 255) as u8;
        let g = (((t * 5) / 255 + 2) % 6) as u8;
        let b = (((t * 5) / 255 + 4) % 6) as u8;
        16 + 36 * r + 6 * g + b
    };
    for v in 0u8..=255 {
        assert_eq!(rainbow_ansi256(v), reference(v));
    }
    assert_eq!(rainbow_ansi256(0), 32);
    assert_eq!(rainbow_ansi256(255), 205);
    assert_eq!(rainbow_ansi256(51), 75);
}

#[test]
fn validate_grid_checks_in_order() {
    assert_eq!(validate_grid(&grid(2, 2, &[0, 1, 2, 0xFF])), Ok(()));
    assert_eq!(
        validate_grid(&grid(0, 2, &[])),
        Err("invalid grid dimensions".to_string())
    );
    assert_eq!(
        validate_grid(&grid(2, 0, &[0, 0xFF])),
        Err("invalid grid dimensions".to_string())
    );
    assert_eq!(
        validate_grid(&grid(2, 2, &[0, 1, 0xFF])),
        Err("invalid grid storage".to_string())
    );
    assert_eq!(
        validate_grid(&grid(2, 2, &[1, 1, 2, 0xFF])),
        Err("start (top-left) must be 00".to_string())
    );
    assert_eq!(
        validate_grid(&grid(2, 2, &[0, 1, 2, 0xFE])),
        Err("end (bottom-right) must be FF".to_string())
    );
    assert_eq!(
        validate_grid(&grid(1, 1, &[0])),
        Err("end (bottom-right) must be FF".to_string())
    );
    assert_eq!(
        validate_grid(&grid(1, 1, &[0xFF])),
        Err("start (top-left) must be 00".to_string())
    );
}

#[test]
fn sizes_accepted() {
    assert_eq!(parse_wh("8x4"), Ok((8, 4)));
    assert_eq!(parse_wh(" 10X10 "), Ok((10, 10)));
    assert_eq!(parse_wh("512x512"), Ok((512, 512)));
    assert_eq!(parse_wh(" 3 x 5 "), Ok((3, 5)));
    assert_eq!(parse_wh("+3x+5"), Ok((3, 5)));
    assert_eq!(parse_wh("1x1"), Ok((1, 1)));
}

#[test]
fn sizes_rejected() {
    assert_eq!(
        parse_wh(" 8 "),
        Err("invalid size '8' (expected WxH, e.g. 10x10)".to_string())
    );
    assert_eq!(
        parse_wh(""),
        Err("invalid size '' (expected WxH, e.g. 10x10)".to_string())
    );
    assert_eq!(parse_wh("ax4"), Err("invalid width in 'ax4'".to_string()));
    assert_eq!(parse_wh(" x4 "), Err("invalid width in 'x4'".to_string()));
    assert_eq!(parse_wh("8x"), Err("invalid height in '8x'".to_string()));
    assert_eq!(parse_wh("8x4x2"), Err("invalid height in '8x4x2'".to_string()));
    // The first `x` wins over an earlier `X`.
    assert_eq!(parse_wh("8X4x2"), Err("invalid width in '8X4x2'".to_string()));
    assert_eq!(parse_wh("-1x4"), Err("invalid width in '-1x4'".to_string()));
    assert_eq!(parse_wh("0x4"), Err("width and height must be > 0".to_string()));
    assert_eq!(parse_wh("4x0"), Err("width and height must be > 0".to_string()));
    assert_eq!(parse_wh("513x1"), Err("grid too large".to_string()));
    assert_eq!(parse_wh("1x513"), Err("grid too large".to_string()));
    assert_eq!(
        parse_wh("99999999999999999999999x1"),
        Err("invalid width in '99999999999999999999999x1'".to_string())
    );
}

#[test]
fn grid_text_has_no_trailing_line_feed() {
    let g = grid(3, 2, &[0x00, 0x1A, 0xB2, 0x03, 0x04, 0xFF]);
    assert_eq!(format_grid(&g), "00 1A B2\n03 04 FF");
    assert_eq!(format_grid_file(&g), "00 1A B2\n03 04 FF\n");
    assert_eq!(format_grid(&grid(1, 1, &[0xFF])), "FF");
    assert_eq!(format_grid(&grid(0, 0, &[])), "");
    assert_eq!(format_grid(&grid(0, 2, &[])), "\n");
    assert_eq!(format_grid_file(&grid(0, 2, &[])), "\n\n");
    assert_eq!(format_grid(&grid(2, 2, &[0x0A, 0x0B])), "0A 0B\n00 00");
}

#[test]
fn seal_sets_both_ends() {
    assert_eq!(seal_grid(2, 2, vec![9, 9, 9, 9]).cells, vec![0, 9, 9, 0xFF]);
    assert_eq!(seal_grid(1, 1, vec![9]).cells, vec![0xFF]);
    assert_eq!(seal_grid(0, 0, vec![]).cells, Vec::<u8>::new());
    let g = seal_grid(3, 1, vec![1, 2, 3]);
    assert_eq!((g.w, g.h), (3, 1));
    assert_eq!(g.cells, vec![0, 2, 0xFF]);
}

#[test]
fn generated_grids_are_valid() {
    for (w, h) in [(2usize, 1usize), (1, 2), (8, 4), (10, 10), (64, 3)] {
        let g = generate_grid(w, h);
        assert_eq!((g.w, g.h), (w, h));
        assert_eq!(g.cells.len(), w * h);
        assert_eq!(validate_grid(&g), Ok(()));
    }
    assert_eq!(generate_grid(1, 1).cells, vec![0xFF]);
    assert!(generate_grid(0, 5).cells.is_empty());
    // Not every cell of a large grid is the same.
    let g = generate_grid(64, 64);
    assert!(g.cells.iter().any(|&c| c != g.cells[1]));
}
