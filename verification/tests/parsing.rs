use gold_maze::parse::{parse_header, parse_map, parse_row, ParseError};
use gold_maze::tile::Tile;

fn chars(s: &str) -> Vec<char> {
    s.chars().collect()
}

#[test]
fn header_basic() {
    assert_eq!(parse_header(&chars("3 3")), Ok((3, 3)));
    assert_eq!(parse_header(&chars("10 7")), Ok((10, 7)));
}

#[test]
fn header_extra_whitespace_and_trailing_tokens() {
    assert_eq!(parse_header(&chars("  12\t 5  anything else")), Ok((12, 5)));
}

#[test]
fn header_missing_token() {
    assert_eq!(parse_header(&chars("3")), Err(ParseError::MalformedHeader));
    assert_eq!(parse_header(&chars("")), Err(ParseError::MalformedHeader));
    assert_eq!(parse_header(&chars("   ")), Err(ParseError::MalformedHeader));
}

#[test]
fn header_non_digit_token() {
    assert_eq!(parse_header(&chars("a 3")), Err(ParseError::MalformedHeader));
    assert_eq!(parse_header(&chars("3 b")), Err(ParseError::MalformedHeader));
    assert_eq!(parse_header(&chars("3x 4")), Err(ParseError::MalformedHeader));
}

#[test]
fn header_overflow() {
    assert_eq!(
        parse_header(&chars("99999999999999999999999999 3")),
        Err(ParseError::MalformedHeader)
    );
}

#[test]
fn row_decodes_every_tile() {
    assert_eq!(
        parse_row(&chars("PGT#.")),
        vec![Tile::Player, Tile::Gold, Tile::Trap, Tile::Wall, Tile::Floor]
    );
}

#[test]
fn row_drops_unknown_characters() {
    assert_eq!(parse_row(&chars("P?G!")), vec![Tile::Player, Tile::Gold]);
    assert_eq!(parse_row(&chars("xyz")), Vec::<Tile>::new());
    assert_eq!(parse_row(&chars("")), Vec::<Tile>::new());
}

#[test]
fn map_with_enough_rows() {
    let lines = vec![chars("P."), chars(".G"), chars("##")];
    let m = parse_map(&lines, 2).unwrap();
    assert_eq!(m.len(), 2);
    assert_eq!(m[0], vec![Tile::Player, Tile::Floor]);
    assert_eq!(m[1], vec![Tile::Floor, Tile::Gold]);
}

#[test]
fn map_with_too_few_rows() {
    let lines = vec![chars("P."), chars(".G")];
    assert_eq!(parse_map(&lines, 3), Err(ParseError::InsufficientRows));
}

#[test]
fn header_at_word_size_boundary() {
    let max = usize::MAX.to_string();
    let line = format!("{} 1", max);
    assert_eq!(parse_header(&chars(&line)), Ok((usize::MAX, 1)));
    let line = format!("1{} 1", "0".repeat(max.len()));
    assert_eq!(parse_header(&chars(&line)), Err(ParseError::MalformedHeader));
}

#[test]
fn empty_map_parses() {
    let m = parse_map(&Vec::new(), 0).unwrap();
    assert!(m.is_empty());
    assert_eq!(gold_maze::grid::find_player(&m), None);
}

#[test]
fn tile_char_round_trip() {
    for t in [Tile::Player, Tile::Gold, Tile::Trap, Tile::Wall, Tile::Floor] {
        assert_eq!(Tile::from_char(t.to_char()), Some(t));
    }
    assert_eq!(Tile::from_char('x'), None);
    assert_eq!(Tile::from_char(' '), None);
}
