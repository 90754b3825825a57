use herb_garden::garden::{Cell, Garden, ParseError};

fn parsed(text: &str) -> Garden {
    match Garden::parse(text) {
        Ok(g) => g,
        Err(e) => panic!("refused: {:?}", e),
    }
}

#[test]
fn parse_reads_cells_entry_and_herbs() {
    let g = parsed("#.#\n#A#\n#B~\n");
    assert_eq!(g.size, (3, 3));
    assert_eq!(g.start, (0, 1));
    assert_eq!(g.herb_types, 0b11);
    assert_eq!(g.grid[0], vec![Cell::Blocked, Cell::Open, Cell::Blocked]);
    assert_eq!(g.grid[1], vec![Cell::Blocked, Cell::Herb(0), Cell::Blocked]);
    assert_eq!(g.grid[2], vec![Cell::Blocked, Cell::Herb(1), Cell::Blocked]);
}

#[test]
fn parse_takes_last_dot_of_first_line_as_entry() {
    let g = parsed("..#\n...");
    assert_eq!(g.start, (0, 1));
}

#[test]
fn parse_accepts_crlf_and_missing_final_newline() {
    let g = parsed("#.#\r\n#Z#");
    assert_eq!(g.size, (2, 3));
    assert_eq!(g.herb_types, 1u64 << 25);
    assert_eq!(g.grid[1][1], Cell::Herb(25));
}

#[test]
fn parse_refuses_empty_text() {
    assert_eq!(Garden::parse("").err(), Some(ParseError::Empty));
}

#[test]
fn parse_refuses_unknown_character() {
    assert_eq!(Garden::parse("#.#\n#x#").err(), Some(ParseError::InvalidChar('x')));
    assert_eq!(Garden::parse("#.a").err(), Some(ParseError::InvalidChar('a')));
}

#[test]
fn parse_refuses_ragged_rows() {
    assert_eq!(Garden::parse("#.#\n##").err(), Some(ParseError::Ragged));
}

#[test]
fn parse_refuses_first_line_without_dot() {
    assert_eq!(Garden::parse("###\n#.#").err(), Some(ParseError::MissingEntry));
}

#[test]
fn all_neighbors_lists_up_down_left_right() {
    let g = parsed("#.#\n...\n#.#");
    assert_eq!(g.all_neighbors(&(1, 1)), vec![(0, 1), (2, 1), (1, 0), (1, 2)]);
    assert_eq!(g.all_neighbors(&(0, 1)), vec![(1, 1)]);
    assert_eq!(g.all_neighbors(&(1, 0)), vec![(1, 1)]);
}

#[test]
fn neighbors_cross_off_herbs() {
    let g = parsed("#.#\nA.B\n#.#");
    let next = g.neighbors(&(0b11, (1, 1)));
    assert_eq!(next, vec![(0b11, (0, 1)), (0b11, (2, 1)), (0b10, (1, 0)), (0b01, (1, 2))]);
}

#[test]
fn crossing_a_collected_herb_keeps_the_mask() {
    let g = parsed("#.#\nA.B\n#.#");
    let next = g.neighbors(&(0b10, (1, 1)));
    assert_eq!(next[2], (0b10, (1, 0)));
    let again = g.neighbors(&(0b10, (1, 1)));
    assert_eq!(again[2].0, next[2].0);
}

#[test]
fn is_end_needs_no_herbs_left_and_the_entry() {
    let g = parsed("#.#\n#A#");
    assert!(g.is_end(&(0, (0, 1))));
    assert!(!g.is_end(&(1, (0, 1))));
    assert!(!g.is_end(&(0, (1, 1))));
}
