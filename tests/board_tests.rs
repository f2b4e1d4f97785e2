use tumblestone::board::{AnyStone, Board, Point, Stone, Undo};
use tumblestone::parse::{parse_bool, parse_u32, split_board_text, ParseError};

/// Split a legend into its tokens: blanks separate tokens, `=` and linefeeds
/// are tokens of their own.
fn legend_tokens(s: &str) -> Vec<Vec<char>> {
    let mut tokens = Vec::new();
    let mut current = Vec::new();
    for c in s.chars() {
        match c {
            ' ' | '\t' | '=' | '\n' => {
                if !current.is_empty() {
                    tokens.push(std::mem::take(&mut current));
                }
                if c == '=' || c == '\n' {
                    tokens.push(vec![c]);
                }
            }
            _ => current.push(c),
        }
    }
    if !current.is_empty() {
        tokens.push(current);
    }
    tokens
}

fn grid_chars(s: &str) -> Vec<char> {
    s.chars().filter(|c| !matches!(c, ' ' | '\t' | '\n')).collect()
}

fn board(legend: &str, grid: &str) -> Board {
    Board::parse(&legend_tokens(legend), &grid_chars(grid)).unwrap()
}

fn parse_error(legend: &str, grid: &str) -> ParseError {
    Board::parse(&legend_tokens(legend), &grid_chars(grid)).unwrap_err()
}

fn snapshot(b: &Board) -> (u32, u32, u32, Vec<AnyStone>) {
    let mut grid = Vec::new();
    for y in 0..b.height() {
        for x in 0..b.width() {
            grid.push(b.stone_at((x, y)));
        }
    }
    (b.turn(), b.wild_colors(), b.removable_stones(), grid)
}

fn scanned_removable(b: &Board) -> u32 {
    let (_, _, _, grid) = snapshot(b);
    grid.iter().filter(|s| s.is_removable()).count() as u32
}

fn wild_stones(b: &Board) -> u32 {
    let (_, _, _, grid) = snapshot(b);
    grid.iter().filter(|s| matches!(s, AnyStone::Wild(_))).count() as u32
}

fn remove(b: &mut Board, p: Point, color: u32) -> (AnyStone, Undo) {
    let mut s = AnyStone::Empty(tumblestone::board::NoStone);
    let u = b.remove(p, &mut s, color);
    (s, u)
}

#[test]
fn parse_defaults() {
    let b = board("", "abcde\nabcde");
    assert_eq!(b.width(), 5);
    assert_eq!(b.height(), 2);
    assert_eq!(b.turn(), 0);
    assert_eq!(b.wild_colors(), 0);
    assert!(!b.color_locked());
    assert_eq!(b.removable_stones(), 10);
}

#[test]
fn parse_legend_properties() {
    let b = board("width = 3\nwild = ab\ncolorlock = true\n", "a*b\n*_#\n/+c");
    assert_eq!(b.width(), 3);
    assert_eq!(b.height(), 3);
    assert_eq!(b.wild_colors(), 0b11);
    assert!(b.color_locked());
    assert_eq!(b.removable_stones(), 5);
    match b.stone_at((0, 0)) {
        AnyStone::Ordinary(o) => {
            assert_eq!(o.color(), 1);
            assert_eq!(o.rep(), 'a');
        }
        other => panic!("{:?}", other),
    }
    match b.stone_at((2, 2)) {
        AnyStone::Ordinary(o) => assert_eq!(o.color(), 4),
        other => panic!("{:?}", other),
    }
    assert!(matches!(b.stone_at((1, 0)), AnyStone::Wild(_)));
    assert!(matches!(b.stone_at((1, 1)), AnyStone::Empty(_)));
    assert!(matches!(b.stone_at((2, 1)), AnyStone::Survivor(_)));
    match b.stone_at((0, 2)) {
        AnyStone::Toggle(t) => assert!(t.is_open()),
        other => panic!("{:?}", other),
    }
    match b.stone_at((1, 2)) {
        AnyStone::Toggle(t) => assert!(!t.is_open()),
        other => panic!("{:?}", other),
    }
}

#[test]
fn parse_error_invalid_syntax() {
    assert_eq!(parse_error("= 3\n", "abc"), ParseError::InvalidPropertySyntax);
    assert_eq!(parse_error("width 3\n", "abc"), ParseError::InvalidPropertySyntax);
    assert_eq!(parse_error("width = 3 4\n", "abc"), ParseError::InvalidPropertySyntax);
    assert_eq!(parse_error("width =", "abc"), ParseError::InvalidPropertySyntax);
}

#[test]
fn parse_error_invalid_value() {
    assert_eq!(parse_error("width = x\n", "abc"), ParseError::InvalidPropertyValue);
    assert_eq!(parse_error("colorlock = yes\n", "abc"), ParseError::InvalidPropertyValue);
    assert_eq!(parse_error("width = 0\n", "abc"), ParseError::InvalidPropertyValue);
}

#[test]
fn parse_error_repeated_wild_color() {
    assert_eq!(parse_error("wild = aba\n", "**"), ParseError::RepeatedWildColor);
}

#[test]
fn parse_error_incomplete_board() {
    assert_eq!(parse_error("width = 2\n", "abc"), ParseError::IncompleteBoard);
}

#[test]
fn parse_error_wrong_wild_count() {
    assert_eq!(parse_error("width = 3\nwild = ab\n", "a*b"), ParseError::WrongWildCount);
}

#[test]
fn parse_error_too_many_colors() {
    let glyphs: String = (0..33u32).map(|i| char::from_u32(0x100 + i).unwrap()).collect();
    assert_eq!(parse_error("width = 33\n", &glyphs), ParseError::TooManyColors);
    let b = board("width = 32\n", &glyphs[..glyphs.len() - 2]);
    match b.stone_at((31, 0)) {
        AnyStone::Ordinary(o) => assert_eq!(o.color(), 1u32 << 31),
        other => panic!("{:?}", other),
    }
}

#[test]
fn parse_later_value_replaces_earlier() {
    let b = board("width = 2\nwidth = 3\n", "abcabc");
    assert_eq!(b.width(), 3);
    assert_eq!(b.height(), 2);
}

#[test]
fn numbers_and_booleans() {
    assert_eq!(parse_u32(&['4', '2']), Some(42));
    assert_eq!(parse_u32(&['+', '7']), Some(7));
    assert_eq!(parse_u32(&['4', '2', '9', '4', '9', '6', '7', '2', '9', '5']), Some(u32::MAX));
    assert_eq!(parse_u32(&['4', '2', '9', '4', '9', '6', '7', '2', '9', '6']), None);
    assert_eq!(parse_u32(&['+']), None);
    assert_eq!(parse_u32(&[]), None);
    assert_eq!(parse_u32(&['-', '1']), None);
    assert_eq!(parse_bool(&['t', 'r', 'u', 'e']), Some(true));
    assert_eq!(parse_bool(&['f', 'a', 'l', 's', 'e']), Some(false));
    assert_eq!(parse_bool(&['T', 'r', 'u', 'e']), None);
}

#[test]
fn undo_exactness() {
    let mut b = board("width = 3\nwild = a\n", "a#b\n*ab\naab");
    let before = snapshot(&b);
    let (_, u1) = remove(&mut b, (0, 2), 0);
    let (_, u2) = remove(&mut b, (0, 1), 1);
    let (_, u3) = remove(&mut b, (0, 0), 1);
    assert_eq!(b.turn(), 3);
    assert_eq!(b.wild_colors(), 0);
    u3.undo(&mut b);
    u2.undo(&mut b);
    u1.undo(&mut b);
    assert_eq!(snapshot(&b), before);
}

#[test]
fn removable_count_consistency() {
    let mut b = board("width = 3\n", "a#a\nbbb");
    assert_eq!(b.removable_stones(), scanned_removable(&b));
    let (_, u1) = remove(&mut b, (0, 0), 0);
    assert_eq!(b.removable_stones(), scanned_removable(&b));
    let (_, u2) = remove(&mut b, (2, 0), 1);
    assert_eq!(b.removable_stones(), 3);
    assert_eq!(b.removable_stones(), scanned_removable(&b));
    u2.undo(&mut b);
    assert_eq!(b.removable_stones(), scanned_removable(&b));
    u1.undo(&mut b);
    assert_eq!(b.removable_stones(), 5);
    assert_eq!(b.removable_stones(), scanned_removable(&b));
}

#[test]
fn wild_color_conservation() {
    let mut b = board("width = 3\nwild = ab\n", "a*b\n*ab");
    assert_eq!(b.wild_colors().count_ones(), wild_stones(&b));
    let (s, u1) = remove(&mut b, (1, 0), 2);
    assert!(matches!(s, AnyStone::Wild(_)));
    assert_eq!(b.wild_colors(), 1);
    assert_eq!(b.wild_colors().count_ones(), wild_stones(&b));
    let (_, u2) = remove(&mut b, (0, 1), 1);
    assert_eq!(b.wild_colors(), 0);
    assert_eq!(b.wild_colors().count_ones(), wild_stones(&b));
    u2.undo(&mut b);
    assert_eq!(b.wild_colors().count_ones(), wild_stones(&b));
    u1.undo(&mut b);
    assert_eq!(b.wild_colors(), 3);
    assert_eq!(b.wild_colors().count_ones(), wild_stones(&b));
}

#[test]
fn survivor_cascade() {
    let mut b = board("width = 3\n", "a#a");
    let (_, u1) = remove(&mut b, (0, 0), 0);
    assert!(matches!(b.stone_at((1, 0)), AnyStone::Survivor(_)));
    let (_, u2) = remove(&mut b, (2, 0), 1);
    assert!(matches!(b.stone_at((1, 0)), AnyStone::Empty(_)));
    assert_eq!(b.removable_stones(), 0);
    u2.undo(&mut b);
    assert!(matches!(b.stone_at((1, 0)), AnyStone::Survivor(_)));
    assert!(matches!(b.stone_at((2, 0)), AnyStone::Ordinary(_)));
    assert!(matches!(b.stone_at((0, 0)), AnyStone::Empty(_)));
    u1.undo(&mut b);
    assert!(matches!(b.stone_at((0, 0)), AnyStone::Ordinary(_)));
    assert_eq!(b.turn(), 0);
}

#[test]
fn survivor_cascade_only_in_its_row() {
    let mut b = board("width = 2\n", "#a\naa");
    let (_, _u) = remove(&mut b, (1, 1), 0);
    assert!(matches!(b.stone_at((0, 0)), AnyStone::Survivor(_)));
    let (_, _v) = remove(&mut b, (1, 0), 1);
    assert!(matches!(b.stone_at((0, 0)), AnyStone::Empty(_)));
}

#[test]
fn toggle_phase_follows_turn() {
    let mut b = board("width = 2\n", "/+\naa");
    let (_, _u) = remove(&mut b, (0, 1), 0);
    match (b.stone_at((0, 0)), b.stone_at((1, 0))) {
        (AnyStone::Toggle(t0), AnyStone::Toggle(t1)) => {
            assert!(!t0.is_open());
            assert!(t1.is_open());
        }
        other => panic!("{:?}", other),
    }
}

#[test]
fn force_remove_plays_a_stone() {
    let mut b = board("width = 3\n", "a#a");
    b.force_remove((0, 0));
    b.force_remove((2, 0));
    assert_eq!(b.turn(), 2);
    assert_eq!(b.removable_stones(), 0);
    assert!(matches!(b.stone_at((1, 0)), AnyStone::Empty(_)));
}

#[test]
fn wild_removed_without_color_keeps_mask() {
    let mut b = board("width = 3\nwild = a\n", "*aa");
    let (s, u) = remove(&mut b, (0, 0), 0);
    assert!(matches!(s, AnyStone::Wild(_)));
    assert_eq!(b.wild_colors(), 1);
    assert_eq!(wild_stones(&b), 0);
    u.undo(&mut b);
    assert_eq!(b.wild_colors(), 1);
    assert_eq!(wild_stones(&b), 1);
}

#[test]
fn toggle_phase_advances_by_turn() {
    let mut b = board("width = 2\n", "/+\naa");
    let (_, _u) = remove(&mut b, (0, 1), 0);
    match (b.stone_at((0, 0)), b.stone_at((1, 0))) {
        (AnyStone::Toggle(t0), AnyStone::Toggle(t1)) => {
            assert_eq!(t0.phase, 1);
            assert_eq!(t1.phase, 2);
        }
        other => panic!("{:?}", other),
    }
}

#[test]
fn split_board_text_at_separator() {
    let text: Vec<char> = "width = 3\n---\nabc\n".chars().collect();
    let (legend, grid) = split_board_text(&text);
    assert_eq!(legend, "width = 3\n".chars().collect::<Vec<char>>());
    assert_eq!(grid, "abc\n".chars().collect::<Vec<char>>());
    let plain: Vec<char> = "abc\n--\n".chars().collect();
    let (legend, grid) = split_board_text(&plain);
    assert!(legend.is_empty());
    assert_eq!(grid, plain);
    let twice: Vec<char> = "a = 1\n---\nb\n---\nc".chars().collect();
    let (legend, grid) = split_board_text(&twice);
    assert_eq!(legend, "a = 1\n".chars().collect::<Vec<char>>());
    assert_eq!(grid, "b\n---\nc".chars().collect::<Vec<char>>());
}
