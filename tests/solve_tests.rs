use tumblestone::board::{AnyStone, Board, Point};

fn legend_tokens(s: &str) -> Vec<Vec<char>> {
    let mut tokens = Vec::new();
    let mut current = Vec::new();
    for c in s.chars() {
        match c {
            ' ' | '\t' | '=' | '\n' => {
                if !current.is_empty() {
                    tokens.push(std::mem::take(&mut current));
                }
                if c == '=' || c == '\n' {
                    tokens.push(vec![c]);
                }
            }
            _ => current.push(c),
        }
    }
    if !current.is_empty() {
        tokens.push(current);
    }
    tokens
}

fn new_board(legend: &str, grid: &str) -> Board {
    let chars: Vec<char> = grid.chars().filter(|c| !matches!(c, ' ' | '\t' | '\n')).collect();
    Board::parse(&legend_tokens(legend), &chars).unwrap()
}

/// Play `moves` on a copy of the board read from the same text, checking
/// each triplet, and answer whether the board ends solved.
fn check_solution(legend: &str, grid: &str, moves: &[Point]) -> bool {
    let mut b = new_board(legend, grid);
    assert_eq!(moves.len() % 3, 0);
    for triplet in moves.chunks(3) {
        let mut colors = Vec::new();
        let mut wilds = 0;
        for &p in triplet {
            match b.stone_at(p) {
                AnyStone::Ordinary(o) => colors.push(o.color()),
                AnyStone::Wild(_) => wilds += 1,
                other => panic!("{:?}", other),
            }
            b.force_remove(p);
        }
        assert!(wilds <= 1);
        assert!(colors.windows(2).all(|w| w[0] == w[1]));
    }
    b.removable_stones() == 0
}

#[test]
fn toggle_blocking() {
    let mut b = new_board("width = 1\n", "a\n+\na");
    assert_eq!(b.frontier(0, true), vec![(0, 2)]);
    let mut s = AnyStone::Empty(tumblestone::board::NoStone);
    let u = b.remove((0, 2), &mut s, 0);
    assert_eq!(b.frontier(0, true), vec![(0, 0)]);
    u.undo(&mut b);
    assert_eq!(b.frontier(0, true), vec![(0, 2)]);
}

#[test]
fn frontier_filters() {
    let b = new_board("width = 4\nwild = ab\n", "aab*\nb*a_");
    assert_eq!(b.frontier(0, true), vec![(0, 1), (1, 1), (2, 1), (3, 0)]);
    assert_eq!(b.frontier(1, true), vec![(1, 1), (2, 1), (3, 0)]);
    assert_eq!(b.frontier(1, false), vec![(2, 1)]);
    assert_eq!(b.frontier(2, true), vec![(0, 1), (1, 1), (3, 0)]);
    assert_eq!(b.frontier(2, false), vec![(0, 1)]);
    assert_eq!(b.frontier(4, true), vec![]);
}

#[test]
fn frontier_passes_survivors_and_open_toggles() {
    let b = new_board("width = 2\n", "ab\n#/");
    assert_eq!(b.frontier(0, true), vec![(0, 0), (1, 0)]);
}

#[test]
fn solve_single_triplet() {
    let mut b = new_board("width = 3\n", "aaa");
    assert_eq!(b.solve(), Some(vec![(0, 0), (1, 0), (2, 0)]));
    assert_eq!(b.turn(), 0);
    assert_eq!(b.removable_stones(), 3);
}

#[test]
fn solve_with_wild() {
    let mut b = new_board("width = 3\nwild = a\n", "a*a");
    let moves = b.solve().unwrap();
    assert_eq!(moves, vec![(0, 0), (1, 0), (2, 0)]);
    assert_eq!(b.wild_colors(), 1);
    assert!(check_solution("width = 3\nwild = a\n", "a*a", &moves));
}

#[test]
fn triplet_validity() {
    let legend = "width = 3\nwild = b\n";
    let grid = "ccc\nb*b\naaa";
    let mut b = new_board(legend, grid);
    let moves = b.solve().unwrap();
    assert_eq!(moves, vec![(0, 2), (1, 2), (2, 2), (0, 1), (1, 1), (2, 1), (0, 0), (1, 0), (2, 0)]);
    assert!(check_solution(legend, grid, &moves));
}

#[test]
fn unsolvable_detection() {
    let mut b = new_board("width = 4\n", "aaab");
    assert_eq!(b.solve(), None);
    assert_eq!(b.turn(), 0);
    assert_eq!(b.removable_stones(), 4);
}

#[test]
fn unsolvable_color_order() {
    let mut b = new_board("width = 3\n", "aab\nbba\nabb");
    let found = b.solve();
    if let Some(moves) = &found {
        assert!(check_solution("width = 3\n", "aab\nbba\nabb", moves));
    }
    let mut c = new_board("width = 2\n", "ab\nab\nba");
    assert_eq!(c.solve(), None);
}

#[test]
fn solved_board_needs_no_moves() {
    let mut b = new_board("width = 2\n", "#_\n/+");
    assert_eq!(b.solve(), Some(vec![]));
}

#[test]
fn color_lock_does_not_change_the_play() {
    let grid = "ccc\nb*b\naaa";
    let mut locked = new_board("width = 3\nwild = b\ncolorlock = true\n", grid);
    let mut free = new_board("width = 3\nwild = b\ncolorlock = false\n", grid);
    assert!(locked.color_locked());
    assert_eq!(locked.solve(), free.solve());
}
