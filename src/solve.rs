//! Solving a board: the frontier of playable stones, and a depth-first
//! search that plays stones in triplets until none is left to remove.

use vstd::prelude::*;
use crate::board::{
    AnyStone, Board, BoardModel, NoStone, Point, Stone, is_color, lemma_count_update,
    removable_stone, empty_stone, lemma_remove_undone, idx, lemma_idx_bounds,
};

verus! {

/// The sentinel color that filters nothing, and that a wild stone is removed
/// with when no color is asserted.
pub const WILD_COLOR: u32 = 0;

/// The stone of column `col` that a player can reach under the filters, if
/// any, scanning the rows below `n` from the bottom up: empty cells,
/// survivors and open toggles let the scan pass, anything else stops it.
pub open spec fn column_pick(m: BoardModel, col: u32, n: nat, color: u32, allow_wild: bool) -> Option<
    Point,
>
    decreases n,
{
    if n == 0 {
        None
    } else {
        let row = (n - 1) as u32;
        match m.tile_at((col, row)) {
            AnyStone::Empty(_) => column_pick(m, col, (n - 1) as nat, color, allow_wild),
            AnyStone::Survivor(_) => column_pick(m, col, (n - 1) as nat, color, allow_wild),
            AnyStone::Toggle(t) => if t.spec_is_open() {
                column_pick(m, col, (n - 1) as nat, color, allow_wild)
            } else {
                None
            },
            AnyStone::Ordinary(o) => if color == 0 || o.spec_color() == color {
                Some((col, row))
            } else {
                None
            },
            AnyStone::Wild(_) => if allow_wild && (color == 0 || color & m.wild_colors != 0) {
                Some((col, row))
            } else {
                None
            },
        }
    }
}

/// The reachable stones of the first `n` columns, column by column.
pub open spec fn frontier_of(m: BoardModel, n: nat, color: u32, allow_wild: bool) -> Seq<Point>
    decreases n,
{
    if n == 0 {
        seq![]
    } else {
        frontier_of(m, (n - 1) as nat, color, allow_wild) + match column_pick(
            m,
            (n - 1) as u32,
            m.height,
            color,
            allow_wild,
        ) {
            Some(p) => seq![p],
            None => seq![],
        }
    }
}

/// The frontier: the stones that may be removed next under the color
/// filter `color` (`0` for none) and the wild permission `allow_wild`.
pub open spec fn frontier_spec(m: BoardModel, color: u32, allow_wild: bool) -> Seq<Point> {
    frontier_of(m, m.width, color, allow_wild)
}

/// The color filter after `t` was removed, under the filter `color`, as the
/// move that follows `done` moves.
pub open spec fn next_color(done: nat, t: AnyStone, color: u32) -> u32 {
    if (done + 1) % 3 == 0 {
        0
    } else if t is Ordinary {
        t->Ordinary_0.spec_color()
    } else {
        color
    }
}

/// The wild permission after `t` was removed as the move that follows
/// `done` moves.
pub open spec fn next_allow(done: nat, t: AnyStone, allow_wild: bool) -> bool {
    if (done + 1) % 3 == 0 {
        true
    } else if t is Wild {
        false
    } else {
        allow_wild
    }
}

/// `true` if playing `ms` from `m`, with the filters `color` and
/// `allow_wild` and `done` moves already made, clears every removable stone:
/// each move takes a stone of the frontier while one is left, asserting the
/// color filter, and the play ends exactly when none is left.
pub open spec fn wins(m: BoardModel, color: u32, allow_wild: bool, done: nat, ms: Seq<Point>) -> bool
    decreases ms.len(),
{
    if ms.len() == 0 {
        m.removable == 0
    } else {
        &&& m.removable > 0
        &&& frontier_spec(m, color, allow_wild).contains(ms[0])
        &&& wins(
            m.after_remove(ms[0], color),
            next_color(done, m.tile_at(ms[0]), color),
            next_allow(done, m.tile_at(ms[0]), allow_wild),
            done + 1,
            ms.drop_first(),
        )
    }
}

/// `true` if no play wins once the stone at `p` has been removed.
pub open spec fn dead_end(m: BoardModel, p: Point, color: u32, allow_wild: bool, done: nat) -> bool {
    forall|ms: Seq<Point>|
        !#[trigger] wins(
            m.after_remove(p, color),
            next_color(done, m.tile_at(p), color),
            next_allow(done, m.tile_at(p), allow_wild),
            done + 1,
            ms,
        )
}

proof fn lemma_column_pick(m: BoardModel, col: u32, n: nat, color: u32, allow_wild: bool)
    requires
        n <= m.height,
    ensures
        column_pick(m, col, n, color, allow_wild) matches Some(q) ==> {
            &&& q.0 == col
            &&& q.1 < n
            &&& match m.tile_at(q) {
                AnyStone::Ordinary(o) => color == 0 || o.spec_color() == color,
                AnyStone::Wild(_) => allow_wild && (color == 0 || color & m.wild_colors != 0),
                _ => false,
            }
        },
    decreases n,
{
    if n > 0 {
        lemma_column_pick(m, col, (n - 1) as nat, color, allow_wild);
    }
}

/// Every stone of the frontier may legally be removed under its filters.
proof fn lemma_frontier_member(m: BoardModel, n: nat, color: u32, allow_wild: bool, j: int)
    requires
        n <= m.width,
        m.width <= u32::MAX,
        0 <= j < frontier_of(m, n, color, allow_wild).len(),
    ensures
        ({
            let q = frontier_of(m, n, color, allow_wild)[j];
            &&& m.in_bounds(q)
            &&& column_pick(m, q.0, m.height, color, allow_wild) == Some(q)
            &&& match m.tile_at(q) {
                AnyStone::Ordinary(o) => color == 0 || o.spec_color() == color,
                AnyStone::Wild(_) => allow_wild && (color == 0 || color & m.wild_colors != 0),
                _ => false,
            }
        }),
    decreases n,
{
    let prev = frontier_of(m, (n - 1) as nat, color, allow_wild);
    lemma_column_pick(m, (n - 1) as u32, m.height, color, allow_wild);
    if j < prev.len() {
        lemma_frontier_member(m, (n - 1) as nat, color, allow_wild, j);
    }
}

proof fn lemma_column_pick_above(m: BoardModel, col: u32, n: nat, color: u32, allow_wild: bool, row: u32)
    requires
        row < n,
        n <= u32::MAX,
        m.tile_at((col, row)) matches AnyStone::Toggle(t) && !t.spec_is_open(),
    ensures
        column_pick(m, col, n, color, allow_wild) matches Some(q) ==> q.1 > row,
    decreases n,
{
    if n - 1 > row {
        lemma_column_pick_above(m, col, (n - 1) as nat, color, allow_wild, row);
    }
}

/// Toggle blocking: while the toggle at `(col, row)` is closed, the frontier
/// holds neither it nor any stone above it in its column.
pub proof fn lemma_toggle_blocks(m: BoardModel, color: u32, allow_wild: bool, col: u32, row: u32)
    requires
        m.wf(),
        m.in_bounds((col, row)),
        m.tile_at((col, row)) matches AnyStone::Toggle(t) && !t.spec_is_open(),
    ensures
        forall|j: int|
            0 <= j < frontier_spec(m, color, allow_wild).len() && (#[trigger] frontier_spec(
                m,
                color,
                allow_wild,
            )[j]).0 == col ==> frontier_spec(m, color, allow_wild)[j].1 > row,
{
    lemma_column_pick_above(m, col, m.height, color, allow_wild, row);
    assert forall|j: int|
        0 <= j < frontier_spec(m, color, allow_wild).len() && (#[trigger] frontier_spec(
            m,
            color,
            allow_wild,
        )[j]).0 == col implies frontier_spec(m, color, allow_wild)[j].1 > row by {
        lemma_frontier_member(m, m.width, color, allow_wild, j);
    }
}

/// Every play that wins from a board removes exactly its removable stones.
pub proof fn lemma_win_length(m: BoardModel, color: u32, allow_wild: bool, done: nat, ms: Seq<Point>)
    requires
        wins(m, color, allow_wild, done, ms),
    ensures
        ms.len() == m.removable,
    decreases ms.len(),
{
    if ms.len() > 0 {
        lemma_win_length(
            m.after_remove(ms[0], color),
            next_color(done, m.tile_at(ms[0]), color),
            next_allow(done, m.tile_at(ms[0]), allow_wild),
            done + 1,
            ms.drop_first(),
        );
    }
}


/// The first winning play that a depth-first search finds from `m`: none is
/// needed once no removable stone is left; otherwise the frontier's stones
/// are tried in frontier order.
pub open spec fn first_win(m: BoardModel, color: u32, allow_wild: bool, done: nat) -> Option<
    Seq<Point>,
>
    decreases m.removable, 1nat, 0int,
{
    if m.removable == 0 {
        Some(seq![])
    } else {
        first_win_from(m, color, allow_wild, done, 0)
    }
}

/// The first winning play that starts with the `k`-th stone of the frontier
/// or a later one.
pub open spec fn first_win_from(m: BoardModel, color: u32, allow_wild: bool, done: nat, k: nat) -> Option<
    Seq<Point>,
>
    decreases m.removable, 0nat, frontier_spec(m, color, allow_wild).len() - k,
{
    let fr = frontier_spec(m, color, allow_wild);
    if m.removable == 0 || k >= fr.len() {
        None
    } else {
        let p = fr[k as int];
        let t = m.tile_at(p);
        match first_win(
            m.after_remove(p, color),
            next_color(done, t, color),
            next_allow(done, t, allow_wild),
            done + 1,
        ) {
            Some(ms) => Some(seq![p] + ms),
            None => first_win_from(m, color, allow_wild, done, k + 1),
        }
    }
}

/// The play that depth-first search finds wins.
pub proof fn lemma_first_win_sound(m: BoardModel, color: u32, allow_wild: bool, done: nat)
    requires
        first_win(m, color, allow_wild, done) is Some,
    ensures
        wins(m, color, allow_wild, done, first_win(m, color, allow_wild, done)->Some_0),
    decreases m.removable, 1nat, 0int,
{
    if m.removable != 0 {
        lemma_first_win_from_sound(m, color, allow_wild, done, 0);
    }
}

proof fn lemma_first_win_from_sound(m: BoardModel, color: u32, allow_wild: bool, done: nat, k: nat)
    requires
        first_win_from(m, color, allow_wild, done, k) is Some,
    ensures
        wins(m, color, allow_wild, done, first_win_from(m, color, allow_wild, done, k)->Some_0),
    decreases m.removable, 0nat, frontier_spec(m, color, allow_wild).len() - k,
{
    let fr = frontier_spec(m, color, allow_wild);
    let p = fr[k as int];
    let t = m.tile_at(p);
    let next = m.after_remove(p, color);
    let nc = next_color(done, t, color);
    let na = next_allow(done, t, allow_wild);
    match first_win(next, nc, na, done + 1) {
        Some(ms) => {
            lemma_first_win_sound(next, nc, na, done + 1);
            let play = seq![p] + ms;
            assert(play[0] == p);
            assert(play.drop_first() == ms);
            assert(fr.contains(p));
        },
        None => {
            lemma_first_win_from_sound(m, color, allow_wild, done, k + 1);
        },
    }
}

/// When depth-first search finds no play, no play wins.
pub proof fn lemma_first_win_complete(m: BoardModel, color: u32, allow_wild: bool, done: nat)
    requires
        first_win(m, color, allow_wild, done) is None,
    ensures
        forall|ms: Seq<Point>| !#[trigger] wins(m, color, allow_wild, done, ms),
    decreases m.removable, 1nat, 0int,
{
    let fr = frontier_spec(m, color, allow_wild);
    lemma_first_win_from_complete(m, color, allow_wild, done, 0);
    assert forall|ms: Seq<Point>| !#[trigger] wins(m, color, allow_wild, done, ms) by {
        if wins(m, color, allow_wild, done, ms) {
            assert(ms.len() > 0);
            assert(fr.contains(ms[0]));
            let j = choose|j: int| 0 <= j < fr.len() && fr[j] == ms[0];
            let q = ms[0];
            assert(dead_end(m, q, color, allow_wild, done));
            let next = m.after_remove(q, color);
            let nc = next_color(done, m.tile_at(q), color);
            let na = next_allow(done, m.tile_at(q), allow_wild);
            assert(wins(next, nc, na, done + 1, ms.drop_first()));
        }
    }
}

proof fn lemma_first_win_from_complete(
    m: BoardModel,
    color: u32,
    allow_wild: bool,
    done: nat,
    k: nat,
)
    requires
        m.removable > 0,
        first_win_from(m, color, allow_wild, done, k) is None,
    ensures
        forall|j: int|
            k <= j < frontier_spec(m, color, allow_wild).len() ==> dead_end(
                m,
                #[trigger] frontier_spec(m, color, allow_wild)[j],
                color,
                allow_wild,
                done,
            ),
    decreases m.removable, 0nat, frontier_spec(m, color, allow_wild).len() - k,
{
    let fr = frontier_spec(m, color, allow_wild);
    if k < fr.len() {
        let p = fr[k as int];
        let t = m.tile_at(p);
        lemma_first_win_complete(
            m.after_remove(p, color),
            next_color(done, t, color),
            next_allow(done, t, allow_wild),
            done + 1,
        );
        lemma_first_win_from_complete(m, color, allow_wild, done, k + 1);
    }
}

/// `m` with its color-lock flag set to `locked`.
pub open spec fn with_lock(m: BoardModel, locked: bool) -> BoardModel {
    BoardModel { color_locked: locked, ..m }
}

proof fn lemma_column_pick_lock(m: BoardModel, locked: bool, col: u32, n: nat, color: u32, allow_wild: bool)
    ensures
        column_pick(with_lock(m, locked), col, n, color, allow_wild) == column_pick(m, col, n, color, allow_wild),
    decreases n,
{
    if n > 0 {
        lemma_column_pick_lock(m, locked, col, (n - 1) as nat, color, allow_wild);
    }
}

proof fn lemma_frontier_lock(m: BoardModel, locked: bool, n: nat, color: u32, allow_wild: bool)
    ensures
        frontier_of(with_lock(m, locked), n, color, allow_wild) == frontier_of(m, n, color, allow_wild),
    decreases n,
{
    if n > 0 {
        lemma_frontier_lock(m, locked, (n - 1) as nat, color, allow_wild);
        lemma_column_pick_lock(m, locked, (n - 1) as u32, m.height, color, allow_wild);
    }
}

/// The color-lock flag is carried by the board but not consulted by the
/// search: boards that differ only in it give the same play.
pub proof fn lemma_color_lock_ignored(m: BoardModel, locked: bool, color: u32, allow_wild: bool, done: nat)
    ensures
        first_win(with_lock(m, locked), color, allow_wild, done) == first_win(m, color, allow_wild, done),
    decreases m.removable, 1nat, 0int,
{
    if m.removable != 0 {
        lemma_first_win_from_lock(m, locked, color, allow_wild, done, 0);
    }
}

proof fn lemma_first_win_from_lock(
    m: BoardModel,
    locked: bool,
    color: u32,
    allow_wild: bool,
    done: nat,
    k: nat,
)
    ensures
        first_win_from(with_lock(m, locked), color, allow_wild, done, k) == first_win_from(
            m,
            color,
            allow_wild,
            done,
            k,
        ),
    decreases m.removable, 0nat, frontier_spec(m, color, allow_wild).len() - k,
{
    let fr = frontier_spec(m, color, allow_wild);
    lemma_frontier_lock(m, locked, m.width, color, allow_wild);
    if m.removable != 0 && k < fr.len() {
        let p = fr[k as int];
        let t = m.tile_at(p);
        let next = m.after_remove(p, color);
        assert(with_lock(m, locked).after_remove(p, color) == with_lock(next, locked));
        lemma_color_lock_ignored(next, locked, next_color(done, t, color), next_allow(done, t, allow_wild), done + 1);
        lemma_first_win_from_lock(m, locked, color, allow_wild, done, k + 1);
    }
}

/// The stones that the play `ms` removes, in order, as they behaved when
/// removed.
pub open spec fn played(m: BoardModel, color: u32, allow_wild: bool, done: nat, ms: Seq<Point>) -> Seq<
    AnyStone,
>
    decreases ms.len(),
{
    if ms.len() == 0 {
        seq![]
    } else {
        seq![m.tile_at(ms[0])] + played(
            m.after_remove(ms[0], color),
            next_color(done, m.tile_at(ms[0]), color),
            next_allow(done, m.tile_at(ms[0]), allow_wild),
            done + 1,
            ms.drop_first(),
        )
    }
}

/// `true` if two stones may stand in one triplet: not two wild stones, and
/// not two ordinary stones of different colors.
pub open spec fn compatible(s: AnyStone, t: AnyStone) -> bool {
    &&& !(s is Wild && t is Wild)
    &&& (s is Ordinary && t is Ordinary) ==> s->Ordinary_0.spec_color()
        == t->Ordinary_0.spec_color()
}

/// `true` if each triplet of `stones` (positions `3k`, `3k + 1`, `3k + 2`)
/// holds ordinary stones of a single color and at most one wild stone.
pub open spec fn triplets_valid(stones: Seq<AnyStone>) -> bool {
    forall|i: int, j: int|
        0 <= i < j < stones.len() && i / 3 == j / 3 ==> compatible(
            #[trigger] stones[i],
            #[trigger] stones[j],
        )
}

proof fn lemma_triplets_from(m: BoardModel, color: u32, allow_wild: bool, done: nat, ms: Seq<Point>)
    requires
        m.wf(),
        m.turn + m.removable <= u32::MAX,
        color == 0 || is_color(color),
        wins(m, color, allow_wild, done, ms),
    ensures
        played(m, color, allow_wild, done, ms).len() == ms.len(),
        forall|i: int, j: int|
            0 <= i < j < ms.len() && (done + i) / 3 == (done + j) / 3 ==> compatible(
                #[trigger] played(m, color, allow_wild, done, ms)[i],
                #[trigger] played(m, color, allow_wild, done, ms)[j],
            ),
        forall|j: int|
            0 <= j < ms.len() && (done + j) / 3 == done / 3 ==> {
                let t = #[trigger] played(m, color, allow_wild, done, ms)[j];
                &&& t is Wild ==> allow_wild
                &&& t is Ordinary ==> color == 0 || t->Ordinary_0.spec_color() == color
            },
    decreases ms.len(),
{
    if ms.len() > 0 {
        let q = ms[0];
        let t = m.tile_at(q);
        let next = m.after_remove(q, color);
        let nc = next_color(done, t, color);
        let na = next_allow(done, t, allow_wild);
        let rest = ms.drop_first();
        let pl = played(m, color, allow_wild, done, ms);
        let pr = played(next, nc, na, done + 1, rest);
        let k = choose|k: int| 0 <= k < frontier_spec(m, color, allow_wild).len() && frontier_spec(m, color, allow_wild)[k] == q;
        lemma_frontier_member(m, m.width, color, allow_wild, k);
        lemma_idx_bounds(m.width, m.height, q);
        lemma_count_update(m.grid, removable_stone(), idx(m.width, q), empty_stone());
        lemma_remove_undone(m, q, color);
        assert(t is Ordinary ==> is_color(t->Ordinary_0.spec_color())) by {
            assert(m.grid[idx(m.width, q)] is Ordinary ==> m.grid[idx(m.width, q)] == t);
        }
        lemma_triplets_from(next, nc, na, done + 1, rest);
        assert(pl == seq![t] + pr);
        assert forall|j: int|
            1 <= j < ms.len() && (done + j) / 3 == done / 3 implies {
                &&& (#[trigger] pr[j - 1]) is Wild ==> na && !(t is Wild)
                &&& pr[j - 1] is Ordinary ==> (color == 0 || pr[j - 1]->Ordinary_0.spec_color() == color)
                    && (t is Ordinary ==> pr[j - 1]->Ordinary_0.spec_color() == t->Ordinary_0.spec_color())
            } by {
            assert((done + 1 + (j - 1)) / 3 == (done + 1) / 3);
            assert((done + 1) % 3 != 0);
            if t is Ordinary {
                let b = t->Ordinary_0.spec_color();
                let k2 = choose|k2: u32| k2 < 32 && b == 1u32 << k2;
                assert(b != 0) by (bit_vector)
                    requires
                        k2 < 32,
                        b == 1u32 << k2,
                ;
            }
            let _ = pr[j - 1];
        }
        assert forall|i: int, j: int|
            0 <= i < j < ms.len() && (done + i) / 3 == (done + j) / 3 implies compatible(
                #[trigger] pl[i],
                #[trigger] pl[j],
            ) by {
            if i == 0 {
                assert(pl[j] == pr[j - 1]);
                assert((done + j) / 3 == done / 3);
            } else {
                assert(pl[i] == pr[i - 1] && pl[j] == pr[j - 1]);
                assert((done + 1 + (i - 1)) / 3 == (done + 1 + (j - 1)) / 3);
                let _ = pr[i - 1];
                let _ = pr[j - 1];
            }
        }
        assert forall|j: int|
            0 <= j < ms.len() && (done + j) / 3 == done / 3 implies {
                let u = #[trigger] pl[j];
                &&& u is Wild ==> allow_wild
                &&& u is Ordinary ==> color == 0 || u->Ordinary_0.spec_color() == color
            } by {
            if j > 0 {
                assert(pl[j] == pr[j - 1]);
            }
        }
    }
}

/// Triplet validity: a play that clears a well-formed board from its start,
/// as `solve` plays it, removes triplets that each hold ordinary stones of a
/// single color and at most one wild stone.
pub proof fn lemma_triplets(m: BoardModel, ms: Seq<Point>)
    requires
        m.wf(),
        m.turn + m.removable <= u32::MAX,
        wins(m, 0, true, 0, ms),
    ensures
        played(m, 0, true, 0, ms).len() == ms.len(),
        triplets_valid(played(m, 0, true, 0, ms)),
{
    lemma_triplets_from(m, 0, true, 0, ms);
}

impl Board {
    /// Answer `true` if the receiver is solved, `false` otherwise.
    fn is_solved(&self) -> (r: bool)
        ensures
            r == (self@.removable == 0),
    {
        self.removable_stones() == 0
    }

    /// Solve the board. Answer the first play, in depth-first frontier
    /// order, that clears it, if that play is made of whole triplets, and
    /// `None` otherwise. The board is left as it was.
    pub fn solve(&mut self) -> (r: Option<Vec<Point>>)
        requires
            old(self)@.wf(),
            old(self)@.turn + old(self)@.removable <= u32::MAX,
        ensures
            final(self)@ == old(self)@,
            match r {
                Some(ms) => {
                    &&& first_win(old(self)@, 0, true, 0) == Some(ms@)
                    &&& ms@.len() % 3 == 0
                    &&& wins(old(self)@, 0, true, 0, ms@)
                    &&& triplets_valid(played(old(self)@, 0, true, 0, ms@))
                },
                None => {
                    &&& first_win(old(self)@, 0, true, 0) matches Some(ms) ==> ms.len() % 3 != 0
                    &&& forall|ms: Seq<Point>|
                        !(#[trigger] wins(old(self)@, 0, true, 0, ms) && ms.len() % 3 == 0)
                },
            },
    {
        let mut moves: Vec<Point> = Vec::new();
        let found = self.solve_recursively(&mut moves, WILD_COLOR, true);
        assert(Seq::<Point>::empty() + moves@ == moves@);
        if found && moves.len() % 3 == 0 {
            proof {
                lemma_first_win_sound(old(self)@, 0, true, 0);
                lemma_triplets(old(self)@, moves@);
            }
            Some(moves)
        } else {
            proof {
                if found {
                    lemma_first_win_sound(old(self)@, 0, true, 0);
                } else {
                    lemma_first_win_complete(old(self)@, 0, true, 0);
                }
                assert forall|ms: Seq<Point>|
                    !(#[trigger] wins(old(self)@, 0, true, 0, ms) && ms.len() % 3 == 0) by {
                    if wins(old(self)@, 0, true, 0, ms) {
                        lemma_win_length(old(self)@, 0, true, 0, ms);
                        lemma_win_length(old(self)@, 0, true, 0, moves@);
                    }
                }
            }
            None
        }
    }

    /// Extend `moves` with the first play, in depth-first frontier order,
    /// that clears the board from here under the color filter `color` (`0`
    /// for none) and the wild permission `allow_wild`, and answer `true`; or
    /// leave `moves` as it was and answer `false` when no play does. The board
    /// is left as it was.
    fn solve_recursively(&mut self, moves: &mut Vec<Point>, color: u32, allow_wild: bool) -> (r:
        bool)
        requires
            old(self)@.wf(),
            old(self)@.turn + old(self)@.removable <= u32::MAX,
            color == 0 || is_color(color),
        ensures
            final(self)@ == old(self)@,
            r == first_win(old(self)@, color, allow_wild, old(moves)@.len() as nat) is Some,
            r ==> final(moves)@ == old(moves)@ + first_win(
                old(self)@,
                color,
                allow_wild,
                old(moves)@.len() as nat,
            )->Some_0,
            !r ==> final(moves)@ == old(moves)@,
        decreases old(self)@.removable,
    {
        let ghost m = self@;
        let ghost d = moves@.len() as nat;
        if self.is_solved() {
            assert(moves@ + Seq::<Point>::empty() == moves@);
            return true;
        }
        let available = self.frontier(color, allow_wild);
        let mut k: usize = 0;
        while k < available.len()
            invariant
                self@ == m,
                m == old(self)@,
                m.wf(),
                m.turn + m.removable <= u32::MAX,
                m.removable > 0,
                color == 0 || is_color(color),
                moves@ == old(moves)@,
                d == old(moves)@.len(),
                available@ == frontier_spec(m, color, allow_wild),
                k <= available@.len(),
                first_win(m, color, allow_wild, d) == first_win_from(
                    m,
                    color,
                    allow_wild,
                    d,
                    k as nat,
                ),
            decreases available@.len() - k,
        {
            let p = available[k];
            proof {
                lemma_frontier_member(m, m.width, color, allow_wild, k as int);
                let i = idx(m.width, p);
                lemma_idx_bounds(m.width, m.height, p);
                lemma_count_update(m.grid, removable_stone(), i, empty_stone());
                lemma_remove_undone(m, p, color);
            }
            moves.push(p);
            let mut stone = AnyStone::Empty(NoStone);
            let undo = self.remove(p, &mut stone, color);
            let (new_color, new_allow_wild) = if moves.len() % 3 == 0 {
                (WILD_COLOR, true)
            } else {
                match stone {
                    AnyStone::Ordinary(o) => (o.color(), allow_wild),
                    _ => (color, false),
                }
            };
            proof {
                assert(new_color == next_color(d, m.tile_at(p), color));
                assert(new_allow_wild == next_allow(d, m.tile_at(p), allow_wild));
                assert(new_color == 0 || is_color(new_color));
            }
            let ghost pushed = moves@;
            if self.solve_recursively(moves, new_color, new_allow_wild) {
                undo.undo(self);
                proof {
                    let ms = first_win(self@.after_remove(p, color), new_color, new_allow_wild, d + 1)->Some_0;
                    assert(pushed == old(moves)@ + seq![p]);
                    assert(moves@ == old(moves)@ + (seq![p] + ms));
                }
                return true;
            }
            undo.undo(self);
            moves.pop();
            proof {
                assert(moves@ == old(moves)@);
            }
            k = k + 1;
        }
        false
    }

    /// Compute the frontier of the board: the points of the stones that may
    /// be removed next under the color filter `color` (`0` for none) and the
    /// wild permission `allow_wild`, one per column at most, left to right.
    pub fn frontier(&self, color: u32, allow_wild: bool) -> (r: Vec<Point>)
        requires
            self@.wf(),
        ensures
            r@ == frontier_spec(self@, color, allow_wild),
    {
        let width = self.width();
        let height = self.height();
        let mut vec: Vec<Point> = Vec::new();
        let mut column: u32 = 0;
        while column < width
            invariant
                self@.wf(),
                width == self@.width,
                height == self@.height,
                column <= width,
                vec@ == frontier_of(self@, column as nat, color, allow_wild),
            decreases width - column,
        {
            let mut found: Option<Point> = None;
            let mut stop = false;
            let mut row: u32 = height;
            while row > 0 && !stop
                invariant
                    self@.wf(),
                    width == self@.width,
                    height == self@.height,
                    column < width,
                    row <= height,
                    !stop ==> found is None,
                    stop ==> column_pick(self@, column, height as nat, color, allow_wild) == found,
                    !stop ==> column_pick(self@, column, height as nat, color, allow_wild)
                        == column_pick(self@, column, row as nat, color, allow_wild),
                decreases row,
            {
                let r = row - 1;
                match self.stone_at((column, r)) {
                    AnyStone::Empty(_) => {},
                    AnyStone::Survivor(_) => {},
                    AnyStone::Toggle(t) => {
                        if !t.is_open() {
                            stop = true;
                        }
                    },
                    AnyStone::Ordinary(o) => {
                        stop = true;
                        if color == WILD_COLOR || o.color() == color {
                            found = Some((column, r));
                        }
                    },
                    AnyStone::Wild(_) => {
                        stop = true;
                        if allow_wild && (color == WILD_COLOR || color & self.wild_colors() != 0) {
                            found = Some((column, r));
                        }
                    },
                }
                row = r;
            }
            match found {
                Some(p) => vec.push(p),
                None => {},
            }
            column = column + 1;
        }
        vec
    }
}

} // verus!
