//! The board model: stones, the grid, and the reversible removal protocol.

use vstd::prelude::*;

verus! {

/// An `(x, y)` location on a board: `x` is the column, `y` the row, and
/// `(0, 0)` is the uppermost leftmost cell.
pub type Point = (u32, u32);

/// `true` if `c` is a color: a mask with exactly one of its 32 bits set.
pub open spec fn is_color(c: u32) -> bool {
    exists|k: u32| k < 32 && c == 1u32 << k
}

/// The behavior profile of an arbitrary stone.
pub trait Stone: Sized {
    /// Whether the stone is, by nature, directly removable.
    spec fn removable(&self) -> bool;

    /// The stone as it behaves on the given turn.
    spec fn at_turn(&self, turn: nat) -> Self;

    /// Answer the state of the receiver given the specified board state.
    fn for_board(&self, board: &Board) -> (r: Self)
        ensures
            r == self.at_turn(board@.turn),
    ;

    /// Answer `true` if the receiver is, by nature, directly removable.
    fn is_removable(&self) -> (r: bool)
        ensures
            r == self.removable(),
    ;
}

/// The absence of a stone.
#[derive(Clone, Copy, Debug, PartialEq, Eq, Structural, Hash)]
pub struct NoStone;

impl Stone for NoStone {
    open spec fn removable(&self) -> bool {
        false
    }

    open spec fn at_turn(&self, turn: nat) -> Self {
        *self
    }

    fn for_board(&self, board: &Board) -> (r: Self) {
        *self
    }

    fn is_removable(&self) -> (r: bool) {
        false
    }
}

/// An ordinary stone: a glyph and a color.
#[derive(Clone, Copy, Debug, PartialEq, Eq, Structural, Hash)]
pub struct OrdinaryStone {
    /// The character that represents this stone.
    pub rep: char,
    /// The color of this stone: a mask with exactly one bit set, which limits
    /// a board to 32 colors.
    pub color: u32,
}

impl OrdinaryStone {
    pub open spec fn spec_color(&self) -> u32 {
        self.color
    }

    pub open spec fn spec_rep(&self) -> char {
        self.rep
    }

    /// Answer the color of the receiver.
    pub fn color(&self) -> (r: u32)
        ensures
            r == self.spec_color(),
    {
        self.color
    }

    /// Answer the character that represents the receiver.
    pub fn rep(&self) -> (r: char)
        ensures
            r == self.spec_rep(),
    {
        self.rep
    }
}

impl Stone for OrdinaryStone {
    open spec fn removable(&self) -> bool {
        true
    }

    open spec fn at_turn(&self, turn: nat) -> Self {
        *self
    }

    fn for_board(&self, board: &Board) -> (r: Self) {
        *self
    }

    fn is_removable(&self) -> (r: bool) {
        true
    }
}

/// A survivor stone cannot be removed directly, but disappears once no
/// removable stone is left in its row.
#[derive(Clone, Copy, Debug, PartialEq, Eq, Structural, Hash)]
pub struct SurvivorStone;

impl Stone for SurvivorStone {
    open spec fn removable(&self) -> bool {
        false
    }

    open spec fn at_turn(&self, turn: nat) -> Self {
        *self
    }

    fn for_board(&self, board: &Board) -> (r: Self) {
        *self
    }

    fn is_removable(&self) -> (r: bool) {
        false
    }
}

/// A wild stone may stand for any color still in the board's wild-color
/// mask; committing it to one color takes that color from every wild stone.
#[derive(Clone, Copy, Debug, PartialEq, Eq, Structural, Hash)]
pub struct WildStone;

impl Stone for WildStone {
    open spec fn removable(&self) -> bool {
        true
    }

    open spec fn at_turn(&self, turn: nat) -> Self {
        *self
    }

    fn for_board(&self, board: &Board) -> (r: Self) {
        *self
    }

    fn is_removable(&self) -> (r: bool) {
        true
    }
}

/// A toggle stone cannot be matched. It alternately obstructs and permits
/// access to the stones above it: it is open on the turns whose parity equals
/// its phase's parity, and closed on the others.
#[derive(Clone, Copy, Debug, PartialEq, Eq, Structural, Hash)]
pub struct ToggleStone {
    /// The phase: the toggle is open on the turns of the phase's parity.
    pub phase: u32,
}

impl ToggleStone {
    pub open spec fn spec_is_open(&self) -> bool {
        self.phase % 2 == 0
    }

    /// Answer `true` if the receiver is open, `false` otherwise.
    pub fn is_open(&self) -> (r: bool)
        ensures
            r == self.spec_is_open(),
    {
        self.phase % 2 == 0
    }
}

impl Stone for ToggleStone {
    open spec fn removable(&self) -> bool {
        false
    }

    /// The phase advances by the turn number, wrapping at 2^32, which keeps
    /// its parity.
    open spec fn at_turn(&self, turn: nat) -> Self {
        ToggleStone { phase: ((self.phase + turn) % 0x1_0000_0000) as u32 }
    }

    fn for_board(&self, board: &Board) -> (r: Self) {
        ToggleStone { phase: self.phase.wrapping_add(board.turn) }
    }

    fn is_removable(&self) -> (r: bool) {
        false
    }
}

/// A toggle is open on the turns whose parity is that of its phase.
pub proof fn lemma_toggle_open(t: ToggleStone, turn: nat)
    requires
        turn <= u32::MAX,
    ensures
        t.at_turn(turn).phase == t.phase + turn || t.phase + turn > u32::MAX,
        t.at_turn(turn).spec_is_open() == (t.phase % 2 == turn % 2),
{
}

/// An arbitrary stone.
#[derive(Clone, Copy, Debug, PartialEq, Eq, Structural, Hash)]
pub enum AnyStone {
    Empty(NoStone),
    Ordinary(OrdinaryStone),
    Survivor(SurvivorStone),
    Wild(WildStone),
    Toggle(ToggleStone),
}

impl Stone for AnyStone {
    open spec fn removable(&self) -> bool {
        match self {
            AnyStone::Empty(s) => s.removable(),
            AnyStone::Ordinary(s) => s.removable(),
            AnyStone::Survivor(s) => s.removable(),
            AnyStone::Wild(s) => s.removable(),
            AnyStone::Toggle(s) => s.removable(),
        }
    }

    open spec fn at_turn(&self, turn: nat) -> Self {
        match self {
            AnyStone::Empty(s) => AnyStone::Empty(s.at_turn(turn)),
            AnyStone::Ordinary(s) => AnyStone::Ordinary(s.at_turn(turn)),
            AnyStone::Survivor(s) => AnyStone::Survivor(s.at_turn(turn)),
            AnyStone::Wild(s) => AnyStone::Wild(s.at_turn(turn)),
            AnyStone::Toggle(s) => AnyStone::Toggle(s.at_turn(turn)),
        }
    }

    fn for_board(&self, board: &Board) -> (r: Self) {
        match self {
            AnyStone::Empty(s) => AnyStone::Empty(s.for_board(board)),
            AnyStone::Ordinary(s) => AnyStone::Ordinary(s.for_board(board)),
            AnyStone::Survivor(s) => AnyStone::Survivor(s.for_board(board)),
            AnyStone::Wild(s) => AnyStone::Wild(s.for_board(board)),
            AnyStone::Toggle(s) => AnyStone::Toggle(s.for_board(board)),
        }
    }

    fn is_removable(&self) -> (r: bool) {
        match self {
            AnyStone::Empty(s) => s.is_removable(),
            AnyStone::Ordinary(s) => s.is_removable(),
            AnyStone::Survivor(s) => s.is_removable(),
            AnyStone::Wild(s) => s.is_removable(),
            AnyStone::Toggle(s) => s.is_removable(),
        }
    }
}

/// The number of stones of `s` that satisfy `f`.
pub open spec fn count_matching(s: Seq<AnyStone>, f: spec_fn(AnyStone) -> bool) -> nat
    decreases s.len(),
{
    if s.len() == 0 {
        0
    } else {
        count_matching(s.drop_last(), f) + if f(s.last()) {
            1nat
        } else {
            0nat
        }
    }
}

/// The stones that are directly removable.
pub open spec fn removable_stone() -> spec_fn(AnyStone) -> bool {
    |t: AnyStone| t.removable()
}

/// The wild stones.
pub open spec fn wild_stone() -> spec_fn(AnyStone) -> bool {
    |t: AnyStone| t is Wild
}

/// The number of directly removable stones in `s`.
pub open spec fn count_removable(s: Seq<AnyStone>) -> nat {
    count_matching(s, removable_stone())
}

/// The number of wild stones in `s`.
pub open spec fn count_wild(s: Seq<AnyStone>) -> nat {
    count_matching(s, wild_stone())
}

pub proof fn lemma_count_bound(s: Seq<AnyStone>, f: spec_fn(AnyStone) -> bool)
    ensures
        count_matching(s, f) <= s.len(),
    decreases s.len(),
{
    if s.len() > 0 {
        lemma_count_bound(s.drop_last(), f);
    }
}

pub proof fn lemma_count_update(
    s: Seq<AnyStone>,
    f: spec_fn(AnyStone) -> bool,
    i: int,
    x: AnyStone,
)
    requires
        0 <= i < s.len(),
    ensures
        count_matching(s.update(i, x), f) + (if f(s[i]) { 1int } else { 0int })
            == count_matching(s, f) + (if f(x) { 1int } else { 0int }),
    decreases s.len(),
{
    let t = s.update(i, x);
    if i == s.len() - 1 {
        assert(t.drop_last() =~= s.drop_last());
    } else {
        assert(t.drop_last() =~= s.drop_last().update(i, x));
        lemma_count_update(s.drop_last(), f, i, x);
    }
}

pub proof fn lemma_count_pointwise(s: Seq<AnyStone>, t: Seq<AnyStone>, f: spec_fn(AnyStone) -> bool)
    requires
        s.len() == t.len(),
        forall|i: int| 0 <= i < s.len() ==> f(s[i]) == f(t[i]),
    ensures
        count_matching(s, f) == count_matching(t, f),
    decreases s.len(),
{
    if s.len() > 0 {
        lemma_count_pointwise(s.drop_last(), t.drop_last(), f);
    }
}

/// A key of the board's legend.
#[derive(Clone, Debug, PartialEq, Eq, Hash)]
pub enum PropertyKey {
    /// The width, in stones, i.e., the row stride.
    Width,
    /// The colors available to wild stones.
    Wild,
    /// Whether a color is locked once completed.
    ColorLock,
    /// Display properties for the ordinary stones of one glyph.
    Display(char),
    /// A key with no meaning to the board.
    Unknown(Vec<char>),
}

/// A value of the board's legend.
#[derive(Clone, Debug, PartialEq, Eq, Hash)]
pub enum PropertyValue {
    Bool(bool),
    U32(u32),
    Text(Vec<char>),
}

/// The mathematical model of a legend key.
pub enum KeyView {
    Width,
    Wild,
    ColorLock,
    Display(char),
    Unknown(Seq<char>),
}

/// The mathematical model of a legend value.
pub enum ValueView {
    Bool(bool),
    U32(u32),
    Text(Seq<char>),
}

impl View for PropertyKey {
    type V = KeyView;

    open spec fn view(&self) -> KeyView {
        match self {
            PropertyKey::Width => KeyView::Width,
            PropertyKey::Wild => KeyView::Wild,
            PropertyKey::ColorLock => KeyView::ColorLock,
            PropertyKey::Display(c) => KeyView::Display(*c),
            PropertyKey::Unknown(s) => KeyView::Unknown(s@),
        }
    }
}

impl View for PropertyValue {
    type V = ValueView;

    open spec fn view(&self) -> ValueView {
        match self {
            PropertyValue::Bool(b) => ValueView::Bool(*b),
            PropertyValue::U32(n) => ValueView::U32(*n),
            PropertyValue::Text(s) => ValueView::Text(s@),
        }
    }
}

/// The model of a list of legend entries.
pub open spec fn entries_view(es: Seq<(PropertyKey, PropertyValue)>) -> Seq<(KeyView, ValueView)> {
    es.map_values(|e: (PropertyKey, PropertyValue)| (e.0@, e.1@))
}

/// `true` if no two entries of `es` have the same key.
pub open spec fn keys_unique(es: Seq<(KeyView, ValueView)>) -> bool {
    forall|i: int, j: int| 0 <= i < j < es.len() ==> (#[trigger] es[i]).0 != (#[trigger] es[j]).0
}

/// The mathematical model of a board.
pub struct BoardModel {
    pub turn: nat,
    pub wild_colors: u32,
    pub color_locked: bool,
    pub width: nat,
    pub height: nat,
    pub removable: nat,
    pub grid: Seq<AnyStone>,
    pub properties: Seq<(KeyView, ValueView)>,
}

/// The state of the game board during a particular turn.
#[derive(Debug)]
pub struct Board {
    pub(crate) turn: u32,
    pub(crate) wild_colors: u32,
    pub(crate) color_locked: bool,
    pub(crate) width: u32,
    pub(crate) height: u32,
    pub(crate) removable_stones: u32,
    pub(crate) grid: Vec<AnyStone>,
    pub(crate) properties: Vec<(PropertyKey, PropertyValue)>,
}

impl View for Board {
    type V = BoardModel;

    closed spec fn view(&self) -> BoardModel {
        BoardModel {
            turn: self.turn as nat,
            wild_colors: self.wild_colors,
            color_locked: self.color_locked,
            width: self.width as nat,
            height: self.height as nat,
            removable: self.removable_stones as nat,
            grid: self.grid@,
            properties: entries_view(self.properties@),
        }
    }
}

/// The position in the flat grid of the point `p` on a board `width` wide.
pub open spec fn idx(width: nat, p: Point) -> int {
    p.1 as int * width as int + p.0 as int
}

impl BoardModel {
    /// The board's structural invariant.
    pub open spec fn wf(self) -> bool {
        &&& self.shaped()
        &&& self.turn <= u32::MAX
        &&& self.removable == count_removable(self.grid)
        &&& keys_unique(self.properties)
        &&& forall|i: int|
            0 <= i < self.grid.len() && (#[trigger] self.grid[i]) is Ordinary ==> is_color(
                self.grid[i]->Ordinary_0.spec_color(),
            )
    }

    /// The grid holds `width` times `height` stones, a number that fits a
    /// `u32`, and `width` is not zero.
    pub open spec fn shaped(self) -> bool {
        &&& 0 < self.width <= u32::MAX
        &&& self.height <= u32::MAX
        &&& self.grid.len() == self.width * self.height
        &&& self.grid.len() <= u32::MAX
    }

    pub open spec fn in_bounds(self, p: Point) -> bool {
        p.0 < self.width && p.1 < self.height
    }

    /// The stone at `p` as it behaves on the current turn.
    pub open spec fn tile_at(self, p: Point) -> AnyStone {
        self.grid[idx(self.width, p)].at_turn(self.turn)
    }
}


/// `true` if no stone of row `row` is directly removable.
pub open spec fn row_clear(grid: Seq<AnyStone>, width: nat, row: u32) -> bool {
    forall|c: u32| c < width ==> !(#[trigger] grid[idx(width, (c, row))]).removable()
}

/// The survivors among the first `n` columns of row `row`, left to right.
pub open spec fn survivors_in_row(grid: Seq<AnyStone>, width: nat, row: u32, n: nat) -> Seq<Point>
    decreases n,
{
    if n == 0 {
        seq![]
    } else {
        let c = (n - 1) as u32;
        survivors_in_row(grid, width, row, (n - 1) as nat) + if grid[idx(width, (c, row))] is Survivor {
            seq![(c, row)]
        } else {
            seq![]
        }
    }
}

/// The survivors that a removal in row `row` clears, once the row holds no
/// removable stone: all of the row's survivors, or none.
pub open spec fn cleared_survivors(grid: Seq<AnyStone>, width: nat, row: u32) -> Seq<Point> {
    if row_clear(grid, width, row) {
        survivors_in_row(grid, width, row, width)
    } else {
        seq![]
    }
}

/// `grid` with the stone `t` put at each of the points `pts`.
pub open spec fn put_all(grid: Seq<AnyStone>, width: nat, pts: Seq<Point>, t: AnyStone) -> Seq<
    AnyStone,
>
    decreases pts.len(),
{
    if pts.len() == 0 {
        grid
    } else {
        put_all(grid, width, pts.drop_last(), t).update(idx(width, pts.last()), t)
    }
}

/// `true` if one of the points `pts` lies at position `i` of the grid.
pub open spec fn hits(width: nat, pts: Seq<Point>, i: int) -> bool {
    exists|j: int| 0 <= j < pts.len() && idx(width, #[trigger] pts[j]) == i
}

pub open spec fn empty_stone() -> AnyStone {
    AnyStone::Empty(NoStone)
}

pub open spec fn survivor_stone() -> AnyStone {
    AnyStone::Survivor(SurvivorStone)
}

/// What a removal records so that it can be reversed.
pub struct UndoModel {
    /// The position of the removed stone in the grid.
    pub index: int,
    /// The removed stone.
    pub stone: AnyStone,
    /// The wild colors that the removal took from the board.
    pub cleared: u32,
    /// The survivors that the removal cleared.
    pub survivors: Seq<Point>,
}

impl BoardModel {
    /// `true` if removing the stone at `p` while asserting `color` is legal:
    /// the stone is removable, and `color` is `0` or a color that it can take.
    pub open spec fn legal(self, p: Point, color: u32) -> bool {
        &&& self.in_bounds(p)
        &&& self.turn < u32::MAX
        &&& match self.tile_at(p) {
            AnyStone::Ordinary(o) => color == 0 || color == o.spec_color(),
            AnyStone::Wild(_) => color == 0 || (is_color(color) && color & self.wild_colors != 0),
            _ => false,
        }
    }

    /// The wild colors that removing the stone at `p` while asserting `color`
    /// takes from the board.
    pub open spec fn cleared_colors(self, p: Point, color: u32) -> u32 {
        if self.grid[idx(self.width, p)] is Wild {
            color
        } else {
            0
        }
    }

    /// The board once the stone at `p` has been removed while asserting
    /// `color`, and the row's survivors cleared if no removable stone is left
    /// in it.
    pub open spec fn after_remove(self, p: Point, color: u32) -> BoardModel {
        let g1 = self.grid.update(idx(self.width, p), empty_stone());
        BoardModel {
            turn: self.turn + 1,
            wild_colors: self.wild_colors & !self.cleared_colors(p, color),
            color_locked: self.color_locked,
            width: self.width,
            height: self.height,
            removable: (self.removable - 1) as nat,
            grid: put_all(g1, self.width, cleared_survivors(g1, self.width, p.1), empty_stone()),
            properties: self.properties,
        }
    }

    /// The board once the stone at `p` has been removed by `force_remove`.
    pub open spec fn after_force_remove(self, p: Point) -> BoardModel {
        let g1 = self.grid.update(idx(self.width, p), empty_stone());
        BoardModel {
            turn: self.turn + 1,
            removable: if self.grid[idx(self.width, p)].removable() {
                (self.removable - 1) as nat
            } else {
                self.removable
            },
            grid: put_all(g1, self.width, cleared_survivors(g1, self.width, p.1), empty_stone()),
            ..self
        }
    }

    /// The record that removing the stone at `p` while asserting `color`
    /// hands back.
    pub open spec fn removal_record(self, p: Point, color: u32) -> UndoModel {
        let g1 = self.grid.update(idx(self.width, p), empty_stone());
        UndoModel {
            index: idx(self.width, p),
            stone: self.grid[idx(self.width, p)],
            cleared: self.cleared_colors(p, color),
            survivors: cleared_survivors(g1, self.width, p.1),
        }
    }

    /// `true` if the record `u` can be applied to this board.
    pub open spec fn undoable(self, u: UndoModel) -> bool {
        &&& self.shaped()
        &&& 0 <= u.index < self.grid.len()
        &&& self.turn > 0
        &&& self.removable < u32::MAX
        &&& forall|j: int|
            0 <= j < u.survivors.len() ==> self.in_bounds(#[trigger] u.survivors[j])
    }

    /// The board once the record `u` has been applied: the survivors come
    /// back first, then the removed stone.
    pub open spec fn undone(self, u: UndoModel) -> BoardModel {
        BoardModel {
            turn: (self.turn - 1) as nat,
            wild_colors: self.wild_colors | u.cleared,
            color_locked: self.color_locked,
            width: self.width,
            height: self.height,
            removable: self.removable + 1,
            grid: put_all(self.grid, self.width, u.survivors, survivor_stone()).update(
                u.index,
                u.stone,
            ),
            properties: self.properties,
        }
    }
}

pub proof fn lemma_put_all(grid: Seq<AnyStone>, width: nat, pts: Seq<Point>, t: AnyStone)
    requires
        forall|j: int| 0 <= j < pts.len() ==> 0 <= idx(width, #[trigger] pts[j]) < grid.len(),
    ensures
        put_all(grid, width, pts, t).len() == grid.len(),
        forall|i: int|
            0 <= i < grid.len() ==> (#[trigger] put_all(grid, width, pts, t)[i]) == if hits(
                width,
                pts,
                i,
            ) {
                t
            } else {
                grid[i]
            },
    decreases pts.len(),
{
    if pts.len() > 0 {
        let q = pts.drop_last();
        lemma_put_all(grid, width, q, t);
        assert forall|i: int| 0 <= i < grid.len() implies (#[trigger] put_all(
            grid,
            width,
            pts,
            t,
        )[i]) == if hits(width, pts, i) {
            t
        } else {
            grid[i]
        } by {
            if hits(width, q, i) {
                let j = choose|j: int| 0 <= j < q.len() && idx(width, #[trigger] q[j]) == i;
                assert(pts[j] == q[j]);
            }
            if hits(width, pts, i) && i != idx(width, pts.last()) {
                let j = choose|j: int| 0 <= j < pts.len() && idx(width, #[trigger] pts[j]) == i;
                assert(q[j] == pts[j]);
            }
            if i == idx(width, pts.last()) {
                assert(idx(width, pts[pts.len() - 1]) == i);
            }
        }
    }
}

pub proof fn lemma_survivors_in_row(grid: Seq<AnyStone>, width: nat, row: u32, n: nat)
    requires
        n <= width,
        width <= u32::MAX,
    ensures
        forall|j: int|
            0 <= j < survivors_in_row(grid, width, row, n).len() ==> {
                let q = #[trigger] survivors_in_row(grid, width, row, n)[j];
                &&& q.0 < n
                &&& q.1 == row
                &&& grid[idx(width, q)] is Survivor
            },
    decreases n,
{
    if n > 0 {
        lemma_survivors_in_row(grid, width, row, (n - 1) as nat);
    }
}

pub proof fn lemma_idx_bounds(width: nat, height: nat, p: Point)
    requires
        p.0 < width,
        p.1 < height,
    ensures
        0 <= idx(width, p) < width * height,
{
    assert(p.1 as int * width as int + width as int <= height * width) by (nonlinear_arith)
        requires
            p.1 < height,
    ;
    assert(width * height == height * width) by (nonlinear_arith);
}


/// The record of one removal, which reverses it when applied. Records must be
/// applied in the reverse order of the removals that made them.
#[derive(Debug)]
pub struct Undo {
    index: usize,
    stone: AnyStone,
    cleared: u32,
    survivors: Vec<Point>,
}

impl View for Undo {
    type V = UndoModel;

    closed spec fn view(&self) -> UndoModel {
        UndoModel {
            index: self.index as int,
            stone: self.stone,
            cleared: self.cleared,
            survivors: self.survivors@,
        }
    }
}

impl Undo {
    /// Reverse the removal that produced the receiver.
    pub fn undo(self, board: &mut Board)
        requires
            old(board)@.undoable(self@),
        ensures
            final(board)@ == old(board)@.undone(self@),
    {
        assert(self@.survivors == self.survivors@);
        board.add_survivors(&self.survivors);
        board.wild_colors = board.wild_colors | self.cleared;
        board.removable_stones = board.removable_stones + 1;
        board.turn = board.turn - 1;
        board.grid.set(self.index, self.stone);
    }
}


/// Removing a stone keeps the board well formed, and its record brings back
/// exactly the board from before.
pub proof fn lemma_remove_undone(m: BoardModel, p: Point, color: u32)
    requires
        m.wf(),
        m.legal(p, color),
    ensures
        m.after_remove(p, color).wf(),
        m.after_remove(p, color).undoable(m.removal_record(p, color)),
        m.after_remove(p, color).undone(m.removal_record(p, color)) == m,
{
    let w = m.width;
    let i = idx(w, p);
    lemma_idx_bounds(w, m.height, p);
    let g = m.grid;
    let g1 = g.update(i, empty_stone());
    let s = cleared_survivors(g1, w, p.1);
    let g2 = put_all(g1, w, s, empty_stone());
    let a = m.after_remove(p, color);
    let u = m.removal_record(p, color);
    lemma_cascade(g1, w, m.height, p.1);
    lemma_put_all(g1, w, s, empty_stone());
    lemma_put_all(g2, w, s, survivor_stone());
    assert(a.shaped());
    assert(0 <= u.index < a.grid.len());
    assert(a.turn > 0);
    lemma_count_bound(g, removable_stone());
    lemma_count_update(g, removable_stone(), i, empty_stone());
    assert(u.survivors == s);
    assert(a.grid == g2);
    assert forall|k: int| 0 <= k < a.grid.len() && (#[trigger] a.grid[k]) is Ordinary implies is_color(
        a.grid[k]->Ordinary_0.spec_color(),
    ) by {
        assert(g1[k] == g[k]);
    }
    // The grid comes back.
    let back = put_all(g2, w, s, survivor_stone());
    assert forall|k: int| 0 <= k < g1.len() implies #[trigger] back[k] == g1[k] by {
        if hits(w, s, k) {
            let j = choose|j: int| 0 <= j < s.len() && idx(w, #[trigger] s[j]) == k;
        }
    }
    assert(back =~= g1);
    assert(back.update(i, g[i]) =~= g);
    // The wild colors come back.
    let c = m.cleared_colors(p, color);
    let wc = m.wild_colors;
    if c == 0 {
        assert((wc & !0u32) | 0u32 == wc) by (bit_vector);
    } else {
        let k = choose|k: u32| k < 32 && c == 1u32 << k;
        assert((wc & !c) | c == wc) by (bit_vector)
            requires
                c & wc != 0,
                c == 1u32 << k,
                k < 32,
        ;
    }
}

proof fn lemma_force_remove(m: BoardModel, p: Point)
    requires
        m.wf(),
        m.in_bounds(p),
        m.turn < u32::MAX,
    ensures
        m.after_force_remove(p).wf(),
{
    let w = m.width;
    let i = idx(w, p);
    lemma_idx_bounds(w, m.height, p);
    let g = m.grid;
    let g1 = g.update(i, empty_stone());
    lemma_cascade(g1, w, m.height, p.1);
    lemma_count_update(g, removable_stone(), i, empty_stone());
    let a = m.after_force_remove(p);
    assert forall|k: int| 0 <= k < a.grid.len() && (#[trigger] a.grid[k]) is Ordinary implies is_color(
        a.grid[k]->Ordinary_0.spec_color(),
    ) by {
        assert(g1[k] == g[k]);
    }
}

/// Clearing the survivors of a row changes the grid only where it held a
/// survivor, and so changes neither the count of removable stones nor that of
/// wild stones.
pub proof fn lemma_cascade(g1: Seq<AnyStone>, width: nat, height: nat, row: u32)
    requires
        width > 0,
        width <= u32::MAX,
        g1.len() == width * height,
        row < height,
    ensures
        ({
            let s = cleared_survivors(g1, width, row);
            let g2 = put_all(g1, width, s, empty_stone());
            &&& g2.len() == g1.len()
            &&& forall|k: int|
                0 <= k < g1.len() ==> #[trigger] g2[k] == g1[k] || (g2[k] == empty_stone()
                    && g1[k] is Survivor)
            &&& forall|j: int|
                0 <= j < s.len() ==> (#[trigger] s[j]).0 < width && s[j].1 == row && 0 <= idx(
                    width,
                    s[j],
                ) < g1.len() && g1[idx(width, s[j])] is Survivor
            &&& count_matching(g2, removable_stone()) == count_matching(g1, removable_stone())
            &&& count_matching(g2, wild_stone()) == count_matching(g1, wild_stone())
        }),
{
    let s = cleared_survivors(g1, width, row);
    let g2 = put_all(g1, width, s, empty_stone());
    lemma_survivors_in_row(g1, width, row, width);
    assert forall|j: int| 0 <= j < s.len() implies (#[trigger] s[j]).0 < width && s[j].1 == row
        && 0 <= idx(width, s[j]) < g1.len() && g1[idx(width, s[j])] is Survivor by {
        lemma_idx_bounds(width, height, s[j]);
    }
    lemma_put_all(g1, width, s, empty_stone());
    assert forall|k: int| 0 <= k < g1.len() implies #[trigger] g2[k] == g1[k] || (g2[k]
        == empty_stone() && g1[k] is Survivor) by {
        if hits(width, s, k) {
            let j = choose|j: int| 0 <= j < s.len() && idx(width, #[trigger] s[j]) == k;
        }
    }
    lemma_count_pointwise(g1, g2, removable_stone());
    lemma_count_pointwise(g1, g2, wild_stone());
}

proof fn lemma_survivors_in_row_complete(grid: Seq<AnyStone>, width: nat, row: u32, n: nat, c: u32)
    requires
        c < n,
        n <= u32::MAX,
        grid[idx(width, (c, row))] is Survivor,
    ensures
        exists|j: int|
            0 <= j < survivors_in_row(grid, width, row, n).len() && #[trigger] survivors_in_row(
                grid,
                width,
                row,
                n,
            )[j] == (c, row),
    decreases n,
{
    let s = survivors_in_row(grid, width, row, n);
    let prev = survivors_in_row(grid, width, row, (n - 1) as nat);
    if c == n - 1 {
        assert(s[s.len() - 1] == (c, row));
    } else {
        lemma_survivors_in_row_complete(grid, width, row, (n - 1) as nat, c);
        let j = choose|j: int| 0 <= j < prev.len() && #[trigger] prev[j] == (c, row);
        assert(s[j] == prev[j]);
    }
}

/// Survivor cascade: a removal clears the survivors of the removed stone's
/// row exactly when no removable stone is left in that row, changes no other
/// cell but the removed one, and its record brings them all back.
pub proof fn lemma_survivor_cascade(m: BoardModel, p: Point, color: u32)
    requires
        m.wf(),
        m.legal(p, color),
    ensures
        ({
            let w = m.width;
            let i = idx(w, p);
            let a = m.after_remove(p, color);
            let cleared = row_clear(m.grid.update(i, empty_stone()), w, p.1);
            &&& a.grid.len() == m.grid.len()
            &&& a.grid[i] == empty_stone()
            &&& forall|c: u32|
                c < w && (#[trigger] m.grid[idx(w, (c, p.1))]) is Survivor ==> a.grid[idx(
                    w,
                    (c, p.1),
                )] == if cleared {
                    empty_stone()
                } else {
                    m.grid[idx(w, (c, p.1))]
                }
            &&& forall|k: int|
                0 <= k < m.grid.len() && k != i && !((#[trigger] m.grid[k]) is Survivor)
                    ==> a.grid[k] == m.grid[k]
            &&& forall|k: int|
                0 <= k < m.grid.len() && (k < p.1 * w || k >= p.1 * w + w) ==> #[trigger] a.grid[k]
                    == m.grid[k]
            &&& a.undone(m.removal_record(p, color)) == m
        }),
{
    let w = m.width;
    let i = idx(w, p);
    lemma_idx_bounds(w, m.height, p);
    let g = m.grid;
    let g1 = g.update(i, empty_stone());
    let s = cleared_survivors(g1, w, p.1);
    let a = m.after_remove(p, color);
    lemma_cascade(g1, w, m.height, p.1);
    lemma_put_all(g1, w, s, empty_stone());
    lemma_remove_undone(m, p, color);
    assert(a.grid[i] == empty_stone()) by {
        if hits(w, s, i) {
            let j = choose|j: int| 0 <= j < s.len() && idx(w, #[trigger] s[j]) == i;
        }
    }
    assert forall|c: u32| c < w && (#[trigger] g[idx(w, (c, p.1))]) is Survivor implies a.grid[idx(
        w,
        (c, p.1),
    )] == if row_clear(g1, w, p.1) {
        empty_stone()
    } else {
        g[idx(w, (c, p.1))]
    } by {
        lemma_idx_bounds(w, m.height, (c, p.1));
        if row_clear(g1, w, p.1) {
            lemma_survivors_in_row_complete(g1, w, p.1, w, c);
            let j = choose|j: int| 0 <= j < s.len() && #[trigger] s[j] == (c, p.1);
            assert(idx(w, s[j]) == idx(w, (c, p.1)));
        }
    }
    assert forall|k: int| 0 <= k < g.len() && (k < p.1 * w || k >= p.1 * w + w) implies #[trigger] a.grid[k]
        == g[k] by {
        if hits(w, s, k) {
            let j = choose|j: int| 0 <= j < s.len() && idx(w, #[trigger] s[j]) == k;
        }
    }
}

/// The number of set bits among the `n` lowest bits of `m`.
pub open spec fn bits_below(m: u32, n: nat) -> nat
    decreases n,
{
    if n == 0 {
        0
    } else {
        bits_below(m, (n - 1) as nat) + ((m >> ((n - 1) as u32)) & 1u32) as nat
    }
}

/// The number of set bits of `m`.
pub open spec fn popcount(m: u32) -> nat {
    bits_below(m, 32)
}

proof fn lemma_bits_below_clear(m: u32, c: u32, k: u32, n: nat)
    requires
        k < 32,
        c == 1u32 << k,
        c & m != 0,
        n <= 32,
    ensures
        bits_below(m & !c, n) + (if k < n { 1nat } else { 0nat }) == bits_below(m, n),
    decreases n,
{
    if n > 0 {
        lemma_bits_below_clear(m, c, k, (n - 1) as nat);
        let i = (n - 1) as u32;
        assert(i == k ==> ((m & !c) >> i) & 1u32 == 0u32 && (m >> i) & 1u32 == 1u32) by (bit_vector)
            requires
                k < 32,
                c == 1u32 << k,
                c & m != 0,
                i < 32,
        ;
        assert(i != k ==> ((m & !c) >> i) & 1u32 == (m >> i) & 1u32) by (bit_vector)
            requires
                k < 32,
                c == 1u32 << k,
                i < 32,
        ;
    }
}

/// The board after the removals `ms`, applied in order.
pub open spec fn remove_all(m: BoardModel, ms: Seq<(Point, u32)>) -> BoardModel
    decreases ms.len(),
{
    if ms.len() == 0 {
        m
    } else {
        remove_all(m, ms.drop_last()).after_remove(ms.last().0, ms.last().1)
    }
}

/// `true` if each of the removals `ms` is legal on the board it is applied to.
pub open spec fn all_legal(m: BoardModel, ms: Seq<(Point, u32)>) -> bool
    decreases ms.len(),
{
    if ms.len() == 0 {
        true
    } else {
        all_legal(m, ms.drop_last()) && remove_all(m, ms.drop_last()).legal(
            ms.last().0,
            ms.last().1,
        )
    }
}

/// The records that the removals `ms` hand back, in order.
pub open spec fn records(m: BoardModel, ms: Seq<(Point, u32)>) -> Seq<UndoModel>
    decreases ms.len(),
{
    if ms.len() == 0 {
        seq![]
    } else {
        records(m, ms.drop_last()).push(
            remove_all(m, ms.drop_last()).removal_record(ms.last().0, ms.last().1),
        )
    }
}

/// The board once the records `us` have been applied, last one first.
pub open spec fn undo_all(m: BoardModel, us: Seq<UndoModel>) -> BoardModel
    decreases us.len(),
{
    if us.len() == 0 {
        m
    } else {
        undo_all(m.undone(us.last()), us.drop_last())
    }
}

/// Undo exactness: after any sequence of legal removals, applying their
/// records in the reverse order gives back the board from before, turn, wild
/// colors, removable count and grid alike; each record can be applied when
/// its turn comes.
pub proof fn lemma_undo_exact(m: BoardModel, ms: Seq<(Point, u32)>)
    requires
        m.wf(),
        all_legal(m, ms),
    ensures
        remove_all(m, ms).wf(),
        undo_all(remove_all(m, ms), records(m, ms)) == m,
    decreases ms.len(),
{
    if ms.len() > 0 {
        let q = ms.drop_last();
        lemma_undo_exact(m, q);
        let before = remove_all(m, q);
        lemma_remove_undone(before, ms.last().0, ms.last().1);
        assert(records(m, ms).drop_last() == records(m, q));
    }
}

/// Removable-count consistency: after a removal, and after undoing it, the
/// board's count of removable stones is the count found by scanning its grid.
pub proof fn lemma_removable_count(m: BoardModel, p: Point, color: u32)
    requires
        m.wf(),
        m.legal(p, color),
    ensures
        m.after_remove(p, color).removable == count_removable(m.after_remove(p, color).grid),
        m.after_remove(p, color).undone(m.removal_record(p, color)).removable == count_removable(
            m.after_remove(p, color).undone(m.removal_record(p, color)).grid,
        ),
{
    lemma_remove_undone(m, p, color);
}

/// Wild-color conservation: while the set bits of the wild-color mask number
/// the wild stones on the board, a removal keeps it so, as does its undoing,
/// provided that a wild stone is only removed while committing it to a color.
pub proof fn lemma_wild_conservation(m: BoardModel, p: Point, color: u32)
    requires
        m.wf(),
        m.legal(p, color),
        count_wild(m.grid) == popcount(m.wild_colors),
        m.tile_at(p) is Wild ==> color != 0,
    ensures
        count_wild(m.after_remove(p, color).grid) == popcount(m.after_remove(p, color).wild_colors),
        count_wild(m.after_remove(p, color).undone(m.removal_record(p, color)).grid) == popcount(
            m.after_remove(p, color).undone(m.removal_record(p, color)).wild_colors,
        ),
{
    lemma_remove_undone(m, p, color);
    let w = m.width;
    let i = idx(w, p);
    lemma_idx_bounds(w, m.height, p);
    let g1 = m.grid.update(i, empty_stone());
    lemma_cascade(g1, w, m.height, p.1);
    lemma_count_update(m.grid, wild_stone(), i, empty_stone());
    let c = m.cleared_colors(p, color);
    let wc = m.wild_colors;
    if c == 0 {
        assert(wc & !0u32 == wc) by (bit_vector);
    } else {
        let k = choose|k: u32| k < 32 && c == 1u32 << k;
        lemma_bits_below_clear(wc, c, k, 32);
    }
}

impl Board {
    /// Assemble a board on its first turn from its parts.
    pub(crate) fn from_parts(
        width: u32,
        height: u32,
        wild_colors: u32,
        color_locked: bool,
        grid: Vec<AnyStone>,
        properties: Vec<(PropertyKey, PropertyValue)>,
    ) -> (r: Board)
        requires
            width > 0,
            grid@.len() == width * height,
            grid@.len() <= u32::MAX,
            keys_unique(entries_view(properties@)),
            forall|i: int|
                0 <= i < grid@.len() && (#[trigger] grid@[i]) is Ordinary ==> is_color(
                    grid@[i]->Ordinary_0.spec_color(),
                ),
        ensures
            r@ == (BoardModel {
                turn: 0,
                wild_colors,
                color_locked,
                width: width as nat,
                height: height as nat,
                removable: count_removable(grid@),
                grid: grid@,
                properties: entries_view(properties@),
            }),
            r@.wf(),
    {
        let mut removable: u32 = 0;
        let mut i: usize = 0;
        while i < grid.len()
            invariant
                i <= grid@.len(),
                grid@.len() <= u32::MAX,
                removable == count_removable(grid@.subrange(0, i as int)),
            decreases grid@.len() - i,
        {
            proof {
                let s = grid@.subrange(0, i + 1);
                assert(s.drop_last() == grid@.subrange(0, i as int));
                lemma_count_bound(grid@.subrange(0, i as int), removable_stone());
            }
            if grid[i].is_removable() {
                removable = removable + 1;
            }
            i = i + 1;
        }
        assert(grid@.subrange(0, grid@.len() as int) == grid@);
        Board {
            turn: 0,
            wild_colors,
            color_locked,
            width,
            height,
            removable_stones: removable,
            grid,
            properties,
        }
    }

    /// Answer the current turn.
    pub fn turn(&self) -> (r: u32)
        ensures
            r == self@.turn,
    {
        self.turn
    }

    /// Answer the width of the board, in stones.
    pub fn width(&self) -> (r: u32)
        ensures
            r == self@.width,
    {
        self.width
    }

    /// Answer the height of the board, in rows.
    pub fn height(&self) -> (r: u32)
        ensures
            r == self@.height,
    {
        self.height
    }

    /// Answer the colors still available to wild stones.
    pub fn wild_colors(&self) -> (r: u32)
        ensures
            r == self@.wild_colors,
    {
        self.wild_colors
    }

    /// Answer `true` if the receiver is color locked.
    pub fn color_locked(&self) -> (r: bool)
        ensures
            r == self@.color_locked,
    {
        self.color_locked
    }

    /// Answer the entries of the board's legend.
    pub fn properties(&self) -> (r: &Vec<(PropertyKey, PropertyValue)>)
        ensures
            entries_view(r@) == self@.properties,
    {
        &self.properties
    }

    /// Answer the count of removable stones.
    pub fn removable_stones(&self) -> (r: u32)
        ensures
            r == self@.removable,
    {
        self.removable_stones
    }

    /// Remove the stone at `p`, asserting that it has the color `color` (`0`
    /// asserts none). Store the stone, as it behaved, in `s`, and answer the
    /// record that reverses the removal.
    pub fn remove(&mut self, p: Point, s: &mut AnyStone, color: u32) -> (u: Undo)
        requires
            old(self)@.wf(),
            old(self)@.legal(p, color),
        ensures
            final(self)@ == old(self)@.after_remove(p, color),
            u@ == old(self)@.removal_record(p, color),
            *final(s) == old(self)@.tile_at(p),
            final(self)@.wf(),
            final(self)@.undoable(u@),
            final(self)@.undone(u@) == old(self)@,
    {
        let index = self.index_of(p);
        let removed = self.grid[index];
        *s = removed.for_board(self);
        let cleared: u32 = match removed {
            AnyStone::Wild(_) => color,
            _ => 0,
        };
        proof {
            lemma_count_update(self@.grid, removable_stone(), index as int, empty_stone());
            lemma_remove_undone(self@, p, color);
        }
        self.grid.set(index, AnyStone::Empty(NoStone));
        self.turn = self.turn + 1;
        self.removable_stones = self.removable_stones - 1;
        self.wild_colors = self.wild_colors & !cleared;
        let survivors = self.remove_survivors(p);
        Undo { index, stone: removed, cleared, survivors }
    }

    /// Remove the stone at `p` without capturing a record and without taking
    /// a color from the wild stones, clearing survivors as `remove` does.
    /// This cannot be undone, and serves to play out a solution.
    pub fn force_remove(&mut self, p: Point)
        requires
            old(self)@.wf(),
            old(self)@.in_bounds(p),
            old(self)@.turn < u32::MAX,
        ensures
            final(self)@ == old(self)@.after_force_remove(p),
            final(self)@.wf(),
    {
        let index = self.index_of(p);
        let removable = self.grid[index].is_removable();
        proof {
            lemma_count_update(self@.grid, removable_stone(), index as int, empty_stone());
            lemma_force_remove(self@, p);
        }
        self.grid.set(index, AnyStone::Empty(NoStone));
        self.turn = self.turn + 1;
        if removable {
            self.removable_stones = self.removable_stones - 1;
        }
        let _ = self.remove_survivors(p);
    }

    /// Clear every survivor of the row of `p` if no removable stone is left
    /// in that row. Answer the points cleared.
    fn remove_survivors(&mut self, p: Point) -> (r: Vec<Point>)
        requires
            old(self)@.shaped(),
            p.1 < old(self)@.height,
        ensures
            r@ == cleared_survivors(old(self)@.grid, old(self)@.width, p.1),
            final(self)@ == (BoardModel {
                grid: put_all(old(self)@.grid, old(self)@.width, r@, empty_stone()),
                ..old(self)@
            }),
    {
        let ghost g = self@.grid;
        let ghost w = self@.width;
        let width = self.width;
        let mut clear = true;
        let mut column: u32 = 0;
        while column < width
            invariant
                self@ == old(self)@,
                g == self@.grid,
                w == width,
                width == self.width,
                self@.shaped(),
                p.1 < self@.height,
                column <= width,
                clear == forall|c: u32| c < column ==> !(#[trigger] g[idx(w, (c, p.1))]).removable(),
            decreases width - column,
        {
            let i = self.index_of((column, p.1));
            if self.grid[i].is_removable() {
                clear = false;
            }
            column = column + 1;
        }
        let mut survivors: Vec<Point> = Vec::new();
        if clear {
            let mut column: u32 = 0;
            while column < width
                invariant
                    g == old(self)@.grid,
                    w == width,
                    width == self.width,
                    self@ == (BoardModel { grid: self@.grid, ..old(self)@ }),
                    self@.shaped(),
                    g.len() == self@.grid.len(),
                    p.1 < self@.height,
                    column <= width,
                    survivors@ == survivors_in_row(g, w, p.1, column as nat),
                    forall|j: int|
                        0 <= j < survivors@.len() ==> (#[trigger] survivors@[j]).0 < column
                            && survivors@[j].1 == p.1,
                    self@.grid == put_all(g, w, survivors@, empty_stone()),
                decreases width - column,
            {
                proof {
                    lemma_idx_bounds(w, self@.height, (column, p.1));
                    lemma_survivors_in_row(g, w, p.1, column as nat);
                    assert forall|j: int| 0 <= j < survivors@.len() implies 0 <= idx(
                        w,
                        #[trigger] survivors@[j],
                    ) < g.len() by {
                        lemma_idx_bounds(w, self@.height, survivors@[j]);
                    }
                    lemma_put_all(g, w, survivors@, empty_stone());
                    assert(!hits(w, survivors@, idx(w, (column, p.1))));
                }
                let i = self.index_of((column, p.1));
                match self.grid[i] {
                    AnyStone::Survivor(_) => {
                        let ghost before = survivors@;
                        survivors.push((column, p.1));
                        self.grid.set(i, AnyStone::Empty(NoStone));
                        assert(survivors@.drop_last() == before);
                    },
                    _ => {},
                }
                column = column + 1;
            }
        }
        survivors
    }

    /// Put a survivor back at each of the points `survivors`.
    fn add_survivors(&mut self, survivors: &Vec<Point>)
        requires
            forall|j: int|
                0 <= j < survivors@.len() ==> old(self)@.in_bounds(#[trigger] survivors@[j]),
            old(self)@.shaped(),
        ensures
            final(self)@ == (BoardModel {
                grid: put_all(old(self)@.grid, old(self)@.width, survivors@, survivor_stone()),
                ..old(self)@
            }),
            final(self)@.grid.len() == old(self)@.grid.len(),
    {
        let mut k: usize = 0;
        while k < survivors.len()
            invariant
                k <= survivors@.len(),
                forall|j: int|
                    0 <= j < survivors@.len() ==> old(self)@.in_bounds(#[trigger] survivors@[j]),
                self@ == (BoardModel {
                    grid: put_all(
                        old(self)@.grid,
                        old(self)@.width,
                        survivors@.subrange(0, k as int),
                        survivor_stone(),
                    ),
                    ..old(self)@
                }),
                old(self)@.shaped(),
                self@.grid.len() == old(self)@.grid.len(),
            decreases survivors@.len() - k,
        {
            let q = survivors[k];
            proof {
                lemma_idx_bounds(self@.width, self@.height, q);
                assert forall|j: int| 0 <= j < k implies 0 <= idx(
                    self@.width,
                    #[trigger] survivors@.subrange(0, k as int)[j],
                ) < old(self)@.grid.len() by {
                    lemma_idx_bounds(self@.width, self@.height, survivors@[j]);
                }
                lemma_put_all(old(self)@.grid, old(self)@.width, survivors@.subrange(0, k as int), survivor_stone());
                assert(survivors@.subrange(0, k + 1).drop_last() == survivors@.subrange(0, k as int));
            }
            let i = self.index_of(q);
            self.grid.set(i, AnyStone::Survivor(SurvivorStone));
            k = k + 1;
        }
        assert(survivors@.subrange(0, survivors@.len() as int) == survivors@);
    }

    /// The position of `p` in the flat grid.
    fn index_of(&self, p: Point) -> (r: usize)
        requires
            self@.shaped(),
            self@.in_bounds(p),
        ensures
            r == idx(self@.width, p),
            r < self@.grid.len(),
    {
        proof {
            lemma_idx_bounds(self@.width, self@.height, p);
        }
        (p.1 as usize) * (self.width as usize) + (p.0 as usize)
    }

    /// Answer the stone at `p` as it behaves on the current turn.
    pub fn stone_at(&self, p: Point) -> (r: AnyStone)
        requires
            self@.wf(),
            self@.in_bounds(p),
        ensures
            r == self@.tile_at(p),
    {
        let i = self.index_of(p);
        self.grid[i].for_board(self)
    }
}

} // verus!
