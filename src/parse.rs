//! Reading a board from its tokens: a legend of `key = value` lines, then a
//! grid of one-character stones.

use vstd::prelude::*;
use crate::board::{
    AnyStone, Board, BoardModel, KeyView, NoStone, OrdinaryStone, PropertyKey, PropertyValue,
    Stone, SurvivorStone, ToggleStone, ValueView, WildStone, count_removable, count_wild,
    entries_view, keys_unique, is_color, popcount, bits_below, wild_stone, count_matching, lemma_count_bound,
};

verus! {

/// The errors that reading a board can meet.
#[derive(Clone, Copy, Debug, PartialEq, Eq, Structural)]
pub enum ParseError {
    /// Invalid property syntax in the legend.
    InvalidPropertySyntax,
    /// Invalid value for a well-known property, or a width of zero.
    InvalidPropertyValue,
    /// A color named twice among the wild colors.
    RepeatedWildColor,
    /// The last row of the grid is not full.
    IncompleteBoard,
    /// The number of wild stones differs from the number of wild colors.
    WrongWildCount,
    /// More than 32 colors.
    TooManyColors,
}

/// The width of a board whose legend sets none.
pub const DEFAULT_WIDTH: u32 = 5;

/// The most colors that a board can have: one per bit of a `u32`.
pub const MAX_COLORS: usize = 32;

/// `true` if `a` and `b` hold the same characters.
fn chars_eq(a: &[char], b: &[char]) -> (r: bool)
    ensures
        r == (a@ == b@),
{
    if a.len() != b.len() {
        return false;
    }
    let mut i: usize = 0;
    while i < a.len()
        invariant
            a@.len() == b@.len(),
            i <= a@.len(),
            forall|j: int| 0 <= j < i ==> a@[j] == b@[j],
        decreases a@.len() - i,
    {
        if a[i] != b[i] {
            return false;
        }
        i = i + 1;
    }
    assert(a@ == b@);
    true
}

/// A copy of the characters of `a`.
fn copy_chars(a: &Vec<char>) -> (r: Vec<char>)
    ensures
        r@ == a@,
{
    let mut r: Vec<char> = Vec::new();
    let mut i: usize = 0;
    while i < a.len()
        invariant
            i <= a@.len(),
            r@ == a@.subrange(0, i as int),
        decreases a@.len() - i,
    {
        r.push(a[i]);
        i = i + 1;
    }
    assert(a@.subrange(0, a@.len() as int) == a@);
    r
}

pub open spec fn is_digit(c: char) -> bool {
    '0' <= c <= '9'
}

/// The number that the decimal digits `s` spell.
pub open spec fn digits_value(s: Seq<char>) -> int
    decreases s.len(),
{
    if s.len() == 0 {
        0
    } else {
        digits_value(s.drop_last()) * 10 + (s.last() as int - '0' as int)
    }
}

/// `s` without its leading `+`, if it has one.
pub open spec fn unsigned_digits(s: Seq<char>) -> Seq<char> {
    if s.len() > 0 && s[0] == '+' {
        s.drop_first()
    } else {
        s
    }
}

/// `true` if `d` is a nonempty run of decimal digits.
pub open spec fn all_digits(d: Seq<char>) -> bool {
    d.len() > 0 && forall|i: int| 0 <= i < d.len() ==> is_digit(#[trigger] d[i])
}

/// The `u32` that `s` spells in decimal, after an optional `+`, if any: the
/// syntax that std's `u32::from_str` accepts.
pub open spec fn u32_of(s: Seq<char>) -> Option<u32> {
    let d = unsigned_digits(s);
    if all_digits(d) && digits_value(d) <= u32::MAX {
        Some(digits_value(d) as u32)
    } else {
        None
    }
}

/// The `bool` that `s` spells, if any.
pub open spec fn bool_of(s: Seq<char>) -> Option<bool> {
    if s == seq!['t', 'r', 'u', 'e'] {
        Some(true)
    } else if s == seq!['f', 'a', 'l', 's', 'e'] {
        Some(false)
    } else {
        None
    }
}

proof fn lemma_digits_value_nonneg(s: Seq<char>)
    requires
        forall|i: int| 0 <= i < s.len() ==> is_digit(#[trigger] s[i]),
    ensures
        digits_value(s) >= 0,
    decreases s.len(),
{
    if s.len() > 0 {
        lemma_digits_value_nonneg(s.drop_last());
    }
}

/// Read a `u32` written in decimal, after an optional `+`.
pub fn parse_u32(s: &[char]) -> (r: Option<u32>)
    ensures
        r == u32_of(s@),
{
    let start: usize = if s.len() > 0 && s[0] == '+' {
        1
    } else {
        0
    };
    let ghost d = unsigned_digits(s@);
    assert(d == s@.subrange(start as int, s@.len() as int));
    if start == s.len() {
        return None;
    }
    let mut value: u64 = 0;
    let mut overflow = false;
    let mut i: usize = start;
    while i < s.len()
        invariant
            start <= i <= s@.len(),
            d == unsigned_digits(s@),
            d == s@.subrange(start as int, s@.len() as int),
            forall|j: int| start <= j < i ==> is_digit(#[trigger] s@[j]),
            !overflow ==> value == digits_value(s@.subrange(start as int, i as int)),
            !overflow ==> value <= u32::MAX,
            overflow ==> digits_value(s@.subrange(start as int, i as int)) > u32::MAX,
        decreases s@.len() - i,
    {
        let c = s[i];
        if !('0' <= c && c <= '9') {
            let ghost k = i - start;
            assert(!is_digit(d[k as int]));
            assert(!all_digits(d));
            return None;
        }
        let ghost prefix = s@.subrange(start as int, i as int);
        assert(s@.subrange(start as int, i + 1).drop_last() == prefix);
        proof {
            lemma_digits_value_nonneg(prefix);
        }
        if !overflow {
            let next = value * 10 + (c as u64 - '0' as u64);
            if next > u32::MAX as u64 {
                overflow = true;
            } else {
                value = next;
            }
        }
        i = i + 1;
    }
    assert(s@.subrange(start as int, s@.len() as int) == d);
    if overflow {
        None
    } else {
        Some(value as u32)
    }
}

/// Read `true` or `false`.
pub fn parse_bool(s: &[char]) -> (r: Option<bool>)
    ensures
        r == bool_of(s@),
{
    let t = ['t', 'r', 'u', 'e'];
    let f = ['f', 'a', 'l', 's', 'e'];
    assert(t@ == seq!['t', 'r', 'u', 'e']);
    assert(f@ == seq!['f', 'a', 'l', 's', 'e']);
    if chars_eq(s, t.as_slice()) {
        Some(true)
    } else if chars_eq(s, f.as_slice()) {
        Some(false)
    } else {
        None
    }
}


/// What the legend reader expects next.
#[derive(Clone, Copy, Debug, PartialEq, Eq, Structural)]
pub enum LegendParseState {
    /// A property key, a linefeed, or the end of the legend.
    ExpectKeyOrLinefeedOrEnd,
    /// An equals sign.
    ExpectEquals,
    /// A property value.
    ExpectValue,
    /// A linefeed.
    ExpectLinefeed,
}

/// The state of the legend reader: what it expects, the key read last, the
/// entries so far, and the colors named so far, the `k`-th of which is the
/// color `1 << k`.
pub struct LegendModel {
    pub state: LegendParseState,
    pub key: KeyView,
    pub entries: Seq<(KeyView, ValueView)>,
    pub colors: Seq<char>,
}

/// The position of the first entry of `es` with the key `k`, or the length
/// of `es` if there is none.
pub open spec fn first_key(es: Seq<(KeyView, ValueView)>, k: KeyView) -> int
    decreases es.len(),
{
    if es.len() == 0 {
        0
    } else if es[0].0 == k {
        0
    } else {
        1 + first_key(es.drop_first(), k)
    }
}

/// The position of the first `c` in `cs`, or the length of `cs` if there is
/// none.
pub open spec fn first_char(cs: Seq<char>, c: char) -> int
    decreases cs.len(),
{
    if cs.len() == 0 {
        0
    } else if cs[0] == c {
        0
    } else {
        1 + first_char(cs.drop_first(), c)
    }
}

/// `es` with the value of `k` set to `v`: the entry of `k` replaced, or a new
/// entry added at the end.
pub open spec fn insert_entry(es: Seq<(KeyView, ValueView)>, k: KeyView, v: ValueView) -> Seq<
    (KeyView, ValueView),
> {
    let i = first_key(es, k);
    if i < es.len() {
        es.update(i, (k, v))
    } else {
        es.push((k, v))
    }
}

/// The value of `k` in `es`, if any.
pub open spec fn lookup(es: Seq<(KeyView, ValueView)>, k: KeyView) -> Option<ValueView> {
    let i = first_key(es, k);
    if i < es.len() {
        Some(es[i].1)
    } else {
        None
    }
}

/// The key that the token `tok` names.
pub open spec fn key_of(tok: Seq<char>) -> KeyView {
    if tok == seq!['w', 'i', 'd', 't', 'h'] {
        KeyView::Width
    } else if tok == seq!['w', 'i', 'l', 'd'] {
        KeyView::Wild
    } else if tok == seq!['c', 'o', 'l', 'o', 'r', 'l', 'o', 'c', 'k'] {
        KeyView::ColorLock
    } else if tok.len() == 1 {
        KeyView::Display(tok[0])
    } else {
        KeyView::Unknown(tok)
    }
}

/// The colors `cs` with each character of `tok` added as a new color, in
/// order; a character already named is an error, as is a 33rd color.
pub open spec fn add_colors(cs: Seq<char>, tok: Seq<char>) -> Result<Seq<char>, ParseError>
    decreases tok.len(),
{
    if tok.len() == 0 {
        Ok(cs)
    } else {
        match add_colors(cs, tok.drop_last()) {
            Err(e) => Err(e),
            Ok(cs2) => if first_char(cs2, tok.last()) < cs2.len() {
                Err(ParseError::RepeatedWildColor)
            } else if cs2.len() >= 32 {
                Err(ParseError::TooManyColors)
            } else {
                Ok(cs2.push(tok.last()))
            },
        }
    }
}

/// The mask of the first `n` colors.
pub open spec fn low_mask(n: nat) -> u32 {
    if n >= 32 {
        0xffff_ffffu32
    } else {
        ((1u32 << (n as u32)) - 1) as u32
    }
}

/// The legend reader after reading `tok` as the value of its key.
pub open spec fn value_step(st: LegendModel, tok: Seq<char>) -> Result<LegendModel, ParseError> {
    let done = |es: Seq<(KeyView, ValueView)>, cs: Seq<char>|
        LegendModel {
            state: LegendParseState::ExpectLinefeed,
            key: st.key,
            entries: es,
            colors: cs,
        };
    match st.key {
        KeyView::Width => match u32_of(tok) {
            Some(n) => Ok(done(insert_entry(st.entries, st.key, ValueView::U32(n)), st.colors)),
            None => Err(ParseError::InvalidPropertyValue),
        },
        KeyView::Wild => match add_colors(st.colors, tok) {
            Ok(cs) => Ok(
                done(insert_entry(st.entries, st.key, ValueView::U32(low_mask(cs.len()))), cs),
            ),
            Err(e) => Err(e),
        },
        KeyView::ColorLock => match bool_of(tok) {
            Some(b) => Ok(done(insert_entry(st.entries, st.key, ValueView::Bool(b)), st.colors)),
            None => Err(ParseError::InvalidPropertyValue),
        },
        _ => Ok(done(insert_entry(st.entries, st.key, ValueView::Text(tok)), st.colors)),
    }
}

/// The legend reader after reading the token `tok`.
pub open spec fn legend_step(st: LegendModel, tok: Seq<char>) -> Result<LegendModel, ParseError> {
    let equals = seq!['='];
    let linefeed = seq!['\n'];
    match st.state {
        LegendParseState::ExpectKeyOrLinefeedOrEnd => if tok == equals {
            Err(ParseError::InvalidPropertySyntax)
        } else if tok == linefeed {
            Ok(st)
        } else {
            Ok(LegendModel { state: LegendParseState::ExpectEquals, key: key_of(tok), ..st })
        },
        LegendParseState::ExpectEquals => if tok == equals {
            Ok(LegendModel { state: LegendParseState::ExpectValue, ..st })
        } else {
            Err(ParseError::InvalidPropertySyntax)
        },
        LegendParseState::ExpectValue => value_step(st, tok),
        LegendParseState::ExpectLinefeed => if tok == linefeed {
            Ok(LegendModel { state: LegendParseState::ExpectKeyOrLinefeedOrEnd, ..st })
        } else {
            Err(ParseError::InvalidPropertySyntax)
        },
    }
}

/// The legend reader before any token: the width is preset.
pub open spec fn legend_start() -> LegendModel {
    LegendModel {
        state: LegendParseState::ExpectKeyOrLinefeedOrEnd,
        key: KeyView::Width,
        entries: seq![(KeyView::Width, ValueView::U32(DEFAULT_WIDTH))],
        colors: seq![],
    }
}

/// The legend reader after the tokens `toks`, or the first error.
pub open spec fn legend_run(toks: Seq<Seq<char>>) -> Result<LegendModel, ParseError>
    decreases toks.len(),
{
    if toks.len() == 0 {
        Ok(legend_start())
    } else {
        match legend_run(toks.drop_last()) {
            Err(e) => Err(e),
            Ok(st) => legend_step(st, toks.last()),
        }
    }
}

/// The legend that the tokens `toks` spell, which must end where a key could
/// start.
pub open spec fn legend_of(toks: Seq<Seq<char>>) -> Result<LegendModel, ParseError> {
    match legend_run(toks) {
        Err(e) => Err(e),
        Ok(st) => if st.state == LegendParseState::ExpectKeyOrLinefeedOrEnd {
            Ok(st)
        } else {
            Err(ParseError::InvalidPropertySyntax)
        },
    }
}

proof fn lemma_first_key(es: Seq<(KeyView, ValueView)>, k: KeyView, i: int)
    requires
        0 <= i <= es.len(),
        forall|j: int| 0 <= j < i ==> (#[trigger] es[j]).0 != k,
        i == es.len() || es[i].0 == k,
    ensures
        first_key(es, k) == i,
    decreases i,
{
    if i > 0 {
        lemma_first_key(es.drop_first(), k, i - 1);
        assert(es[0] == es[0]);
    }
}

proof fn lemma_first_key_found(es: Seq<(KeyView, ValueView)>, k: KeyView)
    ensures
        0 <= first_key(es, k) <= es.len(),
        first_key(es, k) < es.len() ==> es[first_key(es, k)].0 == k,
        first_key(es, k) == es.len() ==> forall|j: int| 0 <= j < es.len() ==> (#[trigger] es[j]).0 != k,
    decreases es.len(),
{
    if es.len() > 0 && es[0].0 != k {
        lemma_first_key_found(es.drop_first(), k);
        assert forall|j: int| 0 <= j < es.len() && first_key(es, k) == es.len() implies (#[trigger] es[j]).0 != k by {
            if j > 0 {
                assert(es[j] == es.drop_first()[j - 1]);
            }
        }
    }
}

/// Setting the value of a key keeps the keys unique.
proof fn lemma_insert_unique(es: Seq<(KeyView, ValueView)>, k: KeyView, v: ValueView)
    requires
        keys_unique(es),
    ensures
        keys_unique(insert_entry(es, k, v)),
{
    lemma_first_key_found(es, k);
    let r = insert_entry(es, k, v);
    assert forall|i: int, j: int| 0 <= i < j < r.len() implies (#[trigger] r[i]).0 != (#[trigger] r[j]).0 by {
        if i < es.len() && j < es.len() {
            assert(es[i].0 != es[j].0);
        }
    }
}

proof fn lemma_first_char(cs: Seq<char>, c: char, i: int)
    requires
        0 <= i <= cs.len(),
        forall|j: int| 0 <= j < i ==> (#[trigger] cs[j]) != c,
        i == cs.len() || cs[i] == c,
    ensures
        first_char(cs, c) == i,
    decreases i,
{
    if i > 0 {
        lemma_first_char(cs.drop_first(), c, i - 1);
        assert(cs[0] == cs[0]);
    }
}

/// Answer the position of the first `c` in `cs`, or the length of `cs`.
fn find_char(cs: &Vec<char>, c: char) -> (r: usize)
    ensures
        r == first_char(cs@, c),
        r <= cs@.len(),
{
    let mut i: usize = 0;
    while i < cs.len()
        invariant
            i <= cs@.len(),
            forall|j: int| 0 <= j < i ==> (#[trigger] cs@[j]) != c,
        decreases cs@.len() - i,
    {
        if cs[i] == c {
            proof {
                lemma_first_char(cs@, c, i as int);
            }
            return i;
        }
        i = i + 1;
    }
    proof {
        lemma_first_char(cs@, c, i as int);
    }
    i
}

/// `true` if `a` and `b` are the same key.
fn key_eq(a: &PropertyKey, b: &PropertyKey) -> (r: bool)
    ensures
        r == (a@ == b@),
{
    match (a, b) {
        (PropertyKey::Width, PropertyKey::Width) => true,
        (PropertyKey::Wild, PropertyKey::Wild) => true,
        (PropertyKey::ColorLock, PropertyKey::ColorLock) => true,
        (PropertyKey::Display(x), PropertyKey::Display(y)) => *x == *y,
        (PropertyKey::Unknown(x), PropertyKey::Unknown(y)) => chars_eq(x.as_slice(), y.as_slice()),
        _ => false,
    }
}

/// A copy of the key `k`.
fn copy_key(k: &PropertyKey) -> (r: PropertyKey)
    ensures
        r@ == k@,
{
    match k {
        PropertyKey::Width => PropertyKey::Width,
        PropertyKey::Wild => PropertyKey::Wild,
        PropertyKey::ColorLock => PropertyKey::ColorLock,
        PropertyKey::Display(c) => PropertyKey::Display(*c),
        PropertyKey::Unknown(s) => PropertyKey::Unknown(copy_chars(s)),
    }
}

/// Set the value of `k` in `es` to `v`.
fn insert_entry_exec(es: &mut Vec<(PropertyKey, PropertyValue)>, k: PropertyKey, v: PropertyValue)
    ensures
        entries_view(final(es)@) == insert_entry(entries_view(old(es)@), k@, v@),
        keys_unique(entries_view(old(es)@)) ==> keys_unique(entries_view(final(es)@)),
{
    proof {
        if keys_unique(entries_view(es@)) {
            lemma_insert_unique(entries_view(es@), k@, v@);
        }
    }
    let ghost ev = entries_view(es@);
    let mut i: usize = 0;
    while i < es.len()
        invariant
            es@ == old(es)@,
            ev == entries_view(es@),
            i <= es@.len(),
            forall|j: int| 0 <= j < i ==> (#[trigger] ev[j]).0 != k@,
        decreases es@.len() - i,
    {
        if key_eq(&es[i].0, &k) {
            proof {
                lemma_first_key(ev, k@, i as int);
            }
            let ghost x = (k@, v@);
            es.set(i, (k, v));
            assert(entries_view(es@) == ev.update(i as int, x));
            return;
        }
        i = i + 1;
    }
    proof {
        lemma_first_key(ev, k@, i as int);
    }
    let ghost x = (k@, v@);
    es.push((k, v));
    assert(entries_view(es@) == ev.push(x));
}

/// Answer the value of `k` in `es`, if any.
fn lookup_exec<'a>(es: &'a Vec<(PropertyKey, PropertyValue)>, k: &PropertyKey) -> (r: Option<
    &'a PropertyValue,
>)
    ensures
        match r {
            Some(v) => lookup(entries_view(es@), k@) == Some(v@),
            None => lookup(entries_view(es@), k@) is None,
        },
{
    let ghost ev = entries_view(es@);
    let mut i: usize = 0;
    while i < es.len()
        invariant
            ev == entries_view(es@),
            i <= es@.len(),
            forall|j: int| 0 <= j < i ==> (#[trigger] ev[j]).0 != k@,
        decreases es@.len() - i,
    {
        if key_eq(&es[i].0, k) {
            proof {
                lemma_first_key(ev, k@, i as int);
            }
            return Some(&es[i].1);
        }
        i = i + 1;
    }
    proof {
        lemma_first_key(ev, k@, i as int);
    }
    None
}

/// Answer the key that the token `tok` names.
fn key_of_exec(tok: &Vec<char>) -> (r: PropertyKey)
    ensures
        r@ == key_of(tok@),
{
    let width = ['w', 'i', 'd', 't', 'h'];
    let wild = ['w', 'i', 'l', 'd'];
    let colorlock = ['c', 'o', 'l', 'o', 'r', 'l', 'o', 'c', 'k'];
    assert(width@ == seq!['w', 'i', 'd', 't', 'h']);
    assert(wild@ == seq!['w', 'i', 'l', 'd']);
    assert(colorlock@ == seq!['c', 'o', 'l', 'o', 'r', 'l', 'o', 'c', 'k']);
    if chars_eq(tok.as_slice(), width.as_slice()) {
        PropertyKey::Width
    } else if chars_eq(tok.as_slice(), wild.as_slice()) {
        PropertyKey::Wild
    } else if chars_eq(tok.as_slice(), colorlock.as_slice()) {
        PropertyKey::ColorLock
    } else if tok.len() == 1 {
        PropertyKey::Display(tok[0])
    } else {
        PropertyKey::Unknown(copy_chars(tok))
    }
}


/// `true` if a line holding only `---` starts at position `i` of `s`, right
/// after a linefeed: `s` holds `"\n---\n"` there.
pub open spec fn separator_at(s: Seq<char>, i: int) -> bool {
    &&& 0 <= i
    &&& i + 5 <= s.len()
    &&& s[i] == '\n'
    &&& s[i + 1] == '-'
    &&& s[i + 2] == '-'
    &&& s[i + 3] == '-'
    &&& s[i + 4] == '\n'
}

/// The position of the first separator of `s` at `i` or later, if any.
pub open spec fn first_separator(s: Seq<char>, i: nat) -> Option<nat>
    decreases s.len() - i,
{
    if i + 5 > s.len() {
        None
    } else if separator_at(s, i as int) {
        Some(i)
    } else {
        first_separator(s, i + 1)
    }
}

/// The legend and the grid of a board's text: the text up to the first
/// separator, its opening linefeed included, and the text after it; with no
/// separator, no legend and the whole text as the grid.
pub open spec fn split_spec(s: Seq<char>) -> (Seq<char>, Seq<char>) {
    match first_separator(s, 0) {
        Some(i) => (s.subrange(0, (i + 1) as int), s.subrange((i + 5) as int, s.len() as int)),
        None => (seq![], s),
    }
}

/// A copy of the characters of `v` from position `a` up to `b`.
fn copy_range(v: &Vec<char>, a: usize, b: usize) -> (r: Vec<char>)
    requires
        a <= b <= v@.len(),
    ensures
        r@ == v@.subrange(a as int, b as int),
{
    let mut r: Vec<char> = Vec::new();
    let mut i: usize = a;
    while i < b
        invariant
            a <= i <= b <= v@.len(),
            r@ == v@.subrange(a as int, i as int),
        decreases b - i,
    {
        r.push(v[i]);
        i = i + 1;
    }
    r
}

/// Split the text of a board into its legend and its grid at the first line
/// that holds only `---`.
pub fn split_board_text(text: &Vec<char>) -> (r: (Vec<char>, Vec<char>))
    ensures
        (r.0@, r.1@) == split_spec(text@),
{
    let n = text.len();
    let mut i: usize = 0;
    while i <= n && n - i >= 5
        invariant
            n == text@.len(),
            i <= n,
            first_separator(text@, 0) == first_separator(text@, i as nat),
        decreases n - i,
    {
        if text[i] == '\n' && text[i + 1] == '-' && text[i + 2] == '-' && text[i + 3] == '-'
            && text[i + 4] == '\n' {
            return (copy_range(text, 0, i + 1), copy_range(text, i + 5, n));
        }
        i = i + 1;
    }
    assert(text@.subrange(0, n as int) == text@);
    (Vec::new(), copy_range(text, 0, n))
}

/// The stone that the grid character `c` stands for, with the colors `cs`
/// extended by `c` if it is an ordinary stone of a new color.
pub open spec fn stone_of(cs: Seq<char>, c: char) -> Result<(AnyStone, Seq<char>), ParseError> {
    if c == '_' {
        Ok((AnyStone::Empty(NoStone), cs))
    } else if c == '#' {
        Ok((AnyStone::Survivor(SurvivorStone), cs))
    } else if c == '*' {
        Ok((AnyStone::Wild(WildStone), cs))
    } else if c == '/' {
        Ok((AnyStone::Toggle(ToggleStone { phase: 0 }), cs))
    } else if c == '+' {
        Ok((AnyStone::Toggle(ToggleStone { phase: 1 }), cs))
    } else if first_char(cs, c) < cs.len() {
        Ok(
            (
                AnyStone::Ordinary(OrdinaryStone { rep: c, color: 1u32 << (first_char(cs, c) as u32) }),
                cs,
            ),
        )
    } else if cs.len() >= 32 {
        Err(ParseError::TooManyColors)
    } else {
        Ok(
            (
                AnyStone::Ordinary(OrdinaryStone { rep: c, color: 1u32 << (cs.len() as u32) }),
                cs.push(c),
            ),
        )
    }
}

/// The stones that the grid characters `toks` stand for, and the colors
/// named once they are read, or the first error.
pub open spec fn grid_run(cs: Seq<char>, toks: Seq<char>) -> Result<
    (Seq<AnyStone>, Seq<char>),
    ParseError,
>
    decreases toks.len(),
{
    if toks.len() == 0 {
        Ok((seq![], cs))
    } else {
        match grid_run(cs, toks.drop_last()) {
            Err(e) => Err(e),
            Ok((g, cs2)) => match stone_of(cs2, toks.last()) {
                Err(e) => Err(e),
                Ok((t, cs3)) => Ok((g.push(t), cs3)),
            },
        }
    }
}

/// The tokens `ts` as character sequences.
pub open spec fn tokens_view(ts: Seq<Vec<char>>) -> Seq<Seq<char>> {
    ts.map_values(|t: Vec<char>| t@)
}

/// The board that a legend of tokens `legend` and a grid of characters
/// `grid` describe, or the first error. The grid's length must be a multiple
/// of the width, and the wild stones as many as the wild colors.
pub open spec fn parse_spec(legend: Seq<Seq<char>>, grid: Seq<char>) -> Result<BoardModel, ParseError> {
    match legend_of(legend) {
        Err(e) => Err(e),
        Ok(st) => match grid_run(st.colors, grid) {
            Err(e) => Err(e),
            Ok((g, _)) => {
                let width: u32 = match lookup(st.entries, KeyView::Width) {
                    Some(ValueView::U32(w)) => w,
                    _ => DEFAULT_WIDTH,
                };
                let wild: u32 = match lookup(st.entries, KeyView::Wild) {
                    Some(ValueView::U32(m)) => m,
                    _ => 0,
                };
                let locked: bool = match lookup(st.entries, KeyView::ColorLock) {
                    Some(ValueView::Bool(b)) => b,
                    _ => false,
                };
                if width == 0 {
                    Err(ParseError::InvalidPropertyValue)
                } else if g.len() % (width as nat) != 0 {
                    Err(ParseError::IncompleteBoard)
                } else if popcount(wild) != count_wild(g) {
                    Err(ParseError::WrongWildCount)
                } else {
                    Ok(
                        BoardModel {
                            turn: 0,
                            wild_colors: wild,
                            color_locked: locked,
                            width: width as nat,
                            height: g.len() / (width as nat),
                            removable: count_removable(g),
                            grid: g,
                            properties: st.entries,
                        },
                    )
                }
            },
        },
    }
}

proof fn lemma_add_colors_err(cs: Seq<char>, tok: Seq<char>, n: int)
    requires
        0 <= n <= tok.len(),
        add_colors(cs, tok.subrange(0, n)) is Err,
    ensures
        add_colors(cs, tok) == add_colors(cs, tok.subrange(0, n)),
    decreases tok.len(),
{
    if tok.len() == n {
        assert(tok.subrange(0, n) == tok);
    } else {
        assert(tok.drop_last().subrange(0, n) == tok.subrange(0, n));
        lemma_add_colors_err(cs, tok.drop_last(), n);
    }
}

proof fn lemma_legend_run_err(toks: Seq<Seq<char>>, n: int)
    requires
        0 <= n <= toks.len(),
        legend_run(toks.subrange(0, n)) is Err,
    ensures
        legend_run(toks) == legend_run(toks.subrange(0, n)),
    decreases toks.len(),
{
    if toks.len() == n {
        assert(toks.subrange(0, n) == toks);
    } else {
        assert(toks.drop_last().subrange(0, n) == toks.subrange(0, n));
        lemma_legend_run_err(toks.drop_last(), n);
    }
}

proof fn lemma_grid_run_err(cs: Seq<char>, toks: Seq<char>, n: int)
    requires
        0 <= n <= toks.len(),
        grid_run(cs, toks.subrange(0, n)) is Err,
    ensures
        grid_run(cs, toks) == grid_run(cs, toks.subrange(0, n)),
    decreases toks.len(),
{
    if toks.len() == n {
        assert(toks.subrange(0, n) == toks);
    } else {
        assert(toks.drop_last().subrange(0, n) == toks.subrange(0, n));
        lemma_grid_run_err(cs, toks.drop_last(), n);
    }
}

/// Answer the mask of the first `n` colors.
fn low_mask_exec(n: usize) -> (r: u32)
    requires
        n <= 32,
    ensures
        r == low_mask(n as nat),
{
    if n >= 32 {
        0xffff_ffff
    } else {
        let k = n as u32;
        assert(1u32 << k >= 1) by (bit_vector)
            requires
                k < 32,
        ;
        (1u32 << k) - 1
    }
}

/// Add each character of `tok` to `colors` as a new color.
fn add_colors_exec(colors: &mut Vec<char>, tok: &Vec<char>) -> (r: Result<(), ParseError>)
    requires
        old(colors)@.len() <= 32,
    ensures
        final(colors)@.len() <= 32,
        match r {
            Ok(_) => add_colors(old(colors)@, tok@) == Ok::<Seq<char>, ParseError>(final(colors)@),
            Err(e) => add_colors(old(colors)@, tok@) == Err::<Seq<char>, ParseError>(e),
        },
{
    let mut i: usize = 0;
    while i < tok.len()
        invariant
            i <= tok@.len(),
            colors@.len() <= 32,
            add_colors(old(colors)@, tok@.subrange(0, i as int)) == Ok::<Seq<char>, ParseError>(
                colors@,
            ),
        decreases tok@.len() - i,
    {
        let c = tok[i];
        assert(tok@.subrange(0, i + 1).drop_last() == tok@.subrange(0, i as int));
        if find_char(colors, c) < colors.len() {
            proof {
                lemma_add_colors_err(old(colors)@, tok@, i + 1);
            }
            return Err(ParseError::RepeatedWildColor);
        }
        if colors.len() >= MAX_COLORS {
            proof {
                lemma_add_colors_err(old(colors)@, tok@, i + 1);
            }
            return Err(ParseError::TooManyColors);
        }
        colors.push(c);
        i = i + 1;
    }
    assert(tok@.subrange(0, tok@.len() as int) == tok@);
    Ok(())
}

/// `true` if `tok` is the single character `c`.
fn token_is(tok: &Vec<char>, c: char) -> (r: bool)
    ensures
        r == (tok@ == seq![c]),
{
    let r = tok.len() == 1 && tok[0] == c;
    if r {
        assert(tok@ == seq![c]);
    }
    r
}

/// Read the legend from its tokens. Answer its entries and the colors that
/// it names.
pub fn parse_legend(tokens: &Vec<Vec<char>>) -> (r: Result<
    (Vec<(PropertyKey, PropertyValue)>, Vec<char>),
    ParseError,
>)
    ensures
        match r {
            Ok((es, cs)) => legend_of(tokens_view(tokens@)) matches Ok(st) && st.entries
                == entries_view(es@) && st.colors == cs@ && cs@.len() <= 32 && keys_unique(st.entries),
            Err(e) => legend_of(tokens_view(tokens@)) == Err::<LegendModel, ParseError>(e),
        },
{
    let ghost tv = tokens_view(tokens@);
    let mut state = LegendParseState::ExpectKeyOrLinefeedOrEnd;
    let mut key = PropertyKey::Width;
    let mut entries: Vec<(PropertyKey, PropertyValue)> = Vec::new();
    entries.push((PropertyKey::Width, PropertyValue::U32(DEFAULT_WIDTH)));
    let mut colors: Vec<char> = Vec::new();
    assert(entries_view(entries@) == seq![(KeyView::Width, ValueView::U32(DEFAULT_WIDTH))]);
    let mut i: usize = 0;
    while i < tokens.len()
        invariant
            tv == tokens_view(tokens@),
            i <= tokens@.len(),
            colors@.len() <= 32,
            keys_unique(entries_view(entries@)),
            legend_run(tv.subrange(0, i as int)) == Ok::<LegendModel, ParseError>(
                LegendModel { state, key: key@, entries: entries_view(entries@), colors: colors@ },
            ),
        decreases tokens@.len() - i,
    {
        let tok = &tokens[i];
        assert(tv.subrange(0, i + 1).drop_last() == tv.subrange(0, i as int));
        assert(tv.subrange(0, i + 1).last() == tok@);
        let ghost st = LegendModel {
            state,
            key: key@,
            entries: entries_view(entries@),
            colors: colors@,
        };
        match state {
            LegendParseState::ExpectKeyOrLinefeedOrEnd => {
                if token_is(tok, '=') {
                    proof {
                        lemma_legend_run_err(tv, i + 1);
                    }
                    return Err(ParseError::InvalidPropertySyntax);
                } else if !token_is(tok, '\n') {
                    key = key_of_exec(tok);
                    state = LegendParseState::ExpectEquals;
                }
            },
            LegendParseState::ExpectEquals => {
                if token_is(tok, '=') {
                    state = LegendParseState::ExpectValue;
                } else {
                    proof {
                        lemma_legend_run_err(tv, i + 1);
                    }
                    return Err(ParseError::InvalidPropertySyntax);
                }
            },
            LegendParseState::ExpectValue => {
                match &key {
                    PropertyKey::Width => {
                        match parse_u32(tok.as_slice()) {
                            Some(n) => insert_entry_exec(
                                &mut entries,
                                PropertyKey::Width,
                                PropertyValue::U32(n),
                            ),
                            None => {
                                proof {
                                    lemma_legend_run_err(tv, i + 1);
                                }
                                return Err(ParseError::InvalidPropertyValue);
                            },
                        }
                    },
                    PropertyKey::Wild => {
                        match add_colors_exec(&mut colors, tok) {
                            Ok(_) => {
                                let mask = low_mask_exec(colors.len());
                                insert_entry_exec(
                                    &mut entries,
                                    PropertyKey::Wild,
                                    PropertyValue::U32(mask),
                                );
                            },
                            Err(e) => {
                                proof {
                                    lemma_legend_run_err(tv, i + 1);
                                }
                                return Err(e);
                            },
                        }
                    },
                    PropertyKey::ColorLock => {
                        match parse_bool(tok.as_slice()) {
                            Some(b) => insert_entry_exec(
                                &mut entries,
                                PropertyKey::ColorLock,
                                PropertyValue::Bool(b),
                            ),
                            None => {
                                proof {
                                    lemma_legend_run_err(tv, i + 1);
                                }
                                return Err(ParseError::InvalidPropertyValue);
                            },
                        }
                    },
                    _ => {
                        let k = copy_key(&key);
                        insert_entry_exec(&mut entries, k, PropertyValue::Text(copy_chars(tok)));
                    },
                }
                state = LegendParseState::ExpectLinefeed;
            },
            LegendParseState::ExpectLinefeed => {
                if token_is(tok, '\n') {
                    state = LegendParseState::ExpectKeyOrLinefeedOrEnd;
                } else {
                    proof {
                        lemma_legend_run_err(tv, i + 1);
                    }
                    return Err(ParseError::InvalidPropertySyntax);
                }
            },
        }
        i = i + 1;
    }
    assert(tv.subrange(0, tokens@.len() as int) == tv);
    if state == LegendParseState::ExpectKeyOrLinefeedOrEnd {
        Ok((entries, colors))
    } else {
        Err(ParseError::InvalidPropertySyntax)
    }
}

/// Read the grid from its characters, one per stone, row after row, with
/// the colors `colors` already named. Answer the stones.
pub fn parse_grid(grid: &Vec<char>, colors: &mut Vec<char>) -> (r: Result<Vec<AnyStone>, ParseError>)
    requires
        old(colors)@.len() <= 32,
    ensures
        match r {
            Ok(g) => grid_run(old(colors)@, grid@) == Ok::<(Seq<AnyStone>, Seq<char>), ParseError>(
                (g@, final(colors)@),
            ) && g@.len() == grid@.len() && forall|i: int|
                0 <= i < g@.len() && (#[trigger] g@[i]) is Ordinary ==> is_color(
                    g@[i]->Ordinary_0.spec_color(),
                ),
            Err(e) => grid_run(old(colors)@, grid@) == Err::<(Seq<AnyStone>, Seq<char>), ParseError>(e),
        },
{
    let mut stones: Vec<AnyStone> = Vec::new();
    let mut i: usize = 0;
    while i < grid.len()
        invariant
            i <= grid@.len(),
            stones@.len() == i,
            colors@.len() <= 32,
            grid_run(old(colors)@, grid@.subrange(0, i as int)) == Ok::<
                (Seq<AnyStone>, Seq<char>),
                ParseError,
            >((stones@, colors@)),
            forall|j: int|
                0 <= j < stones@.len() && (#[trigger] stones@[j]) is Ordinary ==> is_color(
                    stones@[j]->Ordinary_0.spec_color(),
                ),
        decreases grid@.len() - i,
    {
        let c = grid[i];
        assert(grid@.subrange(0, i + 1).drop_last() == grid@.subrange(0, i as int));
        let stone = if c == '_' {
            AnyStone::Empty(NoStone)
        } else if c == '#' {
            AnyStone::Survivor(SurvivorStone)
        } else if c == '*' {
            AnyStone::Wild(WildStone)
        } else if c == '/' {
            AnyStone::Toggle(ToggleStone { phase: 0 })
        } else if c == '+' {
            AnyStone::Toggle(ToggleStone { phase: 1 })
        } else {
            let k = find_char(colors, c);
            if k == colors.len() {
                if colors.len() >= MAX_COLORS {
                    proof {
                        lemma_grid_run_err(old(colors)@, grid@, i + 1);
                    }
                    return Err(ParseError::TooManyColors);
                }
                colors.push(c);
            }
            let b = k as u32;
            let color = 1u32 << b;
            assert(is_color(color)) by {
                assert(b < 32 && color == 1u32 << b);
            }
            AnyStone::Ordinary(OrdinaryStone { rep: c, color })
        };
        stones.push(stone);
        i = i + 1;
    }
    assert(grid@.subrange(0, grid@.len() as int) == grid@);
    Ok(stones)
}

/// Answer the number of set bits of `m`.
fn count_ones(m: u32) -> (r: u32)
    ensures
        r == popcount(m),
{
    let mut n: u32 = 0;
    let mut i: u32 = 0;
    while i < 32
        invariant
            i <= 32,
            n == bits_below(m, i as nat),
            n <= i,
        decreases 32 - i,
    {
        let bit = (m >> i) & 1;
        assert(bit <= 1) by (bit_vector)
            requires
                bit == (m >> i) & 1,
        ;
        n = n + bit;
        i = i + 1;
    }
    n
}

/// Answer the number of wild stones in `g`.
fn count_wild_exec(g: &Vec<AnyStone>) -> (r: usize)
    ensures
        r == count_wild(g@),
{
    let mut n: usize = 0;
    let mut i: usize = 0;
    while i < g.len()
        invariant
            i <= g@.len(),
            n == count_matching(g@.subrange(0, i as int), wild_stone()),
        decreases g@.len() - i,
    {
        proof {
            assert(g@.subrange(0, i + 1).drop_last() == g@.subrange(0, i as int));
            lemma_count_bound(g@.subrange(0, i as int), wild_stone());
        }
        match g[i] {
            AnyStone::Wild(_) => {
                n = n + 1;
            },
            _ => {},
        }
        i = i + 1;
    }
    assert(g@.subrange(0, g@.len() as int) == g@);
    n
}

impl Board {
    /// Read a board from the tokens of its legend and the characters of its
    /// grid. The legend is a list of `key = value` lines, each token of which
    /// (a key, `=`, a value, or a linefeed) is one entry of `legend`; it may
    /// set the `width` (5 by default), the `wild` colors, `colorlock`, and
    /// display properties. The grid has one character per stone, row after
    /// row.
    pub fn parse(legend: &Vec<Vec<char>>, grid: &Vec<char>) -> (r: Result<Board, ParseError>)
        requires
            grid@.len() <= u32::MAX,
        ensures
            match r {
                Ok(b) => parse_spec(tokens_view(legend@), grid@) == Ok::<BoardModel, ParseError>(b@)
                    && b@.wf(),
                Err(e) => parse_spec(tokens_view(legend@), grid@) == Err::<BoardModel, ParseError>(
                    e,
                ),
            },
    {
        let (entries, mut colors) = match parse_legend(legend) {
            Ok(x) => x,
            Err(e) => {
                return Err(e);
            },
        };
        let stones = match parse_grid(grid, &mut colors) {
            Ok(g) => g,
            Err(e) => {
                return Err(e);
            },
        };
        let width: u32 = match lookup_exec(&entries, &PropertyKey::Width) {
            Some(PropertyValue::U32(w)) => *w,
            _ => DEFAULT_WIDTH,
        };
        let wild_colors: u32 = match lookup_exec(&entries, &PropertyKey::Wild) {
            Some(PropertyValue::U32(m)) => *m,
            _ => 0,
        };
        let color_locked: bool = match lookup_exec(&entries, &PropertyKey::ColorLock) {
            Some(PropertyValue::Bool(b)) => *b,
            _ => false,
        };
        if width == 0 {
            return Err(ParseError::InvalidPropertyValue);
        }
        let len = stones.len();
        if len % (width as usize) != 0 {
            return Err(ParseError::IncompleteBoard);
        }
        if count_ones(wild_colors) as usize != count_wild_exec(&stones) {
            return Err(ParseError::WrongWildCount);
        }
        let height = (len / (width as usize)) as u32;
        proof {
            vstd::arithmetic::div_mod::lemma_fundamental_div_mod(len as int, width as int);
        }
        Ok(Board::from_parts(width, height, wild_colors, color_locked, stones, entries))
    }
}

} // verus!
