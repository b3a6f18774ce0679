use std::collections::HashMap;
use vstd::prelude::*;

use super::color::{is_player_color, Color, GREEN, RED};
use crate::text::{
    char_to_digit, decimal_digit, decimal_text, digit_char, lemma_digit_roundtrip, u8_to_text,
};

verus! {

/// The number of slots, and of bullets that one slot holds.
pub const MAX_BULLETS: usize = 5;

/// The number of players of one game.
pub const MAX_PLAYERS: usize = 2;

/// How a game stands.
#[derive(Clone, Copy, PartialEq, Eq, Structural, Debug)]
pub enum GameResult {
    /// The board is full and no colour has five in a line.
    NoWinner,
    /// The game is not over.
    Unknown,
    /// A colour has five in a line.
    Winner,
}

/// The number by which a game result travels between server and player.
pub open spec fn result_code(r: GameResult) -> u8 {
    match r {
        GameResult::NoWinner => 0,
        GameResult::Unknown => 1,
        GameResult::Winner => 2,
    }
}

impl GameResult {
    pub fn from_u8(value: u8) -> (r: Option<GameResult>)
        ensures
            r is Some <==> value <= 2,
            r matches Some(g) ==> result_code(g) == value,
    {
        match value {
            0 => Some(GameResult::NoWinner),
            1 => Some(GameResult::Unknown),
            2 => Some(GameResult::Winner),
            _ => None,
        }
    }

    /// The number of the result, as it is sent to a player.
    pub fn to_u8(&self) -> (v: u8)
        ensures
            v == result_code(*self),
    {
        match self {
            GameResult::NoWinner => 0,
            GameResult::Unknown => 1,
            GameResult::Winner => 2,
        }
    }
}

/// Decoding the number of a result gives the result back.
pub proof fn lemma_result_code_roundtrip(r: GameResult)
    ensures
        result_code(r) <= 2,
        forall|g: GameResult| result_code(g) == result_code(r) ==> g == r,
{
}

/// A slot of the board, counted from the left.
pub struct Slot {
    pub index: usize,
}

// ----------------------------------------------------------------------
// The model of a board: one sequence of colour values per slot, bottom first.
// ----------------------------------------------------------------------

pub open spec fn column_values(col: Seq<Color>) -> Seq<u8> {
    col.map_values(|c: Color| c.value)
}

pub open spec fn board_values(b: Seq<Vec<Color>>) -> Seq<Seq<u8>> {
    b.map_values(|col: Vec<Color>| column_values(col@))
}

/// The bullet in slot `c` at height `r` (0 is the bottom) has colour `k`.
pub open spec fn cell(b: Seq<Seq<u8>>, c: int, r: int, k: u8) -> bool {
    0 <= c < b.len() && 0 <= r < b[c].len() && b[c][r] == k
}

/// Property `p` holds of the five positions 0 to 4 of a line.
pub open spec fn all_five(p: spec_fn(int) -> bool) -> bool {
    forall|i: int| 0 <= i < 5 ==> #[trigger] p(i)
}

pub open spec fn full_row(b: Seq<Seq<u8>>, r: int, k: u8) -> bool {
    all_five(|c: int| cell(b, c, r, k))
}

pub open spec fn full_column(b: Seq<Seq<u8>>, c: int, k: u8) -> bool {
    all_five(|r: int| cell(b, c, r, k))
}

pub open spec fn full_diagonal(b: Seq<Seq<u8>>, k: u8) -> bool {
    all_five(|i: int| cell(b, i, i, k))
}

pub open spec fn full_anti_diagonal(b: Seq<Seq<u8>>, k: u8) -> bool {
    all_five(|i: int| cell(b, i, 4 - i, k))
}

/// Colour `k` has five bullets in a line: a row, a slot or one of the two diagonals.
pub open spec fn five_in_line(b: Seq<Seq<u8>>, k: u8) -> bool {
    ||| exists|r: int| 0 <= r < 5 && #[trigger] full_row(b, r, k)
    ||| exists|c: int| 0 <= c < 5 && #[trigger] full_column(b, c, k)
    ||| full_diagonal(b, k)
    ||| full_anti_diagonal(b, k)
}

/// Every slot holds its five bullets.
pub open spec fn board_full(b: Seq<Seq<u8>>) -> bool {
    forall|c: int| 0 <= c < b.len() ==> #[trigger] b[c].len() >= MAX_BULLETS
}

/// A board as a game can leave it: five slots of at most five bullets of
/// the two player colours.
pub open spec fn valid_board(b: Seq<Seq<u8>>) -> bool {
    &&& b.len() == MAX_BULLETS
    &&& forall|c: int| 0 <= c < b.len() ==> #[trigger] b[c].len() <= MAX_BULLETS
    &&& forall|c: int, r: int|
        0 <= c < b.len() && 0 <= r < b[c].len() ==> is_player_color(#[trigger] b[c][r])
}

/// Slot `i` exists and has room for another bullet.
pub open spec fn slot_open(b: Seq<Seq<u8>>, i: usize) -> bool {
    i < MAX_BULLETS && i < b.len() && b[i as int].len() < MAX_BULLETS
}

/// The board after a bullet of colour `k` is dropped into slot `c`.
pub open spec fn dropped(b: Seq<Seq<u8>>, c: int, k: u8) -> Seq<Seq<u8>> {
    b.update(c, b[c].push(k))
}

/// A board is full exactly when no slot can take another bullet.
pub proof fn lemma_full_iff_no_open_slot(b: Seq<Seq<u8>>)
    requires
        b.len() == MAX_BULLETS,
    ensures
        board_full(b) <==> forall|i: usize| !#[trigger] slot_open(b, i),
{
    if !board_full(b) {
        let c = choose|c: int| 0 <= c < b.len() && !(#[trigger] b[c].len() >= MAX_BULLETS);
        assert(slot_open(b, c as usize));
    } else {
        assert forall|i: usize| !#[trigger] slot_open(b, i) by {
            if i < MAX_BULLETS {
                assert(b[i as int].len() >= MAX_BULLETS);
            }
        }
    }
}

/// Bullets never move: a colour that has five in a line keeps them after
/// any further drop.
pub proof fn lemma_win_is_kept(b: Seq<Seq<u8>>, c0: int, k0: u8, k: u8)
    requires
        0 <= c0 < b.len(),
        five_in_line(b, k),
    ensures
        five_in_line(dropped(b, c0, k0), k),
{
    let nb = dropped(b, c0, k0);
    lemma_drop_cells(b, c0, k0);
    if exists|r: int| 0 <= r < 5 && #[trigger] full_row(b, r, k) {
        let r = choose|r: int| 0 <= r < 5 && #[trigger] full_row(b, r, k);
        let p = |c: int| cell(b, c, r, k);
        assert forall|c: int| 0 <= c < 5 implies #[trigger] cell(nb, c, r, k) by {
            assert(p(c));
        }
        assert(full_row(nb, r, k));
    } else if exists|c: int| 0 <= c < 5 && #[trigger] full_column(b, c, k) {
        let c = choose|c: int| 0 <= c < 5 && #[trigger] full_column(b, c, k);
        let p = |r: int| cell(b, c, r, k);
        assert forall|r: int| 0 <= r < 5 implies #[trigger] cell(nb, c, r, k) by {
            assert(p(r));
        }
        assert(full_column(nb, c, k));
    } else if full_diagonal(b, k) {
        let p = |i: int| cell(b, i, i, k);
        assert forall|i: int| 0 <= i < 5 implies #[trigger] cell(nb, i, i, k) by {
            assert(p(i));
        }
        assert(full_diagonal(nb, k));
    } else {
        let p = |i: int| cell(b, i, 4 - i, k);
        assert forall|i: int| 0 <= i < 5 implies #[trigger] cell(nb, i, 4 - i, k) by {
            assert(p(i));
        }
        assert(full_anti_diagonal(nb, k));
    }
}

// ----------------------------------------------------------------------
// Bit masks: bit `i` of a line's mask says whether position `i` of the
// line holds a bullet of the colour the mask belongs to.
// ----------------------------------------------------------------------

pub open spec fn has_bit(m: u8, i: u8) -> bool {
    (m >> i) & 1u8 == 1u8
}

pub open spec fn mask_matches(m: u8, p: spec_fn(int) -> bool) -> bool {
    &&& m < 32
    &&& forall|i: u8| i < 5 ==> #[trigger] has_bit(m, i) == p(i as int)
}

proof fn lemma_full_mask_bits(m: u8)
    by (bit_vector)
    requires
        m < 32,
    ensures
        m == 31u8 <==> (has_bit(m, 0) && has_bit(m, 1) && has_bit(m, 2) && has_bit(m, 3)
            && has_bit(m, 4)),
{
}

proof fn lemma_set_bit(m: u8, i: u8, j: u8)
    by (bit_vector)
    requires
        m < 32,
        i < 5,
        j < 5,
    ensures
        (m | (1u8 << i)) < 32,
        has_bit(m | (1u8 << i), j) == (has_bit(m, j) || i == j),
{
}

proof fn lemma_zero_bit(j: u8)
    by (bit_vector)
    ensures
        !has_bit(0u8, j),
{
}

/// A mask is all ones exactly when its line is full.
proof fn lemma_full_mask(m: u8, p: spec_fn(int) -> bool)
    requires
        mask_matches(m, p),
    ensures
        (m == 31u8) == all_five(p),
{
    lemma_full_mask_bits(m);
    assert(has_bit(m, 0) == p(0));
    assert(has_bit(m, 1) == p(1));
    assert(has_bit(m, 2) == p(2));
    assert(has_bit(m, 3) == p(3));
    assert(has_bit(m, 4) == p(4));
    if p(0) && p(1) && p(2) && p(3) && p(4) {
        assert forall|i: int| 0 <= i < 5 implies #[trigger] p(i) by {
            if i == 0 {
            } else if i == 1 {
            } else if i == 2 {
            } else if i == 3 {
            } else {
            }
        }
    }
}

/// Setting bit `i` follows a line that gains position `i`.
proof fn lemma_mask_gain(m: u8, i: u8, p: spec_fn(int) -> bool, q: spec_fn(int) -> bool)
    requires
        mask_matches(m, p),
        i < 5,
        forall|j: int| 0 <= j < 5 ==> #[trigger] q(j) == (p(j) || j == i),
    ensures
        mask_matches(m | (1u8 << i), q),
{
    assert forall|j: u8| j < 5 implies #[trigger] has_bit(m | (1u8 << i), j) == q(j as int) by {
        lemma_set_bit(m, i, j);
        assert(has_bit(m, j) == p(j as int));
    }
    lemma_set_bit(m, i, 0);
}

/// A mask keeps following a line whose positions do not change.
proof fn lemma_mask_same(m: u8, p: spec_fn(int) -> bool, q: spec_fn(int) -> bool)
    requires
        mask_matches(m, p),
        forall|j: int| 0 <= j < 5 ==> #[trigger] q(j) == p(j),
    ensures
        mask_matches(m, q),
{
    assert forall|j: u8| j < 5 implies #[trigger] has_bit(m, j) == q(j as int) by {
        assert(has_bit(m, j) == p(j as int));
    }
}

/// The zero mask follows an empty line.
proof fn lemma_mask_zero(p: spec_fn(int) -> bool)
    requires
        forall|j: int| 0 <= j < 5 ==> !#[trigger] p(j),
    ensures
        mask_matches(0u8, p),
{
    assert forall|j: u8| j < 5 implies #[trigger] has_bit(0u8, j) == p(j as int) by {
        lemma_zero_bit(j);
    }
}

// ----------------------------------------------------------------------
// Scores
// ----------------------------------------------------------------------

/// The masks of one colour: one per row, one per slot and one per diagonal.
struct Score {
    rows: Vec<u8>,
    columns: Vec<u8>,
    diagonals: Vec<u8>,
}

impl Score {
    /// The masks follow the bullets of colour `k` on board `b`.
    spec fn follows(&self, b: Seq<Seq<u8>>, k: u8) -> bool {
        &&& self.rows@.len() == MAX_BULLETS
        &&& self.columns@.len() == MAX_BULLETS
        &&& self.diagonals@.len() == 2
        &&& forall|r: int|
            0 <= r < 5 ==> mask_matches(#[trigger] self.rows@[r], |c: int| cell(b, c, r, k))
        &&& forall|c: int|
            0 <= c < 5 ==> mask_matches(#[trigger] self.columns@[c], |r: int| cell(b, c, r, k))
        &&& mask_matches(self.diagonals@[0], |i: int| cell(b, i, i, k))
        &&& mask_matches(self.diagonals@[1], |i: int| cell(b, i, 4 - i, k))
    }

    /// Every mask is zero.
    pub closed spec fn is_clear(&self) -> bool {
        &&& self.rows@ == seq![0u8; 5]
        &&& self.columns@ == seq![0u8; 5]
        &&& self.diagonals@ == seq![0u8; 2]
    }

    pub fn new() -> (score: Score)
        ensures
            score.is_clear(),
    {
        let mut score = Score { rows: Vec::new(), columns: Vec::new(), diagonals: Vec::new() };
        score.rows.resize(MAX_BULLETS, 0);
        score.columns.resize(MAX_BULLETS, 0);
        score.diagonals.resize(2, 0);
        assert(score.rows@ =~= seq![0u8; 5]);
        assert(score.columns@ =~= seq![0u8; 5]);
        assert(score.diagonals@ =~= seq![0u8; 2]);
        score
    }
}

/// The zero masks follow the bullets of any colour on an empty board.
proof fn lemma_new_score_follows(s: Score, b: Seq<Seq<u8>>, k: u8)
    requires
        s.is_clear(),
        b.len() == MAX_BULLETS,
        forall|c: int| 0 <= c < b.len() ==> #[trigger] b[c].len() == 0,
    ensures
        s.follows(b, k),
{
    assert forall|r: int| 0 <= r < 5 implies mask_matches(
        #[trigger] s.rows@[r],
        |c: int| cell(b, c, r, k),
    ) by {
        lemma_mask_zero(|c: int| cell(b, c, r, k));
    }
    assert forall|c: int| 0 <= c < 5 implies mask_matches(
        #[trigger] s.columns@[c],
        |r: int| cell(b, c, r, k),
    ) by {
        lemma_mask_zero(|r: int| cell(b, c, r, k));
    }
    lemma_mask_zero(|i: int| cell(b, i, i, k));
    lemma_mask_zero(|i: int| cell(b, i, 4 - i, k));
}

/// A drop adds exactly one bullet: the one on top of slot `c0`.
proof fn lemma_drop_cells(b: Seq<Seq<u8>>, c0: int, k0: u8)
    requires
        0 <= c0 < b.len(),
    ensures
        forall|c: int, r: int, k: u8|
            #[trigger] cell(dropped(b, c0, k0), c, r, k) == (cell(b, c, r, k) || (c == c0 && r
                == b[c0].len() && k == k0)),
{
}

/// After a drop of colour `k0` into slot `c0`, the masks of another colour
/// still follow the board.
proof fn lemma_follows_other(s: Score, b: Seq<Seq<u8>>, c0: int, k0: u8, k: u8)
    requires
        s.follows(b, k),
        0 <= c0 < b.len(),
        k != k0,
    ensures
        s.follows(dropped(b, c0, k0), k),
{
    let nb = dropped(b, c0, k0);
    lemma_drop_cells(b, c0, k0);
    assert forall|r: int| 0 <= r < 5 implies mask_matches(
        #[trigger] s.rows@[r],
        |c: int| cell(nb, c, r, k),
    ) by {
        lemma_mask_same(s.rows@[r], |c: int| cell(b, c, r, k), |c: int| cell(nb, c, r, k));
    }
    assert forall|c: int| 0 <= c < 5 implies mask_matches(
        #[trigger] s.columns@[c],
        |r: int| cell(nb, c, r, k),
    ) by {
        lemma_mask_same(s.columns@[c], |r: int| cell(b, c, r, k), |r: int| cell(nb, c, r, k));
    }
    lemma_mask_same(s.diagonals@[0], |i: int| cell(b, i, i, k), |i: int| cell(nb, i, i, k));
    lemma_mask_same(
        s.diagonals@[1],
        |i: int| cell(b, i, 4 - i, k),
        |i: int| cell(nb, i, 4 - i, k),
    );
}

/// The masks of the dropped colour, with the bits of the new bullet set,
/// follow the board after the drop.
proof fn lemma_follows_drop(
    s: Score,
    t: Score,
    b: Seq<Seq<u8>>,
    c0: u8,
    k0: u8,
)
    requires
        s.follows(b, k0),
        c0 < 5,
        c0 < b.len(),
        b[c0 as int].len() < 5,
        t.rows@ == s.rows@.update(
            b[c0 as int].len() as int,
            s.rows@[b[c0 as int].len() as int] | (1u8 << c0),
        ),
        t.columns@ == s.columns@.update(
            c0 as int,
            s.columns@[c0 as int] | (1u8 << (b[c0 as int].len() as u8)),
        ),
        t.diagonals@.len() == 2,
        t.diagonals@[0] == if b[c0 as int].len() == c0 {
            s.diagonals@[0] | (1u8 << c0)
        } else {
            s.diagonals@[0]
        },
        t.diagonals@[1] == if b[c0 as int].len() + c0 == 4 {
            s.diagonals@[1] | (1u8 << c0)
        } else {
            s.diagonals@[1]
        },
    ensures
        t.follows(dropped(b, c0 as int, k0), k0),
{
    let nb = dropped(b, c0 as int, k0);
    let r0: int = b[c0 as int].len() as int;
    let k = k0;
    lemma_drop_cells(b, c0 as int, k0);
    assert forall|r: int| 0 <= r < 5 implies mask_matches(
        #[trigger] t.rows@[r],
        |c: int| cell(nb, c, r, k),
    ) by {
        if r == r0 {
            lemma_mask_gain(s.rows@[r], c0, |c: int| cell(b, c, r, k), |c: int| cell(nb, c, r, k));
        } else {
            lemma_mask_same(s.rows@[r], |c: int| cell(b, c, r, k), |c: int| cell(nb, c, r, k));
        }
    }
    assert forall|c: int| 0 <= c < 5 implies mask_matches(
        #[trigger] t.columns@[c],
        |r: int| cell(nb, c, r, k),
    ) by {
        if c == c0 {
            lemma_mask_gain(
                s.columns@[c],
                r0 as u8,
                |r: int| cell(b, c, r, k),
                |r: int| cell(nb, c, r, k),
            );
        } else {
            lemma_mask_same(s.columns@[c], |r: int| cell(b, c, r, k), |r: int| cell(nb, c, r, k));
        }
    }
    if r0 == c0 {
        lemma_mask_gain(s.diagonals@[0], c0, |i: int| cell(b, i, i, k), |i: int| cell(nb, i, i, k));
    } else {
        lemma_mask_same(s.diagonals@[0], |i: int| cell(b, i, i, k), |i: int| cell(nb, i, i, k));
    }
    if r0 + c0 == 4 {
        lemma_mask_gain(
            s.diagonals@[1],
            c0,
            |i: int| cell(b, i, 4 - i, k),
            |i: int| cell(nb, i, 4 - i, k),
        );
    } else {
        lemma_mask_same(
            s.diagonals@[1],
            |i: int| cell(b, i, 4 - i, k),
            |i: int| cell(nb, i, 4 - i, k),
        );
    }
}


// ----------------------------------------------------------------------
// The board as text: the bullets of each slot, bottom first, as decimal
// numbers, each slot closed by a `;`.
// ----------------------------------------------------------------------

pub open spec fn column_text(col: Seq<u8>) -> Seq<char>
    decreases col.len(),
{
    if col.len() == 0 {
        Seq::empty()
    } else {
        column_text(col.drop_last()) + decimal_text(col.last() as nat)
    }
}

pub open spec fn board_text(b: Seq<Seq<u8>>) -> Seq<char>
    decreases b.len(),
{
    if b.len() == 0 {
        Seq::empty()
    } else {
        board_text(b.drop_last()) + column_text(b.last()) + seq![';']
    }
}

/// A character that the text of a board may hold.
pub open spec fn board_char(c: char) -> bool {
    c == ';' || decimal_digit(c) is Some
}

/// The value of a digit character.
pub open spec fn digit_of(c: char) -> u8 {
    decimal_digit(c).unwrap() as u8
}

/// The text split at each `;`, each piece read as digits.
pub open spec fn split_columns(s: Seq<char>) -> Seq<Seq<u8>>
    decreases s.len(),
{
    if s.len() == 0 {
        seq![Seq::empty()]
    } else {
        let p = split_columns(s.drop_last());
        if s.last() == ';' {
            p.push(Seq::empty())
        } else {
            p.update(p.len() - 1, p.last().push(digit_of(s.last())))
        }
    }
}

/// The first five pieces, with empty slots where the text has fewer.
pub open spec fn padded(cols: Seq<Seq<u8>>) -> Seq<Seq<u8>> {
    Seq::new(
        MAX_BULLETS as nat,
        |k: int|
            if k < cols.len() {
                cols[k]
            } else {
                Seq::empty()
            },
    )
}

/// Reading the text puts no digit past the fifth slot before it meets a
/// character that ends the reading.
pub open spec fn fits_five_slots(s: Seq<char>) -> bool {
    forall|j: int|
        0 <= j < s.len() && decimal_digit(s[j]) is Some && (forall|i: int|
            0 <= i < j ==> board_char(#[trigger] s[i])) ==> #[trigger] split_columns(s.take(j)).len()
            <= MAX_BULLETS
}

pub proof fn lemma_split_columns_len(s: Seq<char>)
    ensures
        split_columns(s).len() >= 1,
    decreases s.len(),
{
    if s.len() > 0 {
        lemma_split_columns_len(s.drop_last());
    }
}


/// Every bullet value of the board has one decimal digit.
pub open spec fn single_digit_values(b: Seq<Seq<u8>>) -> bool {
    forall|c: int, r: int| 0 <= c < b.len() && 0 <= r < b[c].len() ==> #[trigger] b[c][r] < 10
}

proof fn lemma_column_text_digits(col: Seq<u8>)
    requires
        forall|r: int| 0 <= r < col.len() ==> #[trigger] col[r] < 10,
    ensures
        column_text(col).len() == col.len(),
        forall|i: int| 0 <= i < col.len() ==> #[trigger] column_text(col)[i] == digit_char(col[i] as nat),
    decreases col.len(),
{
    if col.len() > 0 {
        let init = col.drop_last();
        lemma_column_text_digits(init);
        assert(decimal_text(col.last() as nat) == seq![digit_char(col.last() as nat)]);
        assert forall|i: int| 0 <= i < col.len() implies #[trigger] column_text(col)[i]
            == digit_char(col[i] as nat) by {
            if i < col.len() - 1 {
                assert(init[i] == col[i]);
            }
        }
    }
}

/// Text without a `;` adds no slot.
proof fn lemma_split_no_semicolon(s: Seq<char>, u: Seq<char>)
    requires
        forall|i: int| 0 <= i < u.len() ==> #[trigger] u[i] != ';',
    ensures
        split_columns(s + u).len() == split_columns(s).len(),
    decreases u.len(),
{
    if u.len() > 0 {
        let init = u.drop_last();
        assert((s + u).drop_last() =~= s + init);
        lemma_split_no_semicolon(s, init);
        lemma_split_columns_len(s + init);
    }
}

/// The text of a slot extends the last piece by the slot's bullets.
proof fn lemma_split_column_text(s: Seq<char>, col: Seq<u8>)
    requires
        forall|r: int| 0 <= r < col.len() ==> #[trigger] col[r] < 10,
    ensures
        split_columns(s + column_text(col)) == split_columns(s).update(
            split_columns(s).len() - 1,
            split_columns(s).last() + col,
        ),
    decreases col.len(),
{
    lemma_split_columns_len(s);
    if col.len() == 0 {
        assert(s + column_text(col) =~= s);
        assert(split_columns(s).last() + col =~= split_columns(s).last());
        assert(split_columns(s).update(split_columns(s).len() - 1, split_columns(s).last())
            =~= split_columns(s));
    } else {
        let init = col.drop_last();
        let v = col.last();
        lemma_split_column_text(s, init);
        lemma_digit_roundtrip(v as nat);
        assert(decimal_text(v as nat) == seq![digit_char(v as nat)]);
        let t = s + column_text(col);
        assert(t =~= (s + column_text(init)).push(digit_char(v as nat)));
        assert(t.drop_last() =~= s + column_text(init));
        let p = split_columns(s);
        let p1 = split_columns(s + column_text(init));
        assert(p1 == p.update(p.len() - 1, p.last() + init));
        assert(t.last() == digit_char(v as nat));
        assert(t.last() != ';');
        assert(digit_of(t.last()) == v);
        assert(split_columns(t) == p1.update(p1.len() - 1, p1.last().push(v)));
        assert(p1.last().push(v) =~= p.last() + col);
        assert(split_columns(t) =~= p.update(p.len() - 1, p.last() + col));
    }
}

proof fn lemma_board_text_split(b: Seq<Seq<u8>>)
    requires
        single_digit_values(b),
    ensures
        split_columns(board_text(b)) == b.push(Seq::empty()),
    decreases b.len(),
{
    if b.len() == 0 {
        assert(board_text(b) =~= Seq::<char>::empty());
        assert(b.push(Seq::empty()) =~= seq![Seq::<u8>::empty()]);
    } else {
        let init = b.drop_last();
        let col = b.last();
        assert(single_digit_values(init)) by {
            assert forall|c: int, r: int| 0 <= c < init.len() && 0 <= r < init[c].len() implies
                #[trigger] init[c][r] < 10 by {
                assert(init[c] == b[c]);
            }
        }
        assert forall|r: int| 0 <= r < col.len() implies #[trigger] col[r] < 10 by {
            assert(b[b.len() - 1][r] < 10);
        }
        lemma_board_text_split(init);
        let t = board_text(init);
        lemma_split_column_text(t, col);
        let u = t + column_text(col);
        assert(board_text(b) =~= u.push(';'));
        assert(board_text(b).drop_last() =~= u);
        let q = init.push(Seq::<u8>::empty());
        assert(q.update(q.len() - 1, q.last() + col) =~= b) by {
            assert(q.last() + col =~= col);
        }
    }
}

proof fn lemma_board_text_chars(b: Seq<Seq<u8>>)
    requires
        single_digit_values(b),
    ensures
        forall|i: int| 0 <= i < board_text(b).len() ==> board_char(#[trigger] board_text(b)[i]),
        forall|j: int|
            0 <= j < board_text(b).len() && #[trigger] board_text(b)[j] != ';' ==> split_columns(
                board_text(b).take(j),
            ).len() <= b.len(),
    decreases b.len(),
{
    if b.len() > 0 {
        let init = b.drop_last();
        let col = b.last();
        assert(single_digit_values(init)) by {
            assert forall|c: int, r: int| 0 <= c < init.len() && 0 <= r < init[c].len() implies
                #[trigger] init[c][r] < 10 by {
                assert(init[c] == b[c]);
            }
        }
        assert forall|r: int| 0 <= r < col.len() implies #[trigger] col[r] < 10 by {
            assert(b[b.len() - 1][r] < 10);
        }
        lemma_board_text_chars(init);
        lemma_board_text_split(init);
        lemma_column_text_digits(col);
        let t = board_text(init);
        let ct = column_text(col);
        let whole = board_text(b);
        assert(whole =~= t + ct + seq![';']);
        assert forall|i: int| 0 <= i < whole.len() implies board_char(#[trigger] whole[i]) by {
            if i < t.len() {
                assert(whole[i] == t[i]);
            } else if i < t.len() + ct.len() {
                assert(whole[i] == ct[i - t.len()]);
                lemma_digit_roundtrip(col[i - t.len()] as nat);
            }
        }
        assert forall|j: int| 0 <= j < whole.len() && #[trigger] whole[j] != ';' implies split_columns(
            whole.take(j),
        ).len() <= b.len() by {
            if j < t.len() {
                assert(whole.take(j) =~= t.take(j));
                assert(t[j] == whole[j]);
            } else {
                let m = j - t.len();
                assert(whole.take(j) =~= t + ct.take(m));
                assert forall|i: int| 0 <= i < ct.take(m).len() implies #[trigger] ct.take(m)[i]
                    != ';' by {
                    assert(ct.take(m)[i] == ct[i]);
                    lemma_digit_roundtrip(col[i] as nat);
                }
                lemma_split_no_semicolon(t, ct.take(m));
            }
        }
    }
}

/// Reading the text of a board gives the board back: every character is
/// readable, no digit falls past the fifth slot, and the slots read are
/// the board's.
pub proof fn lemma_board_text_roundtrip(b: Seq<Seq<u8>>)
    requires
        b.len() == MAX_BULLETS,
        single_digit_values(b),
    ensures
        forall|i: int| 0 <= i < board_text(b).len() ==> board_char(#[trigger] board_text(b)[i]),
        fits_five_slots(board_text(b)),
        padded(split_columns(board_text(b))) == b,
{
    lemma_board_text_chars(b);
    lemma_board_text_split(b);
    let s = board_text(b);
    assert forall|j: int|
        0 <= j < s.len() && decimal_digit(s[j]) is Some && (forall|i: int|
            0 <= i < j ==> board_char(#[trigger] s[i])) implies #[trigger] split_columns(
        s.take(j),
    ).len() <= MAX_BULLETS by {
        assert(s[j] != ';');
    }
    assert(padded(b.push(Seq::<u8>::empty())) =~= b);
}

/// Reads a board from its text: a `;` closes a slot, a digit is a bullet of
/// that colour value; any other character makes the text unreadable.
pub fn get_board_from_string(s: String) -> (r: Option<Vec<Vec<Color>>>)
    requires
        fits_five_slots(s@),
    ensures
        r is Some <==> forall|i: int| 0 <= i < s@.len() ==> board_char(#[trigger] s@[i]),
        r matches Some(b) ==> board_values(b@) == padded(split_columns(s@)),
{
    let mut board: Vec<Vec<Color>> = Vec::with_capacity(MAX_BULLETS);
    let empty_slot: Vec<Color> = Vec::new();
    let ghost empty = empty_slot;
    board.resize(MAX_BULLETS, empty_slot);
    proof {
        assert forall|c: int| 0 <= c < MAX_BULLETS implies #[trigger] board@[c]@
            == Seq::<Color>::empty() by {
            assert(cloned::<Vec<Color>>(empty, board@[c]));
        }
        assert(board_values(board@) =~= padded(split_columns(s@.take(0)))) by {
            assert(s@.take(0) =~= Seq::<char>::empty());
            assert forall|k: int| 0 <= k < MAX_BULLETS implies #[trigger] board_values(board@)[k]
                =~= padded(split_columns(s@.take(0)))[k] by {
                assert(board@[k]@ == Seq::<Color>::empty());
            }
        }
    }
    let mut col: usize = 0;
    for ch in it: s.chars()
        invariant
            fits_five_slots(s@),
            it.seq() == s@,
            board@.len() == MAX_BULLETS,
            forall|i: int| 0 <= i < it.index() ==> board_char(#[trigger] s@[i]),
            col as int == if split_columns(s@.take(it.index() as int)).len() - 1 < usize::MAX {
                split_columns(s@.take(it.index() as int)).len() - 1
            } else {
                usize::MAX as int
            },
            board_values(board@) == padded(split_columns(s@.take(it.index() as int))),
    {
        let ghost i = it.index() as int;
        proof {
            lemma_split_columns_len(s@.take(i));
            assert(s@.take(i + 1).drop_last() =~= s@.take(i));
            assert(s@.take(i + 1).last() == ch);
        }
        if ch == ';' {
            col = col.saturating_add(1);
            proof {
                let p = split_columns(s@.take(i));
                assert(split_columns(s@.take(i + 1)) == p.push(Seq::<u8>::empty()));
                assert(board_values(board@) =~= padded(p.push(Seq::<u8>::empty())));
            }
        } else {
            match char_to_digit(ch) {
                Some(d) => {
                    let ghost p = split_columns(s@.take(i));
                    proof {
                        assert(p.len() <= MAX_BULLETS);
                    }
                    let ghost before = board@;
                    board[col].push(Color { value: d as u8 });
                    proof {
                        assert(col as int == p.len() - 1);
                        assert(board@[col as int]@ == before[col as int]@.push(
                            Color { value: d as u8 },
                        ));
                        assert(forall|j: int| 0 <= j < MAX_BULLETS && j != col ==> board@[j]
                            == before[j]);
                        assert(board_values(before)[col as int] == p.last());
                        assert(column_values(board@[col as int]@) =~= column_values(
                            before[col as int]@,
                        ).push(digit_of(ch)));
                        assert(split_columns(s@.take(i + 1)) == p.update(
                            p.len() - 1,
                            p.last().push(digit_of(ch)),
                        ));
                        assert(board_values(board@) =~= padded(
                            p.update(p.len() - 1, p.last().push(digit_of(ch))),
                        )) by {
                            let q = p.update(p.len() - 1, p.last().push(digit_of(ch)));
                            assert forall|k: int| 0 <= k < MAX_BULLETS implies #[trigger] board_values(
                                board@,
                            )[k] == padded(q)[k] by {
                                if k != col {
                                    assert(board_values(board@)[k] == board_values(before)[k]);
                                    assert(board_values(before)[k] == padded(p)[k]);
                                }
                            }
                        }
                    }
                },
                None => {
                    return None;
                },
            }
        }
    }
    proof {
        assert(s@.take(s@.len() as int) =~= s@);
    }
    Some(board)
}

// ----------------------------------------------------------------------
// The picture of a board: slots side by side as they stand, the top row
// first.
// ----------------------------------------------------------------------

/// The mark of a colour value in a picture.
pub open spec fn mark_text(v: u8) -> Seq<char> {
    if v == GREEN {
        seq!['G']
    } else if v == RED {
        seq!['R']
    } else {
        Seq::empty()
    }
}

/// Slot `j` at row `i` of the picture, row 0 being the top.
pub open spec fn cell_picture(b: Seq<Seq<u8>>, j: int, i: int) -> Seq<char> {
    if b[j].len() < MAX_BULLETS - i {
        "[ ]"@
    } else {
        "["@ + mark_text(b[j][MAX_BULLETS - i - 1]) + "]"@
    }
}

/// The first `n` cells of row `i`.
pub open spec fn row_picture(b: Seq<Seq<u8>>, i: int, n: nat) -> Seq<char>
    decreases n,
{
    if n == 0 {
        Seq::empty()
    } else {
        row_picture(b, i, (n - 1) as nat) + cell_picture(b, n - 1, i)
    }
}

/// The first `n` rows, each ended by a line break.
pub open spec fn rows_picture(b: Seq<Seq<u8>>, n: nat) -> Seq<char>
    decreases n,
{
    if n == 0 {
        Seq::empty()
    } else {
        rows_picture(b, (n - 1) as nat) + row_picture(b, n - 1, MAX_BULLETS as nat) + "\n"@
    }
}

pub open spec fn board_picture_text(b: Seq<Seq<u8>>) -> Seq<char> {
    "_______________\n"@ + rows_picture(b, MAX_BULLETS as nat) + "+-+-+-+-+-+-+-+\n"@
}

/// What a player sees in slot `j` at row `i` (row 0 is the top): the mark of
/// the bullet at height `4 - i` when the slot holds more than `4 - i`
/// bullets, a blank otherwise.
pub open spec fn shown_mark(b: Seq<Seq<u8>>, j: int, i: int) -> char {
    if b[j].len() > 4 - i {
        if b[j][4 - i] == GREEN {
            'G'
        } else {
            'R'
        }
    } else {
        ' '
    }
}

proof fn lemma_row_picture(b: Seq<Seq<u8>>, i: int, n: nat)
    requires
        n <= MAX_BULLETS,
        0 <= i < MAX_BULLETS,
        b.len() >= MAX_BULLETS,
        forall|c: int, r: int|
            0 <= c < b.len() && 0 <= r < b[c].len() ==> is_player_color(#[trigger] b[c][r]),
    ensures
        row_picture(b, i, n).len() == 3 * n,
        forall|j: int|
            #![trigger shown_mark(b, j, i)]
            0 <= j < n ==> row_picture(b, i, n)[3 * j + 1] == shown_mark(b, j, i) && row_picture(
                b,
                i,
                n,
            )[3 * j + 2] == ']' && row_picture(b, i, n)[3 * j] == '[',
    decreases n,
{
    reveal_strlit("[ ]");
    reveal_strlit("[");
    reveal_strlit("]");
    if n > 0 {
        let k = n - 1;
        lemma_row_picture(b, i, k as nat);
        let prev = row_picture(b, i, k as nat);
        let cell = cell_picture(b, k, i);
        if b[k].len() >= MAX_BULLETS - i {
            assert(is_player_color(b[k][MAX_BULLETS - i - 1]));
            assert(cell =~= seq!['[', shown_mark(b, k, i), ']']);
        } else {
            assert(cell =~= seq!['[', ' ', ']']);
        }
        let t = row_picture(b, i, n);
        assert(t == prev + cell);
        assert forall|j: int| #![trigger shown_mark(b, j, i)] 0 <= j < n implies t[3 * j + 1]
            == shown_mark(b, j, i) && t[3 * j + 2] == ']' && t[3 * j] == '[' by {
            if j < k {
                assert(t[3 * j] == prev[3 * j]);
                assert(t[3 * j + 1] == prev[3 * j + 1]);
                assert(t[3 * j + 2] == prev[3 * j + 2]);
            } else {
                assert(j == k);
                assert(cell[0] == '[');
                assert(t[3 * j] == cell[0]);
                assert(t[3 * j + 1] == cell[1]);
                assert(t[3 * j + 2] == cell[2]);
            }
        }
    }
}

proof fn lemma_rows_picture(b: Seq<Seq<u8>>, n: nat)
    requires
        n <= MAX_BULLETS,
        b.len() >= MAX_BULLETS,
        forall|c: int, r: int|
            0 <= c < b.len() && 0 <= r < b[c].len() ==> is_player_color(#[trigger] b[c][r]),
    ensures
        rows_picture(b, n).len() == 16 * n,
        forall|i: int, j: int|
            #![trigger shown_mark(b, j, i)]
            0 <= i < n && 0 <= j < MAX_BULLETS ==> rows_picture(b, n)[16 * i + 3 * j + 1]
                == shown_mark(b, j, i) && rows_picture(b, n)[16 * i + 3 * j] == '[' && rows_picture(
                b,
                n,
            )[16 * i + 3 * j + 2] == ']',
        forall|i: int| 0 <= i < n ==> #[trigger] rows_picture(b, n)[16 * i + 15] == '\n',
    decreases n,
{
    reveal_strlit("\n");
    if n > 0 {
        let k = n - 1;
        lemma_rows_picture(b, k as nat);
        lemma_row_picture(b, k, MAX_BULLETS as nat);
        let prev = rows_picture(b, k as nat);
        let row = row_picture(b, k, MAX_BULLETS as nat);
        let t = rows_picture(b, n);
        assert(t == prev + row + "\n"@);
        assert forall|i: int, j: int|
            #![trigger shown_mark(b, j, i)]
            0 <= i < n && 0 <= j < MAX_BULLETS implies t[16 * i + 3 * j + 1] == shown_mark(b, j, i)
            && t[16 * i + 3 * j] == '[' && t[16 * i + 3 * j + 2] == ']' by {
            if i < k {
                assert(t[16 * i + 3 * j] == prev[16 * i + 3 * j]);
                assert(t[16 * i + 3 * j + 1] == prev[16 * i + 3 * j + 1]);
                assert(t[16 * i + 3 * j + 2] == prev[16 * i + 3 * j + 2]);
            } else {
                assert(t[16 * i + 3 * j] == row[3 * j]);
                assert(t[16 * i + 3 * j + 1] == row[3 * j + 1]);
                assert(t[16 * i + 3 * j + 2] == row[3 * j + 2]);
            }
        }
        assert forall|i: int| 0 <= i < n implies #[trigger] t[16 * i + 15] == '\n' by {
            if i < k {
                assert(t[16 * i + 15] == prev[16 * i + 15]);
            }
        }
    }
}

/// The picture of a board: a top line, then five rows of five cells `[x]`,
/// each row ended by a line break, then a bottom line. The cell of slot `j`
/// at row `i` (row 0 the top) shows the mark of the bullet at height `4 - i`
/// exactly when the slot holds more than `4 - i` bullets, and a blank
/// otherwise, so a slot shows as many marks as it holds bullets, up to five.
pub proof fn lemma_picture_law(b: Seq<Seq<u8>>)
    requires
        b.len() >= MAX_BULLETS,
        forall|c: int, r: int|
            0 <= c < b.len() && 0 <= r < b[c].len() ==> is_player_color(#[trigger] b[c][r]),
    ensures
        board_picture_text(b).len() == 16 * 7,
        board_picture_text(b).subrange(0, 16) == seq!['_'; 15].push('\n'),
        board_picture_text(b).subrange(96, 112) == "+-+-+-+-+-+-+-+\n"@,
        forall|i: int, j: int|
            #![trigger shown_mark(b, j, i)]
            0 <= i < MAX_BULLETS && 0 <= j < MAX_BULLETS ==> board_picture_text(b)[16 + 16 * i + 3
                * j + 1] == shown_mark(b, j, i) && board_picture_text(b)[16 + 16 * i + 3 * j] == '['
                && board_picture_text(b)[16 + 16 * i + 3 * j + 2] == ']',
        forall|i: int|
            0 <= i < MAX_BULLETS ==> #[trigger] board_picture_text(b)[16 + 16 * i + 15] == '\n',
{
    reveal_strlit("_______________\n");
    reveal_strlit("+-+-+-+-+-+-+-+\n");
    lemma_rows_picture(b, MAX_BULLETS as nat);
    let head = "_______________\n"@;
    let rows = rows_picture(b, MAX_BULLETS as nat);
    let t = board_picture_text(b);
    assert(t == head + rows + "+-+-+-+-+-+-+-+\n"@);
    assert(t.subrange(0, 16) =~= head);
    assert(head =~= seq!['_'; 15].push('\n'));
    assert(t.subrange(96, 112) =~= "+-+-+-+-+-+-+-+\n"@);
    assert forall|i: int, j: int|
        #![trigger shown_mark(b, j, i)]
        0 <= i < MAX_BULLETS && 0 <= j < MAX_BULLETS implies t[16 + 16 * i + 3 * j + 1]
        == shown_mark(b, j, i) && t[16 + 16 * i + 3 * j] == '[' && t[16 + 16 * i + 3 * j + 2]
        == ']' by {
        assert(t[16 + 16 * i + 3 * j] == rows[16 * i + 3 * j]);
        assert(t[16 + 16 * i + 3 * j + 1] == rows[16 * i + 3 * j + 1]);
        assert(t[16 + 16 * i + 3 * j + 2] == rows[16 * i + 3 * j + 2]);
    }
    assert forall|i: int| 0 <= i < MAX_BULLETS implies #[trigger] t[16 + 16 * i + 15] == '\n' by {
        assert(t[16 + 16 * i + 15] == rows[16 * i + 15]);
    }
}

/// The picture of a board, as a player sees it printed.
pub fn board_picture(board: &Vec<Vec<Color>>) -> (picture: String)
    requires
        board@.len() >= MAX_BULLETS,
    ensures
        picture@ == board_picture_text(board_values(board@)),
{
    let ghost b = board_values(board@);
    let mut s = String::new();
    s.append("_______________\n");
    proof {
        assert(s@ == "_______________\n"@ + rows_picture(b, 0));
    }
    let mut i: usize = 0;
    while i < MAX_BULLETS
        invariant
            b == board_values(board@),
            board@.len() >= MAX_BULLETS,
            i <= MAX_BULLETS,
            s@ == "_______________\n"@ + rows_picture(b, i as nat),
        decreases MAX_BULLETS - i,
    {
        let ghost start = s@;
        let mut j: usize = 0;
        while j < MAX_BULLETS
            invariant
                b == board_values(board@),
                board@.len() >= MAX_BULLETS,
                i < MAX_BULLETS,
                j <= MAX_BULLETS,
                s@ == start + row_picture(b, i as int, j as nat),
            decreases MAX_BULLETS - j,
        {
            let ghost before = s@;
            if board[j].len() < MAX_BULLETS - i {
                s.append("[ ]");
            } else {
                s.append("[");
                let mark = board[j][MAX_BULLETS - i - 1].to_string();
                s.append(mark.as_str());
                s.append("]");
                proof {
                    let v = board@[j as int]@[MAX_BULLETS - i - 1].value;
                    assert(b[j as int][MAX_BULLETS - i - 1] == v);
                    assert(mark@ == mark_text(v));
                    assert(s@ =~= before + ("["@ + mark_text(v) + "]"@));
                }
            }
            proof {
                assert(b[j as int].len() == board@[j as int]@.len());
                assert(s@ =~= start + row_picture(b, i as int, (j + 1) as nat));
            }
            j += 1;
        }
        s.append("\n");
        proof {
            assert(s@ =~= "_______________\n"@ + rows_picture(b, (i + 1) as nat));
        }
        i += 1;
    }
    s.append("+-+-+-+-+-+-+-+\n");
    s
}

// ----------------------------------------------------------------------
// The board
// ----------------------------------------------------------------------

/// Five slots, filled from the bottom, and the masks of both colours.
pub struct Board {
    board: Vec<Vec<Color>>,
    scores: HashMap<u8, Score>,
}

impl View for Board {
    type V = Seq<Seq<u8>>;

    closed spec fn view(&self) -> Seq<Seq<u8>> {
        board_values(self.board@)
    }
}

impl Board {
    /// The board is valid and the masks of both colours follow it.
    pub closed spec fn wf(&self) -> bool {
        &&& valid_board(self@)
        &&& self.board@.len() == MAX_BULLETS
        &&& self.scores@.dom() == set![GREEN, RED]
        &&& self.scores@[GREEN].follows(self@, GREEN)
        &&& self.scores@[RED].follows(self@, RED)
    }

    /// Every board that the game builds is valid.
    pub proof fn lemma_wf_valid(&self)
        requires
            self.wf(),
        ensures
            valid_board(self@),
    {
    }

    /// The text of a board that the game builds reads back to the same board.
    pub proof fn lemma_text_roundtrip(&self)
        requires
            self.wf(),
        ensures
            forall|i: int|
                0 <= i < board_text(self@).len() ==> board_char(#[trigger] board_text(self@)[i]),
            fits_five_slots(board_text(self@)),
            padded(split_columns(board_text(self@))) == self@,
    {
        assert(single_digit_values(self@)) by {
            assert forall|c: int, r: int|
                0 <= c < self@.len() && 0 <= r < self@[c].len() implies #[trigger] self@[c][r]
                < 10 by {
                assert(is_player_color(self@[c][r]));
            }
        }
        lemma_board_text_roundtrip(self@);
    }

    pub fn new() -> (board: Board)
        ensures
            board.wf(),
            board@ == seq![Seq::<u8>::empty(); 5],
    {
        let mut board = Board { board: Vec::with_capacity(MAX_BULLETS), scores: HashMap::new() };
        let empty_slot: Vec<Color> = Vec::new();
        let ghost empty = empty_slot;
        board.board.resize(MAX_BULLETS, empty_slot);
        board.scores.insert(GREEN, Score::new());
        board.scores.insert(RED, Score::new());
        proof {
            assert forall|c: int| 0 <= c < MAX_BULLETS implies #[trigger] board.board@[c]@
                == Seq::<Color>::empty() by {
                assert(cloned::<Vec<Color>>(empty, board.board@[c]));
            }
            assert forall|c: int| 0 <= c < MAX_BULLETS implies #[trigger] board@[c]
                == Seq::<u8>::empty() by {
                assert(board.board@[c]@ == Seq::<Color>::empty());
                assert(board@[c] =~= Seq::<u8>::empty());
            }
            assert(board@ =~= seq![Seq::<u8>::empty(); 5]);
            lemma_new_score_follows(board.scores@[GREEN], board@, GREEN);
            lemma_new_score_follows(board.scores@[RED], board@, RED);
            assert(board.scores@.dom() =~= set![GREEN, RED]);
        }
        board
    }

    pub fn get_board(&self) -> (b: &Vec<Vec<Color>>)
        ensures
            board_values(b@) == self@,
    {
        &self.board
    }

    /// The text of the board, which `get_board_from_string` reads back.
    pub fn get_board_as_string(&self) -> (text: String)
        ensures
            text@ == board_text(self@),
    {
        let mut s = String::new();
        let mut c: usize = 0;
        while c < self.board.len()
            invariant
                c <= self.board@.len(),
                self@.len() == self.board@.len(),
                s@ == board_text(self@.take(c as int)),
            decreases self.board@.len() - c,
        {
            let mut r: usize = 0;
            while r < self.board[c].len()
                invariant
                    c < self.board@.len(),
                    self@.len() == self.board@.len(),
                    r <= self.board@[c as int]@.len(),
                    s@ == board_text(self@.take(c as int)) + column_text(
                        self@[c as int].take(r as int),
                    ),
                decreases self.board@[c as int]@.len() - r,
            {
                let digits = u8_to_text(self.board[c][r].value);
                s.append(digits.as_str());
                proof {
                    let col = self@[c as int];
                    assert(col.take(r + 1).drop_last() =~= col.take(r as int));
                    assert(col[r as int] == self.board@[c as int]@[r as int].value);
                }
                r += 1;
            }
            s.append(";");
            proof {
                reveal_strlit(";");
                assert(self@.take(c + 1).drop_last() =~= self@.take(c as int));
                assert(self@[c as int].take(self@[c as int].len() as int) =~= self@[c as int]);
            }
            c += 1;
        }
        proof {
            assert(self@.take(self@.len() as int) =~= self@);
        }
        s
    }

    /// Drops a bullet of `color` into `slot`.
    pub fn place(&mut self, slot: Slot, color: &Color) -> (r: Result<bool, String>)
        requires
            old(self).wf(),
        ensures
            final(self).wf(),
            !is_player_color(color.value) ==> {
                &&& r matches Err(e) && e@ == "invalid color"@
                &&& *final(self) == *old(self)
            },
            is_player_color(color.value) && !slot_open(old(self)@, slot.index) ==> {
                &&& r matches Err(e) && e@ == "invalid slot index or slot is full"@
                &&& *final(self) == *old(self)
            },
            is_player_color(color.value) && slot_open(old(self)@, slot.index) ==> {
                &&& r == Ok::<bool, String>(true)
                &&& final(self)@ == dropped(old(self)@, slot.index as int, color.value)
            },
    {
        if self.scores.get(&color.value).is_none() {
            return Err("invalid color".to_string());
        }
        if slot.index >= MAX_BULLETS || self.board[slot.index].len() >= MAX_BULLETS {
            return Err("invalid slot index or slot is full".to_string());
        }
        if self.is_full() {
            assert(self@[slot.index as int].len() >= MAX_BULLETS);
            return Err("board is full".to_string());
        }
        let ghost b = self@;
        let ghost old_scores = self.scores@;
        let index = slot.index;
        self.board[index].push(*color);
        let row = self.board[index].len() - 1;
        proof {
            assert(self@ =~= dropped(b, index as int, color.value)) by {
                assert(self@[index as int] =~= b[index as int].push(color.value));
            }
        }
        let mut score = self.scores.remove(&color.value).unwrap();
        let ghost s0 = score;
        let col_bit: u8 = 1u8 << (index as u8);
        let row_bit: u8 = 1u8 << (row as u8);
        let row_mask = score.rows[row] | col_bit;
        score.rows.set(row, row_mask);
        let column_mask = score.columns[index] | row_bit;
        score.columns.set(index, column_mask);
        if row == index {
            let diagonal_mask = score.diagonals[0] | col_bit;
            score.diagonals.set(0, diagonal_mask);
        }
        if row + index == MAX_BULLETS - 1 {
            let diagonal_mask = score.diagonals[1] | col_bit;
            score.diagonals.set(1, diagonal_mask);
        }
        self.scores.insert(color.value, score);
        proof {
            let k = color.value;
            let other: u8 = if k == GREEN { RED } else { GREEN };
            lemma_follows_drop(s0, score, b, index as u8, k);
            lemma_follows_other(old_scores[other], b, index as int, k, other);
            assert(self.scores@.dom() =~= set![GREEN, RED]);
            assert(valid_board(self@)) by {
                assert forall|c: int, r: int|
                    0 <= c < self@.len() && 0 <= r < self@[c].len() implies is_player_color(
                    #[trigger] self@[c][r],
                ) by {
                    if c != index {
                        assert(self@[c] == b[c]);
                    } else if r < b[c].len() {
                        assert(self@[c][r] == b[c][r]);
                    }
                }
            }
        }
        Ok(true)
    }

    /// Whether `color` has five bullets in a line.
    pub fn is_winner(&mut self, color: &Color) -> (won: bool)
        requires
            old(self).wf(),
            is_player_color(color.value),
        ensures
            *final(self) == *old(self),
            won == five_in_line(old(self)@, color.value),
    {
        let ghost b = self@;
        let ghost k = color.value;
        let score = self.scores.get(&color.value).unwrap();
        let mut i: usize = 0;
        while i < score.rows.len()
            invariant
                b == old(self)@,
                k == color.value,
                score.follows(b, k),
                i <= MAX_BULLETS,
                forall|j: int| 0 <= j < i ==> !#[trigger] full_row(b, j, k),
            decreases MAX_BULLETS - i,
        {
            proof {
                lemma_full_mask(score.rows@[i as int], |c: int| cell(b, c, i as int, k));
            }
            if score.rows[i] == 0x1fu8 {
                assert(full_row(b, i as int, k));
                return true;
            }
            i += 1;
        }
        let mut i: usize = 0;
        while i < score.columns.len()
            invariant
                b == old(self)@,
                k == color.value,
                score.follows(b, k),
                i <= MAX_BULLETS,
                forall|j: int| 0 <= j < MAX_BULLETS ==> !#[trigger] full_row(b, j, k),
                forall|j: int| 0 <= j < i ==> !#[trigger] full_column(b, j, k),
            decreases MAX_BULLETS - i,
        {
            proof {
                lemma_full_mask(score.columns@[i as int], |r: int| cell(b, i as int, r, k));
            }
            if score.columns[i] == 0x1fu8 {
                assert(full_column(b, i as int, k));
                return true;
            }
            i += 1;
        }
        let mut i: usize = 0;
        while i < score.diagonals.len()
            invariant
                b == old(self)@,
                k == color.value,
                score.follows(b, k),
                i <= 2,
                forall|j: int| 0 <= j < MAX_BULLETS ==> !#[trigger] full_row(b, j, k),
                forall|j: int| 0 <= j < MAX_BULLETS ==> !#[trigger] full_column(b, j, k),
                i > 0 ==> !full_diagonal(b, k),
                i > 1 ==> !full_anti_diagonal(b, k),
            decreases 2 - i,
        {
            proof {
                lemma_full_mask(score.diagonals@[0], |j: int| cell(b, j, j, k));
                lemma_full_mask(score.diagonals@[1], |j: int| cell(b, j, 4 - j, k));
            }
            if score.diagonals[i] == 0x1fu8 {
                return true;
            }
            i += 1;
        }
        false
    }

    /// Whether slot `index` exists and has room for another bullet.
    pub fn slot_is_open(&self, index: usize) -> (open: bool)
        requires
            self.wf(),
        ensures
            open == slot_open(self@, index),
    {
        index < MAX_BULLETS && self.board[index].len() < MAX_BULLETS
    }

    pub fn is_full(&self) -> (full: bool)
        requires
            self.wf(),
        ensures
            full == board_full(self@),
    {
        let mut c: usize = 0;
        while c < self.board.len()
            invariant
                self.wf(),
                c <= self.board@.len(),
                forall|j: int| 0 <= j < c ==> #[trigger] self@[j].len() >= MAX_BULLETS,
            decreases self.board@.len() - c,
        {
            if self.board[c].len() < MAX_BULLETS {
                assert(self@[c as int].len() < MAX_BULLETS);
                return false;
            }
            c += 1;
        }
        true
    }
}

} // verus!
