use vstd::prelude::*;

use crate::board::board::{
    board_char, board_full, board_text, board_values, column_text, fits_five_slots,
    get_board_from_string, lemma_board_text_roundtrip, padded, result_code, single_digit_values,
    split_columns, valid_board, GameResult, Slot, MAX_BULLETS,
};
use crate::board::board_server::{
    bool_text, first_winner, place_parses, request_args, valid_model, winner_reply, ServerModel,
    DONE, EWAITING_FOR_PLAYER,
};
use crate::board::color::{is_player_color, Color};
use crate::text::{
    bool_parse_error, char_to_digit, decimal_digit, decimal_text, is_numeral, joined,
    lemma_decimal_text, lemma_split_words, lemma_trim_nothing, numeral_value, parse_bool,
    parse_u8, split_at_spaces, split_spaces, texts, trim, trimmed, u8_parse_error, u8_to_text,
    usize_to_text, usize_parse_error, parse_usize, white_space,
};

verus! {

// ----------------------------------------------------------------------
// What a player sends.
// ----------------------------------------------------------------------

/// The request that registers a player.
pub const REGISTER_REQUEST: &'static str = "register";

/// The request for the board's text.
pub const GET_BOARD_REQUEST: &'static str = "get_board";

/// The request for how the game stands.
pub const GET_WINNER_REQUEST: &'static str = "get_winner";

/// The request that starts a new game.
pub const RESET_BOARD_REQUEST: &'static str = "reset_board";

/// `can_place <colour>`: may the player of this colour drop a bullet now.
pub fn can_place_request(color: &Color) -> (request: String)
    ensures
        request@ == "can_place "@ + decimal_text(color.value as nat),
{
    "can_place ".to_string().concat(u8_to_text(color.value).as_str())
}

/// `place <slot> <colour>`: drop a bullet of this colour into this slot.
pub fn place_request(slot: &Slot, color: &Color) -> (request: String)
    ensures
        request@ == "place "@ + decimal_text(slot.index as nat) + " "@ + decimal_text(
            color.value as nat,
        ),
{
    "place ".to_string().concat(usize_to_text(slot.index).as_str()).concat(" ").concat(
        u8_to_text(color.value).as_str(),
    )
}

// ----------------------------------------------------------------------
// How a player reads what the server answers.
// ----------------------------------------------------------------------

/// The pieces of a reply: its text trimmed and cut at each space.
pub open spec fn reply_words(reply: Seq<char>) -> Seq<Seq<char>> {
    split_at_spaces(trimmed(reply))
}

/// The pieces of a reply.
fn reply_pieces(reply: &str) -> (words: Vec<String>)
    ensures
        words@.len() >= 1,
        texts(words@) == reply_words(reply@),
{
    let text = trim(reply);
    let words = split_spaces(text.as_str());
    proof {
        crate::text::lemma_split_at_spaces_len(trimmed(reply@));
    }
    words
}

/// The colour that the server handed out, from its answer to `register`.
pub fn register_answer(reply: &str) -> (r: Result<u8, String>)
    ensures
        ({
            let w = reply_words(reply@)[0];
            match r {
                Ok(v) => is_numeral(w) && v as nat == numeral_value(w),
                Err(e) => !(is_numeral(w) && numeral_value(w) <= u8::MAX) && e@ == u8_parse_error(
                    w,
                ),
            }
        }),
{
    let words = reply_pieces(reply);
    proof {
        assert(texts(words@)[0] == words@[0]@);
    }
    parse_u8(words[0].as_str())
}

/// Whether the server lets the player drop a bullet, from its answer to `can_place`.
pub fn can_place_answer(reply: &str) -> (r: Result<bool, String>)
    ensures
        ({
            let w = reply_words(reply@)[0];
            match r {
                Ok(b) => (b && w == "true"@) || (!b && w == "false"@),
                Err(e) => w != "true"@ && w != "false"@ && e@ == bool_parse_error(w),
            }
        }),
{
    let words = reply_pieces(reply);
    proof {
        assert(texts(words@)[0] == words@[0]@);
    }
    parse_bool(words[0].as_str())
}

/// The answer to `place`: accepted when it reads `Done` once trimmed; any
/// other reply is the error, as it came.
pub fn place_answer(reply: &str) -> (r: Result<bool, String>)
    ensures
        trimmed(reply@) == DONE@ ==> r == Ok::<bool, String>(true),
        trimmed(reply@) != DONE@ ==> (r matches Err(e) && e@ == reply@),
{
    let text = trim(reply);
    if text == DONE.to_string() {
        Ok(true)
    } else {
        Err(reply.to_string())
    }
}

/// The answer to `reset_board`: accepted when it is exactly `Done` or the
/// waiting notice; any other reply is the error, as it came.
pub fn reset_answer(reply: &str) -> (r: Result<bool, String>)
    ensures
        (reply@ == DONE@ || reply@ == EWAITING_FOR_PLAYER@) ==> r == Ok::<bool, String>(true),
        !(reply@ == DONE@ || reply@ == EWAITING_FOR_PLAYER@) ==> (r matches Err(e) && e@
            == reply@),
{
    let text = reply.to_string();
    if text == DONE.to_string() || text == EWAITING_FOR_PLAYER.to_string() {
        Ok(true)
    } else {
        Err(text)
    }
}

/// How the game stands for a player, from the answer to `get_winner`.
#[derive(Clone, Copy, PartialEq, Eq, Structural, Debug)]
pub enum WinnerNews {
    /// The board is full and nobody won.
    NoWinner,
    /// The game goes on.
    Undecided,
    /// The player's colour won.
    YouWon,
    /// The other colour won.
    YouLost,
}

impl WinnerNews {
    /// Whether the round is over.
    pub fn is_over(&self) -> (over: bool)
        ensures
            over == (*self != WinnerNews::Undecided),
    {
        match self {
            WinnerNews::Undecided => false,
            _ => true,
        }
    }
}

pub open spec fn winner_news(words: Seq<Seq<char>>, my_color: u8) -> Result<WinnerNews, Seq<char>> {
    let w0 = words[0];
    if !(is_numeral(w0) && numeral_value(w0) <= u8::MAX) {
        Err(u8_parse_error(w0))
    } else {
        let code = numeral_value(w0);
        if code == result_code(GameResult::NoWinner) {
            Ok(WinnerNews::NoWinner)
        } else if code == result_code(GameResult::Winner) {
            if words.len() < 2 {
                Err("Incomplete response from server"@)
            } else if !(is_numeral(words[1]) && numeral_value(words[1]) <= u8::MAX) {
                Err(u8_parse_error(words[1]))
            } else if numeral_value(words[1]) == my_color {
                Ok(WinnerNews::YouWon)
            } else {
                Ok(WinnerNews::YouLost)
            }
        } else {
            Ok(WinnerNews::Undecided)
        }
    }
}

/// How the game stands for the player of `my_color`, from the answer to
/// `get_winner`.
pub fn winner_answer(reply: &str, my_color: u8) -> (r: Result<WinnerNews, String>)
    ensures
        match r {
            Ok(n) => winner_news(reply_words(reply@), my_color) == Ok::<WinnerNews, Seq<char>>(n),
            Err(e) => winner_news(reply_words(reply@), my_color) == Err::<WinnerNews, Seq<char>>(
                e@,
            ),
        },
{
    let words = reply_pieces(reply);
    let ghost w = texts(words@);
    proof {
        assert(w[0] == words@[0]@);
    }
    let res: u8 = match parse_u8(words[0].as_str()) {
        Ok(r) => r,
        Err(e) => {
            return Err(e);
        },
    };
    match GameResult::from_u8(res) {
        Some(GameResult::NoWinner) => Ok(WinnerNews::NoWinner),
        Some(GameResult::Unknown) => Ok(WinnerNews::Undecided),
        Some(GameResult::Winner) => {
            if words.len() < 2 {
                return Err("Incomplete response from server".to_string());
            }
            assert(w[1] == words@[1]@);
            let winner: u8 = match parse_u8(words[1].as_str()) {
                Ok(val) => val,
                Err(e) => {
                    return Err(e);
                },
            };
            if winner == my_color {
                Ok(WinnerNews::YouWon)
            } else {
                Ok(WinnerNews::YouLost)
            }
        },
        None => Ok(WinnerNews::Undecided),
    }
}

/// Whether reading `s` as a board's text stays within the five slots (see
/// `fits_five_slots`).
pub fn board_text_fits(s: &str) -> (fits: bool)
    ensures
        fits == fits_five_slots(s@),
{
    let n = s.unicode_len();
    let mut col: usize = 0;
    let mut i: usize = 0;
    while i < n
        invariant
            n == s@.len(),
            i <= n,
            forall|k: int| 0 <= k < i ==> board_char(#[trigger] s@[k]),
            col as int == if split_columns(s@.take(i as int)).len() - 1 < usize::MAX {
                split_columns(s@.take(i as int)).len() - 1
            } else {
                usize::MAX as int
            },
            forall|j: int|
                0 <= j < i && decimal_digit(s@[j]) is Some ==> #[trigger] split_columns(
                    s@.take(j),
                ).len() <= MAX_BULLETS,
        decreases n - i,
    {
        let c = s.get_char(i);
        proof {
            assert(s@.take(i + 1).drop_last() =~= s@.take(i as int));
            assert(s@.take(i + 1).last() == c);
            crate::board::board::lemma_split_columns_len(s@.take(i as int));
        }
        if c == ';' {
            col = col.saturating_add(1);
        } else {
            match char_to_digit(c) {
                Some(_) => {
                    if col >= MAX_BULLETS {
                        return false;
                    }
                    proof {
                        let p = split_columns(s@.take(i as int));
                        assert(split_columns(s@.take(i + 1)).len() == p.len());
                    }
                },
                None => {
                    proof {
                        assert forall|j: int|
                            0 <= j < s@.len() && decimal_digit(s@[j]) is Some && (forall|k: int|
                                0 <= k < j ==> board_char(#[trigger] s@[k]))
                                implies #[trigger] split_columns(s@.take(j)).len()
                            <= MAX_BULLETS by {
                            if j > i {
                                assert(!board_char(s@[i as int]));
                            }
                        }
                    }
                    return true;
                },
            }
        }
        i += 1;
    }
    true
}

/// Whether the board text of a reply stays within the five slots, which
/// `board_answer` asks of it.
pub fn board_reply_fits(reply: &str) -> (fits: bool)
    ensures
        fits == fits_five_slots(reply_words(reply@)[0]),
{
    let words = reply_pieces(reply);
    proof {
        assert(texts(words@)[0] == words@[0]@);
    }
    board_text_fits(words[0].as_str())
}

/// The board, from the answer to `get_board`.
pub fn board_answer(reply: &str) -> (r: Result<Vec<Vec<Color>>, String>)
    requires
        fits_five_slots(reply_words(reply@)[0]),
    ensures
        ({
            let w = reply_words(reply@)[0];
            &&& r is Ok <==> forall|i: int| 0 <= i < w.len() ==> board_char(#[trigger] w[i])
            &&& r matches Ok(b) ==> board_values(b@) == padded(split_columns(w))
            &&& r matches Err(e) ==> e@ == "failed to get board from string"@
        }),
{
    let words = reply_pieces(reply);
    proof {
        assert(texts(words@)[0] == words@[0]@);
    }
    let text = words[0].clone();
    match get_board_from_string(text) {
        Some(b) => Ok(b),
        None => Err("failed to get board from string".to_string()),
    }
}

} // verus!

verus! {

// ----------------------------------------------------------------------
// The server and its players read each other right.
// ----------------------------------------------------------------------

/// A single word without white space or spaces is the one piece of a reply.
proof fn lemma_single_word(w: Seq<char>)
    requires
        w.len() > 0,
        forall|i: int| 0 <= i < w.len() ==> !white_space(#[trigger] w[i]) && w[i] != ' ',
    ensures
        reply_words(w) == seq![w],
{
    assert forall|k: int, i: int| 0 <= k < seq![w].len() && 0 <= i < seq![w][k].len() implies #[trigger] seq![w][k][i]
        != ' ' by {
        assert(seq![w][k] == w);
    }
    assert(!white_space(w[0]) && !white_space(w[w.len() - 1]));
    lemma_trim_nothing(w);
    lemma_split_words(seq![w]);
    assert(joined(seq![w]) == w);
}

proof fn single_word_decimal(n: nat)
    ensures
        reply_words(decimal_text(n)) == seq![decimal_text(n)],
{
    let d = decimal_text(n);
    lemma_decimal_text(n);
    assert forall|i: int| 0 <= i < d.len() implies !white_space(#[trigger] d[i]) && d[i] != ' ' by {
        assert(decimal_digit(d[i]) is Some);
    }
    lemma_single_word(d);
}

/// The server reads back the slot and colour of a `place` request.
pub proof fn lemma_place_request_read(index: usize, color: u8)
    ensures
        ({
            let args = request_args(
                "place "@ + decimal_text(index as nat) + " "@ + decimal_text(color as nat),
            );
            &&& args[0] == "place"@
            &&& place_parses(args)
            &&& numeral_value(args[1]) == index
            &&& numeral_value(args[2]) == color
        }),
{
    reveal_strlit("place ");
    reveal_strlit("place");
    reveal_strlit(" ");
    let d1 = decimal_text(index as nat);
    let d2 = decimal_text(color as nat);
    lemma_decimal_text(index as nat);
    lemma_decimal_text(color as nat);
    let words = seq!["place"@, d1, d2];
    let req = "place "@ + d1 + " "@ + d2;
    assert(joined(words) =~= req) by {
        let w1 = seq!["place"@];
        let w2 = seq!["place"@, d1];
        assert(words.drop_last() =~= w2);
        assert(w2.drop_last() =~= w1);
        assert(joined(w1) == "place"@);
        assert(joined(w2) == joined(w1) + seq![' '] + d1);
        assert(joined(words) == joined(w2) + seq![' '] + d2);
        assert("place "@ =~= "place"@ + seq![' ']);
        assert(" "@ =~= seq![' ']);
    }
    assert forall|k: int, i: int| 0 <= k < words.len() && 0 <= i < words[k].len() implies #[trigger] words[k][i]
        != ' ' by {
        if k == 1 {
            assert(decimal_digit(d1[i]) is Some);
        } else if k == 2 {
            assert(decimal_digit(d2[i]) is Some);
        }
    }
    lemma_split_words(words);
    assert(decimal_digit(d2[d2.len() - 1]) is Some);
    assert(req.last() == d2.last());
    lemma_trim_nothing(req);
}

/// The server reads back the colour of a `can_place` request.
pub proof fn lemma_can_place_request_read(color: u8)
    ensures
        ({
            let args = request_args("can_place "@ + decimal_text(color as nat));
            &&& args[0] == "can_place"@
            &&& args.len() == 2
            &&& is_numeral(args[1])
            &&& numeral_value(args[1]) == color
        }),
{
    reveal_strlit("can_place ");
    reveal_strlit("can_place");
    let d = decimal_text(color as nat);
    lemma_decimal_text(color as nat);
    let words = seq!["can_place"@, d];
    let req = "can_place "@ + d;
    assert(joined(words) =~= req) by {
        let w1 = seq!["can_place"@];
        assert(words.drop_last() =~= w1);
        assert(joined(w1) == "can_place"@);
        assert(joined(words) == joined(w1) + seq![' '] + d);
        assert("can_place "@ =~= "can_place"@ + seq![' ']);
    }
    assert forall|k: int, i: int| 0 <= k < words.len() && 0 <= i < words[k].len() implies #[trigger] words[k][i]
        != ' ' by {
        if k == 1 {
            assert(decimal_digit(d[i]) is Some);
        }
    }
    lemma_split_words(words);
    assert(decimal_digit(d[d.len() - 1]) is Some);
    lemma_trim_nothing(req);
}

/// A player reads back the colour that `register` hands out.
pub proof fn lemma_register_reply_read(color: u8)
    ensures
        reply_words(decimal_text(color as nat)) == seq![decimal_text(color as nat)],
        is_numeral(decimal_text(color as nat)),
        numeral_value(decimal_text(color as nat)) == color,
{
    lemma_decimal_text(color as nat);
    single_word_decimal(color as nat);
}

/// A player reads back the answer to `can_place`.
pub proof fn lemma_can_place_reply_read(b: bool)
    ensures
        reply_words(bool_text(b)) == seq![bool_text(b)],
{
    reveal_strlit("true");
    reveal_strlit("false");
    lemma_single_word(bool_text(b));
}

/// A player reads back the `Done` that accepts a `place`.
pub proof fn lemma_done_reply_read()
    ensures
        trimmed(DONE@) == DONE@,
{
    reveal_strlit("Done");
    lemma_trim_nothing(DONE@);
}

/// A player reads back how the game stands: who won, or whether the board
/// is full.
pub proof fn lemma_winner_reply_read(m: ServerModel, my_color: u8)
    requires
        valid_model(m),
    ensures
        winner_news(reply_words(winner_reply(m)), my_color) == match first_winner(
            m.board,
            m.players,
        ) {
            Some(k) => if k == my_color {
                Ok::<WinnerNews, Seq<char>>(WinnerNews::YouWon)
            } else {
                Ok(WinnerNews::YouLost)
            },
            None => if board_full(m.board) {
                Ok(WinnerNews::NoWinner)
            } else {
                Ok(WinnerNews::Undecided)
            },
        },
{
    reveal_strlit(" ");
    lemma_decimal_text(0);
    lemma_decimal_text(1);
    lemma_decimal_text(2);
    match first_winner(m.board, m.players) {
        Some(k) => {
            lemma_decimal_text(k as nat);
            let d2 = decimal_text(2);
            let dk = decimal_text(k as nat);
            let words = seq![d2, dk];
            assert(joined(words) =~= d2 + " "@ + dk) by {
                assert(words.drop_last() =~= seq![d2]);
                assert(joined(seq![d2]) == d2);
                assert(joined(words) == joined(seq![d2]) + seq![' '] + dk);
                assert(" "@ =~= seq![' ']);
            }
            assert forall|j: int, i: int| 0 <= j < words.len() && 0 <= i < words[j].len() implies #[trigger] words[j][i]
                != ' ' by {
                if j == 0 {
                    assert(decimal_digit(d2[i]) is Some);
                } else {
                    assert(decimal_digit(dk[i]) is Some);
                }
            }
            lemma_split_words(words);
            let reply = d2 + " "@ + dk;
            assert(reply[0] == d2[0]);
            assert(decimal_digit(d2[0]) is Some);
            assert(reply.last() == dk.last());
            assert(decimal_digit(dk[dk.len() - 1]) is Some);
            lemma_trim_nothing(reply);
        },
        None => {
            if board_full(m.board) {
                single_word_decimal(0);
            } else {
                single_word_decimal(1);
            }
        },
    }
}

/// A player reads back the board that `get_board` sends.
pub proof fn lemma_board_reply_read(b: Seq<Seq<u8>>)
    requires
        valid_board(b),
    ensures
        reply_words(board_text(b)) == seq![board_text(b)],
        fits_five_slots(board_text(b)),
        padded(split_columns(board_text(b))) == b,
{
    assert(single_digit_values(b)) by {
        assert forall|c: int, r: int| 0 <= c < b.len() && 0 <= r < b[c].len() implies #[trigger] b[c][r]
            < 10 by {
            assert(is_player_color(b[c][r]));
        }
    }
    lemma_board_text_roundtrip(b);
    let t = board_text(b);
    assert forall|i: int| 0 <= i < t.len() implies !white_space(#[trigger] t[i]) && t[i] != ' ' by {
        assert(board_char(t[i]));
    }
    if t.len() > 0 {
        lemma_single_word(t);
    } else {
        assert(false) by {
            assert(board_text(b) == board_text(b.drop_last()) + column_text(b.last()) + seq![';']);
        }
    }
}

} // verus!

verus! {

// ----------------------------------------------------------------------
// Waiting for one's turn.
// ----------------------------------------------------------------------

/// What a player has seen while waiting for its turn.
pub struct WaitState {
    /// The other player moved while this one waited, so the board must be
    /// shown again.
    pub need_refresh: bool,
    /// The player has not yet been told that it waits.
    pub prompt: bool,
}

/// What a waiting player does next.
#[derive(Clone, Copy, PartialEq, Eq, Structural, Debug)]
pub enum WaitAction {
    /// It is the player's turn; show the board again first if asked.
    Proceed { need_refresh: bool },
    /// Ask again after a pause; tell the player that it waits if asked.
    Wait { announce: bool },
}

impl WaitState {
    pub fn new() -> (s: WaitState)
        ensures
            !s.need_refresh,
            s.prompt,
    {
        WaitState { need_refresh: false, prompt: true }
    }

    /// Takes the server's answer to `can_place` (or the failure to get one).
    pub fn step(&mut self, answer: &Result<bool, String>) -> (action: WaitAction)
        ensures
            match answer {
                Ok(true) => {
                    &&& action == WaitAction::Proceed { need_refresh: old(self).need_refresh }
                    &&& *final(self) == *old(self)
                },
                Ok(false) => {
                    &&& action == WaitAction::Wait { announce: old(self).prompt }
                    &&& final(self).need_refresh
                    &&& !final(self).prompt
                },
                Err(_) => {
                    &&& action == WaitAction::Wait { announce: false }
                    &&& *final(self) == *old(self)
                },
            },
    {
        match answer {
            Ok(true) => WaitAction::Proceed { need_refresh: self.need_refresh },
            Ok(false) => {
                let announce = self.prompt;
                if self.prompt {
                    self.prompt = false;
                }
                self.need_refresh = true;
                WaitAction::Wait { announce }
            },
            Err(_) => WaitAction::Wait { announce: false },
        }
    }
}

/// The slot that a player typed: the line trimmed, read as a number.
pub fn slot_from_input(line: &str) -> (r: Result<Slot, String>)
    ensures
        ({
            let t = trimmed(line@);
            match r {
                Ok(slot) => is_numeral(t) && slot.index as nat == numeral_value(t),
                Err(e) => !(is_numeral(t) && numeral_value(t) <= usize::MAX) && e@
                    == usize_parse_error(t),
            }
        }),
{
    let text = trim(line);
    match parse_usize(text.as_str()) {
        Ok(i) => Ok(Slot { index: i }),
        Err(e) => Err(e),
    }
}

} // verus!

verus! {

// ----------------------------------------------------------------------
// The course of a round, as a player plays it.
// ----------------------------------------------------------------------

/// Where a player is within a round.
#[derive(Clone, Copy, PartialEq, Eq, Structural, Debug)]
pub enum RoundStage {
    /// Show the board.
    ShowBoard,
    /// Ask whether the round is over.
    AskWinner,
    /// Wait until it is the player's turn.
    WaitTurn,
    /// Show the board again, after the other player moved.
    ShowBoardAgain,
    /// Ask again whether the round is over.
    AskWinnerAgain,
    /// Read the slot that the player chooses, and drop a bullet there.
    ReadMove,
}

/// How the work of a stage turned out.
#[derive(Clone, Copy, PartialEq, Eq, Structural, Debug)]
pub enum RoundEvent {
    /// The stage did its work.
    Done,
    /// The stage's request failed.
    Failed,
    /// The round is over.
    Over,
    /// The round goes on.
    NotOver,
    /// The turn came; `true` when the other player moved meanwhile.
    TurnCame(bool),
}

/// The stage that follows, or none when the round is over.
pub open spec fn next_stage(stage: RoundStage, event: RoundEvent) -> Option<RoundStage> {
    match (stage, event) {
        (RoundStage::ShowBoard, RoundEvent::Done) => Some(RoundStage::AskWinner),
        (RoundStage::AskWinner, RoundEvent::Over) => None,
        (RoundStage::AskWinner, RoundEvent::NotOver) => Some(RoundStage::WaitTurn),
        (RoundStage::WaitTurn, RoundEvent::TurnCame(true)) => Some(RoundStage::ShowBoardAgain),
        (RoundStage::WaitTurn, _) => Some(RoundStage::ReadMove),
        (RoundStage::ShowBoardAgain, RoundEvent::Done) => Some(RoundStage::AskWinnerAgain),
        (RoundStage::AskWinnerAgain, RoundEvent::Over) => None,
        (RoundStage::AskWinnerAgain, RoundEvent::NotOver) => Some(RoundStage::ReadMove),
        (RoundStage::ReadMove, _) => Some(RoundStage::ShowBoard),
        _ => Some(RoundStage::ShowBoard),
    }
}

impl RoundStage {
    /// The first stage of a round, once the player is registered.
    pub fn first() -> (stage: RoundStage)
        ensures
            stage == RoundStage::ShowBoard,
    {
        RoundStage::ShowBoard
    }

    /// The stage that follows this one, given how it turned out; `None` when
    /// the round is over. A failed request starts the loop again from the
    /// board.
    pub fn next(&self, event: RoundEvent) -> (next: Option<RoundStage>)
        ensures
            next == next_stage(*self, event),
    {
        match (*self, event) {
            (RoundStage::ShowBoard, RoundEvent::Done) => Some(RoundStage::AskWinner),
            (RoundStage::AskWinner, RoundEvent::Over) => None,
            (RoundStage::AskWinner, RoundEvent::NotOver) => Some(RoundStage::WaitTurn),
            (RoundStage::WaitTurn, RoundEvent::TurnCame(true)) => Some(RoundStage::ShowBoardAgain),
            (RoundStage::WaitTurn, _) => Some(RoundStage::ReadMove),
            (RoundStage::ShowBoardAgain, RoundEvent::Done) => Some(RoundStage::AskWinnerAgain),
            (RoundStage::AskWinnerAgain, RoundEvent::Over) => None,
            (RoundStage::AskWinnerAgain, RoundEvent::NotOver) => Some(RoundStage::ReadMove),
            (RoundStage::ReadMove, _) => Some(RoundStage::ShowBoard),
            _ => Some(RoundStage::ShowBoard),
        }
    }
}

/// A round ends only when a question about the winner is answered with
/// "over", and a player never reads a move before it was its turn and the
/// round was seen to go on.
pub proof fn lemma_round_flow(stage: RoundStage, event: RoundEvent)
    ensures
        next_stage(stage, event) is None ==> event == RoundEvent::Over && (stage
            == RoundStage::AskWinner || stage == RoundStage::AskWinnerAgain),
        next_stage(stage, event) == Some(RoundStage::ReadMove) ==> (stage == RoundStage::WaitTurn
            && event != RoundEvent::TurnCame(true)) || (stage == RoundStage::AskWinnerAgain && event
            == RoundEvent::NotOver),
{
}

} // verus!
