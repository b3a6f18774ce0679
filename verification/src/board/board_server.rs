use vstd::prelude::*;

use super::board::{
    board_full, board_text, dropped, five_in_line, result_code, slot_open, Board, GameResult,
    Slot, MAX_BULLETS, MAX_PLAYERS,
};
use super::color::{is_player_color, Color, GREEN, RED};
use crate::text::{
    decimal_text, is_numeral, numeral_value, parse_u8, parse_usize, split_at_spaces, split_spaces,
    texts, trim, trimmed, u8_parse_error, u8_to_text, usize_parse_error,
};

verus! {

/// The reply to a command that succeeded.
pub const DONE: &'static str = "Done";

/// The reply to a registration when both players are registered.
pub const EUNREGISTRABLE: &'static str = "All players have been registered";

/// The reply to a command that lacks arguments.
pub const ENO_ENOUGH_ARGUMENT: &'static str = "No enough arguments";

/// The reply to a reset before both players are registered.
pub const EWAITING_FOR_PLAYER: &'static str = "Waiting for player";

/// A registered player.
pub struct PlayerProfile {
    color: Color,
}

/// The state of a game as the server keeps it.
pub struct ServerModel {
    /// The board, one sequence of colour values per slot, bottom first.
    pub board: Seq<Seq<u8>>,
    /// The colours of the registered players, in the order they registered.
    pub players: Seq<u8>,
    /// The colours still to be handed out; the last one goes next.
    pub avail: Seq<u8>,
    /// The index among the players of the one whose turn it is.
    pub next_turn: int,
}

/// The colours a new game hands out, the last one first.
pub open spec fn initial_colors() -> Seq<u8> {
    seq![GREEN, RED]
}

/// The colours in the order in which the players get them.
pub open spec fn registration_order() -> Seq<u8> {
    seq![RED, GREEN]
}

/// A state that the server can reach.
pub open spec fn valid_model(m: ServerModel) -> bool {
    &&& m.players.len() + m.avail.len() == MAX_PLAYERS
    &&& m.avail == initial_colors().take(m.avail.len() as int)
    &&& m.players == registration_order().take(m.players.len() as int)
    &&& 0 <= m.next_turn < MAX_PLAYERS
}

// ----------------------------------------------------------------------
// What the server answers to each command, and how its state changes.
// ----------------------------------------------------------------------

pub open spec fn register_reply(m: ServerModel) -> (ServerModel, Seq<char>) {
    if m.avail.len() > 0 {
        let color = m.avail.last();
        (
            ServerModel { players: m.players.push(color), avail: m.avail.drop_last(), ..m },
            decimal_text(color as nat),
        )
    } else {
        (m, EUNREGISTRABLE@)
    }
}

/// A `place` command whose slot and colour both parse.
pub open spec fn place_parses(args: Seq<Seq<char>>) -> bool {
    &&& args.len() >= 3
    &&& is_numeral(args[1]) && numeral_value(args[1]) <= usize::MAX
    &&& is_numeral(args[2]) && numeral_value(args[2]) <= u8::MAX
}

/// A `place` command that drops a bullet.
pub open spec fn place_drops(m: ServerModel, args: Seq<Seq<char>>) -> bool {
    &&& place_parses(args)
    &&& is_player_color(numeral_value(args[2]) as u8)
    &&& slot_open(m.board, numeral_value(args[1]) as usize)
}

pub open spec fn place_reply(m: ServerModel, args: Seq<Seq<char>>) -> (ServerModel, Seq<char>) {
    if args.len() < 3 {
        (m, ENO_ENOUGH_ARGUMENT@)
    } else if !(is_numeral(args[1]) && numeral_value(args[1]) <= usize::MAX) {
        (m, usize_parse_error(args[1]))
    } else if !(is_numeral(args[2]) && numeral_value(args[2]) <= u8::MAX) {
        (m, u8_parse_error(args[2]))
    } else {
        let index = numeral_value(args[1]) as usize;
        let color = numeral_value(args[2]) as u8;
        if !is_player_color(color) {
            (m, "Error: "@ + "invalid color"@)
        } else if !slot_open(m.board, index) {
            (m, "Error: "@ + "invalid slot index or slot is full"@)
        } else {
            (
                ServerModel {
                    board: dropped(m.board, index as int, color),
                    next_turn: (m.next_turn + 1) % (m.players.len() as int),
                    ..m
                },
                DONE@,
            )
        }
    }
}

/// The colour of the first player, in registration order, with five in a line.
pub open spec fn first_winner(b: Seq<Seq<u8>>, players: Seq<u8>) -> Option<u8>
    decreases players.len(),
{
    if players.len() == 0 {
        None
    } else if five_in_line(b, players[0]) {
        Some(players[0])
    } else {
        first_winner(b, players.drop_first())
    }
}

pub open spec fn winner_reply(m: ServerModel) -> Seq<char> {
    match first_winner(m.board, m.players) {
        Some(color) => decimal_text(result_code(GameResult::Winner) as nat) + " "@ + decimal_text(
            color as nat,
        ),
        None => if board_full(m.board) {
            decimal_text(result_code(GameResult::NoWinner) as nat)
        } else {
            decimal_text(result_code(GameResult::Unknown) as nat)
        },
    }
}

pub open spec fn bool_text(b: bool) -> Seq<char> {
    if b {
        "true"@
    } else {
        "false"@
    }
}

pub open spec fn can_place_reply(m: ServerModel, args: Seq<Seq<char>>) -> Seq<char> {
    if args.len() < 2 {
        ENO_ENOUGH_ARGUMENT@
    } else if m.players.len() < MAX_PLAYERS {
        bool_text(false)
    } else if !(is_numeral(args[1]) && numeral_value(args[1]) <= u8::MAX) {
        u8_parse_error(args[1])
    } else {
        bool_text(numeral_value(args[1]) == m.players[m.next_turn])
    }
}

pub open spec fn reset_reply(m: ServerModel) -> (ServerModel, Seq<char>) {
    if m.players.len() < MAX_PLAYERS {
        (m, EWAITING_FOR_PLAYER@)
    } else {
        (
            ServerModel {
                board: seq![Seq::<u8>::empty(); 5],
                players: Seq::empty(),
                avail: initial_colors(),
                ..m
            },
            DONE@,
        )
    }
}

/// The pieces of a request: its text trimmed and cut at each space.
pub open spec fn request_args(request: Seq<char>) -> Seq<Seq<char>> {
    split_at_spaces(trimmed(request))
}

/// The state after a request, and the reply if the command is known.
pub open spec fn respond(m: ServerModel, request: Seq<char>) -> (ServerModel, Option<Seq<char>>) {
    let args = request_args(request);
    let command = args[0];
    if command == "register"@ {
        let (n, r) = register_reply(m);
        (n, Some(r))
    } else if command == "place"@ {
        let (n, r) = place_reply(m, args);
        (n, Some(r))
    } else if command == "get_board"@ {
        (m, Some(board_text(m.board)))
    } else if command == "get_winner"@ {
        (m, Some(winner_reply(m)))
    } else if command == "reset_board"@ {
        let (n, r) = reset_reply(m);
        (n, Some(r))
    } else if command == "can_place"@ {
        (m, Some(can_place_reply(m, args)))
    } else {
        (m, None)
    }
}

/// The one request on which the server stops: a bullet dropped before any
/// player registered leaves no one to hand the turn to.
pub open spec fn request_panics(m: ServerModel, request: Seq<char>) -> bool {
    let args = request_args(request);
    &&& args[0] == "place"@
    &&& place_drops(m, args)
    &&& m.players.len() == 0
}

pub open spec fn reply_matches(r: Option<String>, expected: Option<Seq<char>>) -> bool {
    match r {
        Some(t) => expected == Some(t@),
        None => expected is None,
    }
}

/// Each colour goes to at most one player, and every colour handed out is a
/// player colour that is no longer available.
pub proof fn lemma_colors_unique(m: ServerModel)
    requires
        valid_model(m),
    ensures
        m.players.no_duplicates(),
        forall|i: int| 0 <= i < m.players.len() ==> is_player_color(#[trigger] m.players[i]),
        forall|i: int, j: int|
            0 <= i < m.players.len() && 0 <= j < m.avail.len() ==> #[trigger] m.players[i]
                != #[trigger] m.avail[j],
{
}

/// Once both players are registered, exactly one of them may drop a bullet.
pub proof fn lemma_one_player_to_move(m: ServerModel)
    requires
        valid_model(m),
        m.players.len() == MAX_PLAYERS,
    ensures
        forall|i: int|
            0 <= i < MAX_PLAYERS ==> (#[trigger] m.players[i] == m.players[m.next_turn] <==> i
                == m.next_turn),
{
}

/// A bullet dropped while both players are registered hands the turn to
/// the other player.
pub proof fn lemma_turns_alternate(m: ServerModel, request: Seq<char>)
    requires
        valid_model(m),
        m.players.len() == MAX_PLAYERS,
        request_args(request)[0] == "place"@,
        place_drops(m, request_args(request)),
    ensures
        respond(m, request).0.next_turn == 1 - m.next_turn,
        respond(m, request).0.board == dropped(
            m.board,
            numeral_value(request_args(request)[1]) as int,
            numeral_value(request_args(request)[2]) as u8,
        ),
{
    reveal_strlit("place");
    reveal_strlit("register");
    let args = request_args(request);
    assert(args[0] != "register"@) by {
        assert("place"@.len() != "register"@.len());
    }
    assert(respond(m, request) == {
        let (n, r) = place_reply(m, args);
        (n, Some(r))
    });
    assert((m.next_turn + 1) % 2 == 1 - m.next_turn);
}

/// The six command words are different from each other.
proof fn lemma_command_words_differ()
    ensures
        "register"@ != "place"@,
        "register"@ != "get_board"@,
        "register"@ != "get_winner"@,
        "register"@ != "reset_board"@,
        "register"@ != "can_place"@,
        "place"@ != "get_board"@,
        "place"@ != "get_winner"@,
        "place"@ != "reset_board"@,
        "place"@ != "can_place"@,
        "get_board"@ != "get_winner"@,
        "get_board"@ != "reset_board"@,
        "get_board"@ != "can_place"@,
        "get_winner"@ != "reset_board"@,
        "get_winner"@ != "can_place"@,
        "reset_board"@ != "can_place"@,
{
    reveal_strlit("register");
    reveal_strlit("place");
    reveal_strlit("get_board");
    reveal_strlit("get_winner");
    reveal_strlit("reset_board");
    reveal_strlit("can_place");
    assert("register"@.len() == 8);
    assert("place"@.len() == 5);
    assert("get_board"@.len() == 9);
    assert("get_winner"@.len() == 10);
    assert("reset_board"@.len() == 11);
    assert("can_place"@.len() == 9);
    assert("get_board"@[0] != "can_place"@[0]);
}

/// The winner found among players is one of them and has five in a line;
/// none is found only when no player has five in a line.
proof fn lemma_first_winner(b: Seq<Seq<u8>>, players: Seq<u8>)
    ensures
        first_winner(b, players) matches Some(k) ==> players.contains(k) && five_in_line(b, k),
        first_winner(b, players) is None ==> forall|i: int|
            0 <= i < players.len() ==> !five_in_line(b, #[trigger] players[i]),
    decreases players.len(),
{
    if players.len() > 0 {
        let rest = players.drop_first();
        lemma_first_winner(b, rest);
        if !five_in_line(b, players[0]) {
            if let Some(k) = first_winner(b, rest) {
                let j = choose|j: int| 0 <= j < rest.len() && rest[j] == k;
                assert(players[j + 1] == k);
            } else {
                assert forall|i: int| 0 <= i < players.len() implies !five_in_line(
                    b,
                    #[trigger] players[i],
                ) by {
                    if i > 0 {
                        assert(players[i] == rest[i - 1]);
                    }
                }
            }
        } else {
            assert(players[0] == players[0]);
        }
    }
}

/// `get_winner` changes nothing and names a winner exactly when a registered
/// player's colour has five in a line; the colour it names is such a colour.
/// Without a winner it answers `0` on a full board and `1` otherwise.
pub proof fn lemma_get_winner_law(m: ServerModel, request: Seq<char>)
    requires
        valid_model(m),
        request_args(request)[0] == "get_winner"@,
    ensures
        respond(m, request).0 == m,
        (exists|k: u8| m.players.contains(k) && #[trigger] five_in_line(m.board, k)) ==> exists|
            k: u8,
        |
            m.players.contains(k) && #[trigger] five_in_line(m.board, k) && respond(m, request).1
                == Some(seq!['2', ' '] + decimal_text(k as nat)),
        !(exists|k: u8| m.players.contains(k) && #[trigger] five_in_line(m.board, k)) ==> respond(
            m,
            request,
        ).1 == Some(
            if board_full(m.board) {
                seq!['0']
            } else {
                seq!['1']
            },
        ),
{
    lemma_command_words_differ();
    reveal_strlit(" ");
    lemma_first_winner(m.board, m.players);
    assert(decimal_text(2) == seq!['2']);
    assert(decimal_text(0) == seq!['0']);
    assert(decimal_text(1) == seq!['1']);
    match first_winner(m.board, m.players) {
        Some(k) => {
            assert(seq!['2'] + " "@ + decimal_text(k as nat) =~= seq!['2', ' '] + decimal_text(
                k as nat,
            ));
            assert(m.players.contains(k) && five_in_line(m.board, k));
        },
        None => {
            assert forall|k: u8| !(m.players.contains(k) && #[trigger] five_in_line(m.board, k)) by {
                if m.players.contains(k) {
                    let i = choose|i: int| 0 <= i < m.players.len() && m.players[i] == k;
                    assert(!five_in_line(m.board, m.players[i]));
                }
            }
        },
    }
}

/// A `place` that the board refuses (an argument missing or unreadable, a
/// colour that is not a player's, a missing or full slot) leaves the whole
/// state as it was, whose turn it is included. One that drops a bullet
/// changes the board by that drop alone, keeps the players, and hands the
/// turn to the next player.
pub proof fn lemma_place_law(m: ServerModel, request: Seq<char>)
    requires
        valid_model(m),
        request_args(request)[0] == "place"@,
    ensures
        !place_drops(m, request_args(request)) ==> respond(m, request).0 == m,
        place_drops(m, request_args(request)) && m.players.len() > 0 ==> {
            let args = request_args(request);
            let n = respond(m, request).0;
            &&& n.board == dropped(m.board, numeral_value(args[1]) as int, numeral_value(args[2]) as u8)
            &&& n.players == m.players
            &&& n.avail == m.avail
            &&& n.next_turn == (m.next_turn + 1) % (m.players.len() as int)
            &&& respond(m, request).1 == Some(DONE@)
        },
{
    lemma_command_words_differ();
}

/// A `reset_board` with both players registered empties the board, whatever
/// it held, and lets both players register again; before that it changes
/// nothing.
pub proof fn lemma_reset_law(m: ServerModel, request: Seq<char>)
    requires
        valid_model(m),
        request_args(request)[0] == "reset_board"@,
    ensures
        m.players.len() == MAX_PLAYERS ==> {
            let n = respond(m, request).0;
            &&& n.board.len() == MAX_BULLETS
            &&& forall|c: int| 0 <= c < MAX_BULLETS ==> #[trigger] n.board[c].len() == 0
            &&& n.players.len() == 0
            &&& n.avail == seq![GREEN, RED]
            &&& n.next_turn == m.next_turn
            &&& respond(m, request).1 == Some(DONE@)
        },
        m.players.len() < MAX_PLAYERS ==> respond(m, request).0 == m && respond(m, request).1
            == Some(EWAITING_FOR_PLAYER@),
{
    lemma_command_words_differ();
}

/// With both players registered, `can_place` with a readable colour answers
/// `true` exactly when that colour's player has the turn, and changes nothing.
pub proof fn lemma_can_place_law(m: ServerModel, request: Seq<char>)
    requires
        valid_model(m),
        m.players.len() == MAX_PLAYERS,
        request_args(request)[0] == "can_place"@,
        request_args(request).len() >= 2,
        is_numeral(request_args(request)[1]),
        numeral_value(request_args(request)[1]) <= u8::MAX,
    ensures
        respond(m, request).0 == m,
        respond(m, request).1 == Some(
            if numeral_value(request_args(request)[1]) == m.players[m.next_turn] {
                "true"@
            } else {
                "false"@
            },
        ),
{
    lemma_command_words_differ();
}

/// The answer to `can_place` does not depend on the board: two states that
/// differ only in their boards get the same answer.
pub proof fn lemma_can_place_ignores_board(m1: ServerModel, m2: ServerModel, request: Seq<char>)
    requires
        request_args(request)[0] == "can_place"@,
        m1.players == m2.players,
        m1.avail == m2.avail,
        m1.next_turn == m2.next_turn,
    ensures
        respond(m1, request).1 == respond(m2, request).1,
{
    lemma_command_words_differ();
}

/// The server that referees one game between two players.
pub struct BoardServer {
    board: Board,
    players: Vec<PlayerProfile>,
    avail_colors: Vec<Color>,
    next_turn: usize,
}

impl View for BoardServer {
    type V = ServerModel;

    closed spec fn view(&self) -> ServerModel {
        ServerModel {
            board: self.board@,
            players: self.players@.map_values(|p: PlayerProfile| p.color.value),
            avail: self.avail_colors@.map_values(|c: Color| c.value),
            next_turn: self.next_turn as int,
        }
    }
}

impl BoardServer {
    pub closed spec fn wf(&self) -> bool {
        &&& self.board.wf()
        &&& valid_model(self@)
    }

    /// Every state the server reaches is valid.
    pub proof fn lemma_wf_valid(&self)
        requires
            self.wf(),
        ensures
            valid_model(self@),
    {
    }

    pub fn new() -> (server: BoardServer)
        ensures
            server.wf(),
            server@ == (ServerModel {
                board: seq![Seq::<u8>::empty(); 5],
                players: Seq::empty(),
                avail: initial_colors(),
                next_turn: MAX_PLAYERS - 1,
            }),
    {
        let server = BoardServer {
            board: Board::new(),
            players: Vec::with_capacity(MAX_PLAYERS),
            avail_colors: vec![Color::green(), Color::red()],
            next_turn: MAX_PLAYERS - 1,
        };
        proof {
            assert(server@.players =~= Seq::<u8>::empty());
            assert(server@.avail =~= initial_colors());
            assert(initial_colors().take(2) =~= initial_colors());
            assert(registration_order().take(0) =~= Seq::<u8>::empty());
        }
        server
    }

    fn register_player(&mut self) -> (reply: String)
        requires
            old(self).wf(),
        ensures
            final(self).wf(),
            (final(self)@, reply@) == register_reply(old(self)@),
    {
        if self.avail_colors.len() > 0 {
            let ghost m = self@;
            let color = self.avail_colors.pop().unwrap();
            self.players.push(PlayerProfile { color: color });
            proof {
                assert(self@.avail =~= m.avail.drop_last());
                assert(self@.players =~= m.players.push(color.value));
                assert(self@.avail =~= initial_colors().take(self@.avail.len() as int));
                if m.avail.len() == 2 {
                    assert(m.avail.last() == RED);
                    assert(m.players =~= Seq::<u8>::empty());
                } else {
                    assert(m.avail.last() == GREEN);
                    assert(m.players =~= seq![RED]);
                }
                assert(self@.players =~= registration_order().take(self@.players.len() as int));
            }
            u8_to_text(color.value)
        } else {
            EUNREGISTRABLE.to_string()
        }
    }

    fn place(&mut self, args: &Vec<String>) -> (reply: String)
        requires
            old(self).wf(),
            !(place_drops(old(self)@, texts(args@)) && old(self)@.players.len() == 0),
        ensures
            final(self).wf(),
            (final(self)@, reply@) == place_reply(old(self)@, texts(args@)),
    {
        let ghost a = texts(args@);
        if args.len() < 3 {
            return ENO_ENOUGH_ARGUMENT.to_string();
        }
        assert(a[1] == args@[1]@ && a[2] == args@[2]@);
        let index = match parse_usize(args[1].as_str()) {
            Ok(i) => i,
            Err(e) => {
                return e;
            },
        };
        let color = match parse_u8(args[2].as_str()) {
            Ok(i) => i,
            Err(e) => {
                return e;
            },
        };
        let ghost m = self@;
        match self.board.place(Slot { index: index }, &Color { value: color }) {
            Ok(_) => {
                self.next_turn = (self.next_turn + 1) % self.players.len();
                proof {
                    assert(self@.players == m.players);
                    assert(self@.avail == m.avail);
                }
                DONE.to_string()
            },
            Err(e) => {
                let reply = "Error: ".to_string().concat(e.as_str());
                reply
            },
        }
    }

    fn get_board(&self) -> (reply: String)
        requires
            self.wf(),
        ensures
            reply@ == board_text(self@.board),
    {
        self.board.get_board_as_string()
    }

    fn get_winner(&mut self) -> (reply: String)
        requires
            old(self).wf(),
        ensures
            *final(self) == *old(self),
            reply@ == winner_reply(old(self)@),
    {
        let ghost m = self@;
        let mut i: usize = 0;
        assert(m.players.subrange(0, m.players.len() as int) =~= m.players);
        while i < self.players.len()
            invariant
                *self == *old(self),
                m == old(self)@,
                self.wf(),
                i <= self.players@.len(),
                first_winner(m.board, m.players) == first_winner(
                    m.board,
                    m.players.subrange(i as int, m.players.len() as int),
                ),
            decreases self.players@.len() - i,
        {
            let color = self.players[i].color;
            proof {
                let rest = m.players.subrange(i as int, m.players.len() as int);
                assert(rest[0] == color.value);
                assert(rest.drop_first() =~= m.players.subrange(i + 1, m.players.len() as int));
                assert(is_player_color(color.value));
            }
            if self.board.is_winner(&color) {
                let reply = u8_to_text(GameResult::Winner.to_u8()).concat(" ").concat(
                    u8_to_text(color.value).as_str(),
                );
                return reply;
            }
            i += 1;
        }
        proof {
            assert(m.players.subrange(i as int, m.players.len() as int) =~= Seq::<u8>::empty());
        }
        if self.board.is_full() {
            return u8_to_text(GameResult::NoWinner.to_u8());
        }
        u8_to_text(GameResult::Unknown.to_u8())
    }

    fn can_place(&self, args: &Vec<String>) -> (reply: String)
        requires
            self.wf(),
        ensures
            reply@ == can_place_reply(self@, texts(args@)),
    {
        let ghost a = texts(args@);
        if args.len() < 2 {
            return ENO_ENOUGH_ARGUMENT.to_string();
        }
        if self.players.len() < MAX_PLAYERS {
            return "false".to_string();
        }
        assert(a[1] == args@[1]@);
        let color: u8 = match parse_u8(args[1].as_str()) {
            Ok(i) => i,
            Err(e) => {
                return e;
            },
        };
        if color == self.players[self.next_turn].color.value {
            "true".to_string()
        } else {
            "false".to_string()
        }
    }

    fn reset_board(&mut self) -> (reply: String)
        requires
            old(self).wf(),
        ensures
            final(self).wf(),
            (final(self)@, reply@) == reset_reply(old(self)@),
    {
        if self.players.len() < MAX_PLAYERS {
            return EWAITING_FOR_PLAYER.to_string();
        }
        self.board = Board::new();
        self.avail_colors = vec![Color::green(), Color::red()];
        self.players.clear();
        proof {
            assert(self@.players =~= Seq::<u8>::empty());
            assert(self@.avail =~= initial_colors());
            assert(initial_colors().take(2) =~= initial_colors());
            assert(registration_order().take(0) =~= Seq::<u8>::empty());
        }
        DONE.to_string()
    }

    /// Answers one request, as a player sends it; `None` for an unknown command.
    pub fn handle_request(&mut self, request: &str) -> (reply: Option<String>)
        requires
            old(self).wf(),
            !request_panics(old(self)@, request@),
        ensures
            final(self).wf(),
            final(self)@ == respond(old(self)@, request@).0,
            reply_matches(reply, respond(old(self)@, request@).1),
    {
        let text = trim(request);
        let cmd = split_spaces(text.as_str());
        let ghost args = texts(cmd@);
        proof {
            crate::text::lemma_split_at_spaces_len(trimmed(request@));
            assert(args[0] == cmd@[0]@);
        }
        let command = &cmd[0];
        if *command == "register".to_string() {
            Some(self.register_player())
        } else if *command == "place".to_string() {
            Some(self.place(&cmd))
        } else if *command == "get_board".to_string() {
            Some(self.get_board())
        } else if *command == "get_winner".to_string() {
            Some(self.get_winner())
        } else if *command == "reset_board".to_string() {
            Some(self.reset_board())
        } else if *command == "can_place".to_string() {
            Some(self.can_place(&cmd))
        } else {
            None
        }
    }

    /// Whether the server would stop on this request (see `request_panics`).
    pub fn panics_on(&self, request: &str) -> (p: bool)
        requires
            self.wf(),
        ensures
            p == request_panics(self@, request@),
    {
        let text = trim(request);
        let cmd = split_spaces(text.as_str());
        let ghost args = texts(cmd@);
        proof {
            crate::text::lemma_split_at_spaces_len(trimmed(request@));
            assert(args[0] == cmd@[0]@);
        }
        if !(cmd[0] == "place".to_string()) || self.players.len() > 0 || cmd.len() < 3 {
            return false;
        }
        assert(args[1] == cmd@[1]@ && args[2] == cmd@[2]@);
        let index = match parse_usize(cmd[1].as_str()) {
            Ok(i) => i,
            Err(_) => {
                return false;
            },
        };
        let color = match parse_u8(cmd[2].as_str()) {
            Ok(c) => c,
            Err(_) => {
                return false;
            },
        };
        is_player_color_exec(color) && self.board.slot_is_open(index)
    }
}

fn is_player_color_exec(value: u8) -> (b: bool)
    ensures
        b == is_player_color(value),
{
    value == GREEN || value == RED
}

} // verus!
