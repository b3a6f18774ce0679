use wuzi::board::board_server::{
    BoardServer, DONE, ENO_ENOUGH_ARGUMENT, EUNREGISTRABLE, EWAITING_FOR_PLAYER,
};

fn ask(server: &mut BoardServer, request: &str) -> Option<String> {
    assert!(!server.panics_on(request));
    server.handle_request(request)
}

fn answer(server: &mut BoardServer, request: &str) -> String {
    ask(server, request).unwrap()
}

fn two_players() -> BoardServer {
    let mut server = BoardServer::new();
    assert_eq!(answer(&mut server, "register"), "1");
    assert_eq!(answer(&mut server, "register"), "0");
    server
}

#[test]
fn registration_hands_out_red_then_green_then_refuses() {
    let mut server = BoardServer::new();
    assert_eq!(answer(&mut server, "register"), "1");
    assert_eq!(answer(&mut server, "register"), "0");
    assert_eq!(answer(&mut server, "register"), EUNREGISTRABLE);
}

#[test]
fn requests_are_trimmed() {
    let mut server = BoardServer::new();
    assert_eq!(answer(&mut server, "  register \n"), "1");
    assert_eq!(answer(&mut server, "\tget_board\r\n"), ";;;;;");
}

#[test]
fn unknown_commands_get_no_reply() {
    let mut server = BoardServer::new();
    assert_eq!(ask(&mut server, "hello"), None);
    assert_eq!(ask(&mut server, ""), None);
    assert_eq!(ask(&mut server, "Register"), None);
}

#[test]
fn green_moves_first_then_turns_alternate() {
    let mut server = two_players();
    assert_eq!(answer(&mut server, "can_place 0"), "true");
    assert_eq!(answer(&mut server, "can_place 1"), "false");
    assert_eq!(answer(&mut server, "place 2 0"), DONE);
    assert_eq!(answer(&mut server, "can_place 0"), "false");
    assert_eq!(answer(&mut server, "can_place 1"), "true");
    assert_eq!(answer(&mut server, "place 2 1"), DONE);
    assert_eq!(answer(&mut server, "can_place 0"), "true");
    assert_eq!(answer(&mut server, "get_board"), ";;01;;;");
}

#[test]
fn can_place_before_both_players_is_false() {
    let mut server = BoardServer::new();
    assert_eq!(answer(&mut server, "can_place 1"), "false");
    assert_eq!(answer(&mut server, "register"), "1");
    assert_eq!(answer(&mut server, "can_place 1"), "false");
}

#[test]
fn argument_errors() {
    let mut server = two_players();
    assert_eq!(answer(&mut server, "place 1"), ENO_ENOUGH_ARGUMENT);
    assert_eq!(answer(&mut server, "can_place"), ENO_ENOUGH_ARGUMENT);
    assert_eq!(answer(&mut server, "place x 0"), "invalid digit found in string");
    assert_eq!(answer(&mut server, "place 1 300"), "number too large to fit in target type");
    assert_eq!(answer(&mut server, "can_place y"), "invalid digit found in string");
    assert_eq!(answer(&mut server, "place 1 5"), "Error: invalid color");
    assert_eq!(answer(&mut server, "place 9 0"), "Error: invalid slot index or slot is full");
    assert_eq!(answer(&mut server, "get_board"), ";;;;;");
}

#[test]
fn winner_is_reported() {
    let mut server = two_players();
    assert_eq!(answer(&mut server, "get_winner"), "1");
    for _ in 0..5 {
        assert_eq!(answer(&mut server, "place 4 0"), DONE);
    }
    assert_eq!(answer(&mut server, "get_winner"), "2 0");
    assert_eq!(answer(&mut server, "place 4 1"), "Error: invalid slot index or slot is full");
}

#[test]
fn full_board_without_winner() {
    let mut server = two_players();
    // slot by slot, bottom first; no row, slot or diagonal is of one colour
    let layout = [
        ["0", "0", "1", "0", "1"],
        ["1", "1", "1", "0", "0"],
        ["1", "0", "1", "1", "0"],
        ["1", "1", "0", "0", "1"],
        ["0", "0", "0", "0", "1"],
    ];
    for c in 0..5 {
        for r in 0..5 {
            let request = format!("place {} {}", c, layout[c][r]);
            assert_eq!(answer(&mut server, &request), DONE);
        }
    }
    assert_eq!(answer(&mut server, "get_board"), "00101;11100;10110;11001;00001;");
    assert_eq!(answer(&mut server, "get_winner"), "0");
}

#[test]
fn reset_needs_both_players_and_starts_over() {
    let mut server = BoardServer::new();
    assert_eq!(answer(&mut server, "reset_board"), EWAITING_FOR_PLAYER);
    assert_eq!(answer(&mut server, "register"), "1");
    assert_eq!(answer(&mut server, "register"), "0");
    assert_eq!(answer(&mut server, "place 0 1"), DONE);
    assert_eq!(answer(&mut server, "reset_board"), DONE);
    assert_eq!(answer(&mut server, "get_board"), ";;;;;");
    assert_eq!(answer(&mut server, "register"), "1");
}

#[test]
fn dropping_before_registration_is_the_stopping_request() {
    let server = BoardServer::new();
    assert!(server.panics_on("place 0 0"));
    assert!(!server.panics_on("place 0 7"));
    assert!(!server.panics_on("place 7 0"));
    assert!(!server.panics_on("register"));
}

#[test]
fn one_player_keeps_the_turn() {
    let mut server = BoardServer::new();
    assert_eq!(answer(&mut server, "register"), "1");
    assert_eq!(answer(&mut server, "place 0 1"), DONE);
    assert_eq!(answer(&mut server, "place 0 1"), DONE);
    assert_eq!(answer(&mut server, "get_board"), "11;;;;;");
}

#[test]
fn unicode_white_space_is_trimmed() {
    let mut server = BoardServer::new();
    assert_eq!(answer(&mut server, "\u{3000}register\u{a0}"), "1");
    assert_eq!(answer(&mut server, "\u{85}get_board\u{2009}"), ";;;;;");
    assert_eq!(ask(&mut server, "\u{200b}get_board"), None);
}
