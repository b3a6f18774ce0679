use wuzi::board::board::Slot;
use wuzi::board::board_server::BoardServer;
use wuzi::board::color::Color;
use wuzi::player::player::{
    board_answer, board_reply_fits, can_place_answer, can_place_request, place_answer,
    place_request, register_answer, reset_answer, slot_from_input, winner_answer, WaitAction,
    RoundEvent, RoundStage, WaitState, WinnerNews,
};

#[test]
fn requests_are_spelled_out() {
    assert_eq!(place_request(&Slot { index: 3 }, &Color::red()), "place 3 1");
    assert_eq!(place_request(&Slot { index: 12 }, &Color::green()), "place 12 0");
    assert_eq!(can_place_request(&Color::green()), "can_place 0");
}

#[test]
fn register_replies() {
    assert_eq!(register_answer("0"), Ok(0));
    assert_eq!(register_answer(" 1 \n"), Ok(1));
    assert_eq!(register_answer("1 extra"), Ok(1));
    assert_eq!(
        register_answer("All players have been registered"),
        Err("invalid digit found in string".to_string())
    );
}

#[test]
fn can_place_replies() {
    assert_eq!(can_place_answer("true"), Ok(true));
    assert_eq!(can_place_answer("false\n"), Ok(false));
    assert!(can_place_answer("maybe").is_err());
}

#[test]
fn place_replies() {
    assert_eq!(place_answer("Done"), Ok(true));
    assert_eq!(place_answer("Done\n"), Ok(true));
    assert_eq!(place_answer("Error: invalid color"), Err("Error: invalid color".to_string()));
}

#[test]
fn reset_replies() {
    assert_eq!(reset_answer("Done"), Ok(true));
    assert_eq!(reset_answer("Waiting for player"), Ok(true));
    assert_eq!(reset_answer("Done\n"), Err("Done\n".to_string()));
}

#[test]
fn winner_replies() {
    assert_eq!(winner_answer("0", 1), Ok(WinnerNews::NoWinner));
    assert_eq!(winner_answer("1", 1), Ok(WinnerNews::Undecided));
    assert_eq!(winner_answer("7", 1), Ok(WinnerNews::Undecided));
    assert_eq!(winner_answer("2 1", 1), Ok(WinnerNews::YouWon));
    assert_eq!(winner_answer("2 0", 1), Ok(WinnerNews::YouLost));
    assert_eq!(winner_answer("2", 1), Err("Incomplete response from server".to_string()));
    assert_eq!(winner_answer("x", 1), Err("invalid digit found in string".to_string()));
    assert!(WinnerNews::YouWon.is_over());
    assert!(!WinnerNews::Undecided.is_over());
}

#[test]
fn board_replies() {
    assert!(board_reply_fits(";;01;;;"));
    let b = board_answer(";;01;;;").unwrap();
    assert_eq!(b.len(), 5);
    assert_eq!(b[2], vec![Color { value: 0 }, Color { value: 1 }]);
    assert_eq!(
        board_answer("0;x").unwrap_err(),
        "failed to get board from string".to_string()
    );
    assert!(!board_reply_fits(";;;;;1"));
    assert!(board_reply_fits(";;;;;x1"));
    assert!(board_reply_fits(";;;;;;;"));
}

#[test]
fn waiting_for_the_turn() {
    let mut state = WaitState::new();
    assert_eq!(state.step(&Err("down".to_string())), WaitAction::Wait { announce: false });
    assert_eq!(state.step(&Ok(false)), WaitAction::Wait { announce: true });
    assert_eq!(state.step(&Ok(false)), WaitAction::Wait { announce: false });
    assert_eq!(state.step(&Ok(true)), WaitAction::Proceed { need_refresh: true });

    let mut fresh = WaitState::new();
    assert_eq!(fresh.step(&Ok(true)), WaitAction::Proceed { need_refresh: false });
}

#[test]
fn typed_slots() {
    assert_eq!(slot_from_input(" 3\n").map(|s| s.index), Ok(3));
    assert_eq!(slot_from_input("+4").map(|s| s.index), Ok(4));
    assert!(slot_from_input("three").is_err());
    assert!(slot_from_input("").is_err());
}

#[test]
fn what_the_player_sends_the_server_reads() {
    let mut server = BoardServer::new();
    let first = register_answer(&server.handle_request("register").unwrap()).unwrap();
    let second = register_answer(&server.handle_request("register").unwrap()).unwrap();
    assert_eq!((first, second), (1, 0));
    let green = Color { value: second };
    let ask = can_place_request(&green);
    assert_eq!(can_place_answer(&server.handle_request(&ask).unwrap()), Ok(true));
    let req = place_request(&Slot { index: 1 }, &green);
    assert_eq!(place_answer(&server.handle_request(&req).unwrap()), Ok(true));
    let board = board_answer(&server.handle_request("get_board").unwrap()).unwrap();
    assert_eq!(board[1], vec![green]);
    let news = winner_answer(&server.handle_request("get_winner").unwrap(), first).unwrap();
    assert_eq!(news, WinnerNews::Undecided);
}

#[test]
fn course_of_a_round() {
    let s = RoundStage::first();
    assert_eq!(s, RoundStage::ShowBoard);
    assert_eq!(s.next(RoundEvent::Done), Some(RoundStage::AskWinner));
    assert_eq!(s.next(RoundEvent::Failed), Some(RoundStage::ShowBoard));
    assert_eq!(RoundStage::AskWinner.next(RoundEvent::Over), None);
    assert_eq!(RoundStage::AskWinner.next(RoundEvent::NotOver), Some(RoundStage::WaitTurn));
    assert_eq!(RoundStage::AskWinner.next(RoundEvent::Failed), Some(RoundStage::ShowBoard));
    assert_eq!(
        RoundStage::WaitTurn.next(RoundEvent::TurnCame(true)),
        Some(RoundStage::ShowBoardAgain)
    );
    assert_eq!(RoundStage::WaitTurn.next(RoundEvent::TurnCame(false)), Some(RoundStage::ReadMove));
    assert_eq!(
        RoundStage::ShowBoardAgain.next(RoundEvent::Done),
        Some(RoundStage::AskWinnerAgain)
    );
    assert_eq!(RoundStage::ShowBoardAgain.next(RoundEvent::Failed), Some(RoundStage::ShowBoard));
    assert_eq!(RoundStage::AskWinnerAgain.next(RoundEvent::Over), None);
    assert_eq!(RoundStage::AskWinnerAgain.next(RoundEvent::NotOver), Some(RoundStage::ReadMove));
    assert_eq!(RoundStage::ReadMove.next(RoundEvent::Done), Some(RoundStage::ShowBoard));
}
