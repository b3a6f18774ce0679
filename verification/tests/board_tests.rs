use wuzi::board::board::{board_picture, get_board_from_string, Board, GameResult, Slot};
use wuzi::board::color::Color;

#[test]
fn test_rows() {
    let mut board = Board::new();

    for i in 0..5 {
        match board.place(Slot { index: i }, &Color::green()) {
            Ok(won) => {
                if won {
                    println!("GREEN: {}", won);
                }
            }
            Err(e) => {
                println!("Error: {:?}", e);
                break;
            }
        }
    }
    assert!(board.is_winner(&Color::green()));
}

#[test]
fn test_slots() {
    let mut board = Board::new();

    for _ in 0..5 {
        match board.place(Slot { index: 2 }, &Color::green()) {
            Ok(won) => {
                if won {
                    println!("GREEN: {}", won);
                }
            }
            Err(e) => {
                println!("Error: {:?}", e);
                break;
            }
        }
    }
    assert!(board.is_winner(&Color::green()));
}

#[test]
fn test_diagonals() {
    let mut board = Board::new();

    for i in 0..25 {
        if i % 2 == 0 {
            match board.place(Slot { index: i % 5 }, &Color::green()) {
                Ok(won) => {
                    if won {
                        println!("GREEN: {}", won);
                    }
                }
                Err(e) => {
                    println!("Error: {:?}", e);
                    break;
                }
            }
        } else {
            match board.place(Slot { index: i % 5 }, &Color::red()) {
                Ok(won) => {
                    if won {
                        println!("RED: {}", won);
                    }
                }
                Err(e) => {
                    println!("Error: {:?}", e);
                    break;
                }
            }
        }
    }

    println!("{}", board_picture(board.get_board()));
    assert!(board.is_winner(&Color::green()));
}

#[test]
fn new_board_has_no_winner_and_is_not_full() {
    let mut board = Board::new();
    assert!(!board.is_winner(&Color::green()));
    assert!(!board.is_winner(&Color::red()));
    assert!(!board.is_full());
    assert_eq!(board.get_board_as_string(), ";;;;;");
}

#[test]
fn place_rejects_invalid_color() {
    let mut board = Board::new();
    let r = board.place(Slot { index: 0 }, &Color { value: 7 });
    assert_eq!(r, Err("invalid color".to_string()));
    assert_eq!(board.get_board_as_string(), ";;;;;");
}

#[test]
fn place_rejects_bad_slot_and_full_slot() {
    let mut board = Board::new();
    let r = board.place(Slot { index: 5 }, &Color::red());
    assert_eq!(r, Err("invalid slot index or slot is full".to_string()));
    for _ in 0..5 {
        assert_eq!(board.place(Slot { index: 1 }, &Color::red()), Ok(true));
    }
    let r = board.place(Slot { index: 1 }, &Color::green());
    assert_eq!(r, Err("invalid slot index or slot is full".to_string()));
    assert_eq!(board.get_board_as_string(), ";11111;;;;");
}

#[test]
fn bullets_fall_to_the_bottom() {
    let mut board = Board::new();
    assert_eq!(board.place(Slot { index: 3 }, &Color::red()), Ok(true));
    assert_eq!(board.place(Slot { index: 3 }, &Color::green()), Ok(true));
    assert_eq!(board.place(Slot { index: 0 }, &Color::green()), Ok(true));
    assert_eq!(board.get_board_as_string(), "0;;;10;;");
    let b = board.get_board();
    assert_eq!(b[3].len(), 2);
    assert_eq!(b[3][0].value, 1);
    assert_eq!(b[3][1].value, 0);
}

#[test]
fn anti_diagonal_wins() {
    let mut board = Board::new();
    // slot c gets 4 - c red bullets below one green bullet
    for c in 0..5usize {
        for _ in 0..(4 - c) {
            assert_eq!(board.place(Slot { index: c }, &Color::red()), Ok(true));
        }
        assert_eq!(board.place(Slot { index: c }, &Color::green()), Ok(true));
    }
    assert!(board.is_winner(&Color::green()));
    assert!(!board.is_winner(&Color::red()));
}

#[test]
fn four_in_a_row_is_not_a_win() {
    let mut board = Board::new();
    for i in 0..4 {
        assert_eq!(board.place(Slot { index: i }, &Color::red()), Ok(true));
    }
    assert!(!board.is_winner(&Color::red()));
}

#[test]
fn full_board_is_full() {
    let mut board = Board::new();
    for c in 0..5usize {
        for r in 0..5usize {
            let color = if (c + r) % 2 == 0 { Color::green() } else { Color::red() };
            assert_eq!(board.place(Slot { index: c }, &color), Ok(true));
        }
    }
    assert!(board.is_full());
    for c in 0..6usize {
        assert!(board.place(Slot { index: c }, &Color::green()).is_err());
    }
}

#[test]
fn board_text_reads_back() {
    let mut board = Board::new();
    board.place(Slot { index: 4 }, &Color::red()).unwrap();
    board.place(Slot { index: 4 }, &Color::green()).unwrap();
    board.place(Slot { index: 2 }, &Color::red()).unwrap();
    let text = board.get_board_as_string();
    assert_eq!(text, ";;1;;10;");
    let read = get_board_from_string(text).unwrap();
    let placed = board.get_board();
    assert_eq!(read.len(), 5);
    for c in 0..5 {
        assert_eq!(read[c], placed[c]);
    }
}

#[test]
fn board_text_with_other_characters_is_refused() {
    assert!(get_board_from_string("01;x;".to_string()).is_none());
    assert!(get_board_from_string("0 1".to_string()).is_none());
}

#[test]
fn short_board_text_is_padded() {
    let b = get_board_from_string("01;;7".to_string()).unwrap();
    assert_eq!(b.len(), 5);
    assert_eq!(b[0], vec![Color { value: 0 }, Color { value: 1 }]);
    assert!(b[1].is_empty());
    assert_eq!(b[2], vec![Color { value: 7 }]);
    assert!(b[3].is_empty());
    assert!(b[4].is_empty());
}

#[test]
fn picture_of_a_board() {
    let b = get_board_from_string("0;;10;;1".to_string()).unwrap();
    let expected = "_______________\n\
                    [ ][ ][ ][ ][ ]\n\
                    [ ][ ][ ][ ][ ]\n\
                    [ ][ ][ ][ ][ ]\n\
                    [ ][ ][G][ ][ ]\n\
                    [G][ ][R][ ][R]\n\
                    +-+-+-+-+-+-+-+\n";
    assert_eq!(board_picture(&b), expected);
}

#[test]
fn game_result_codes() {
    assert_eq!(GameResult::from_u8(0), Some(GameResult::NoWinner));
    assert_eq!(GameResult::from_u8(1), Some(GameResult::Unknown));
    assert_eq!(GameResult::from_u8(2), Some(GameResult::Winner));
    assert_eq!(GameResult::from_u8(3), None);
    assert_eq!(GameResult::Winner.to_u8(), 2);
    assert_eq!(GameResult::NoWinner.to_u8(), 0);
}

#[test]
fn color_names() {
    assert_eq!(Color::from_u8(0), Some(Color::green()));
    assert_eq!(Color::from_u8(1), Some(Color::red()));
    assert_eq!(Color::from_u8(2), None);
    assert_eq!(Color::green().to_string(), "G");
    assert_eq!(Color::red().to_string(), "R");
    assert_eq!(Color { value: 9 }.to_string(), "");
    assert_eq!(Color::green().name(), "Green");
    assert_eq!(Color::red().name(), "Red");
    assert_eq!(Color { value: 9 }.name(), "");
}

#[test]
fn a_win_is_kept_after_more_drops() {
    let mut board = Board::new();
    for i in 0..5 {
        assert_eq!(board.place(Slot { index: i }, &Color::red()), Ok(true));
    }
    assert!(board.is_winner(&Color::red()));
    assert_eq!(board.place(Slot { index: 2 }, &Color::green()), Ok(true));
    assert!(board.is_winner(&Color::red()));
    assert!(!board.is_winner(&Color::green()));
}

#[test]
fn slot_is_open_follows_the_slot() {
    let mut board = Board::new();
    assert!(board.slot_is_open(0));
    assert!(!board.slot_is_open(5));
    for _ in 0..5 {
        board.place(Slot { index: 0 }, &Color::red()).unwrap();
    }
    assert!(!board.slot_is_open(0));
    assert!(board.slot_is_open(1));
}
