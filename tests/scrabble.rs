use std::collections::HashSet;

use scrabble::bag::Bag;
use scrabble::board::Board;
use scrabble::error::Error;
use scrabble::game::{Game, Player};
use scrabble::score::{Overlay, TurnScore};
use scrabble::tile::Tile;
use scrabble::turn::Turn;

fn l(c: char) -> Tile {
    Tile::Char(c)
}

fn test_board_a() -> &'static str {
    "
            3w .  .  2l .  .  .  3w .  .  .  2l .  H  I 
            .  2w .  .  .  3l .  .  .  3l .  .  .  2w .   
            .  .  2w .  .  .  2l .  2l .  .  .  2w .  .   
            2l .  .  2w .  .  .  2l .  .  .  2w .  .  2l  
            .  .  .  .  2w .  .  .  .  .  2w .  .  .  .  
            .  3l .  .  .  3l .  .  .  3l .  .  .  3l .   
            .  .  2l .  .  .  2l .  2l .  .  .  2l .  .   
            3w .  .  2l .  .  .  A  M  P  L  E  .  .  3w  
            .  .  2l .  .  .  2l .  A  A  .  .  2l .  .   
            .  3l .  .  .  H  A  P  P  Y  .  .  .  3l . 
            .  .  .  .  2w .  .  .  .  E  2w .  .  .  .   
            2l .  .  2w .  .  .  2l .  R  .  2w .  .  O  
            .  .  2w .  .  .  2l .  2l .  .  .  2w .  O   
            .  2w .  .  .  3l .  .  .  3l .  .  .  2w Z   
            3w .  .  2l .  .  .  3w .  .  .  2l .  .  E
        "
}

fn word_strings(board: &Board) -> Vec<String> {
    board.words().into_iter().map(|w| w.into_string()).collect()
}

#[test]
fn test_board_words() {
    let board = Board::parse(test_board_a()).unwrap();
    let words: Vec<String> = word_strings(&board);
    let expected: Vec<String> = ["HI", "AMPLE", "AA", "HAPPY", "MAP", "PAYER", "OOZE"]
        .into_iter()
        .map(Into::into)
        .collect();

    assert_eq!(expected, words);
}

#[test]
fn test_board_new_words() {
    let board = Board::parse(test_board_a()).unwrap();
    let turn = Turn::new(vec![(111, l('S')), (126, l('L')), (156, l('T'))]);

    assert!(turn.validate_linear().is_ok());

    let new_words: HashSet<String> = board
        .new_words(&turn)
        .iter()
        .map(|w| w.as_string())
        .collect();
    let expected: HashSet<String> = ["SAMPLE", "SLAT"].into_iter().map(Into::into).collect();

    assert_eq!(new_words, expected);
}

#[test]
fn test_overlay_score_turn() {
    let board = Board::parse(test_board_a()).unwrap();
    let turn = Turn::new(vec![(111, l('S')), (126, l('L')), (156, l('T'))]);

    let overlay = Overlay {
        board: &board,
        turn: &turn,
    };

    let scores: HashSet<(String, i64)> =
        overlay.score().unwrap().into_scores().into_iter().collect();

    assert_eq!(
        scores,
        [("SLAT".to_owned(), 5), ("SAMPLE".to_owned(), 10)]
            .into_iter()
            .collect()
    );
}

#[test]
fn test_board_commit_turn() {
    let mut board = Board::parse(test_board_a()).unwrap();
    let turn = Turn::new(vec![(111, l('S')), (126, l('L')), (156, l('T'))]);

    board.commit_turn(&turn).unwrap();

    let words: Vec<String> = word_strings(&board);

    let expected: Vec<String> = [
        "HI", "SAMPLE", "AA", "HAPPY", "SLAT", "MAP", "PAYER", "OOZE",
    ]
    .into_iter()
    .map(Into::into)
    .collect();

    assert_eq!(words, expected);
}

#[test]
fn test_game_init() {
    let mut game = Game::default();
    game.add_player(Player::new("Frankie")).unwrap();
    game.add_player(Player::new("Ada")).unwrap();
    game.start().unwrap();

    assert_eq!(game.racks().len(), 2);
    assert_eq!(game.racks()[0].len(), 7);
    assert_eq!(game.racks()[1].len(), 7);
}

fn test_bag() -> Bag {
    let bag = vec![
        l('Q'),
        l('A'),
        l('P'),
        l('S'),
        l('T'),
        l('I'),
        l('E'),
        l('X'),
        l('L'),
        l('I'),
        l('T'),
        l('R'),
        l('A'),
        l('M'),
        l('S'),
    ];

    Bag::new(bag)
}

#[test]
fn test_game_play() {
    let mut game = Game::with_bag(test_bag());
    game.add_player(Player::new("Frankie")).unwrap();
    game.add_player(Player::new("Ada")).unwrap();

    game.start_with(0).unwrap();

    assert_eq!(game.racks().len(), 2);
    assert_eq!(game.racks()[0].len(), 7);
    assert_eq!(game.racks()[1].len(), 7);

    let turn_a = Turn::new(vec![(112, l('M')), (113, l('A')), (114, l('R'))]);
    game.play(turn_a, vec![]).unwrap();

    assert_eq!(game.racks()[0], vec![l('S'), l('T'), l('I'), l('L'), l('Q')]);

    let words: Vec<String> = word_strings(game.board());
    assert_eq!(game.player_index(), 1);
    assert_eq!(words, vec!["MAR".to_string()]);

    assert_eq!(
        game.scores()[0],
        vec![TurnScore::new(vec![("MAR".to_owned(), 10)])]
    );

    let turn_b = Turn::new(vec![(126, l('T')), (127, l('A')), (128, l('X'))]);

    game.play(turn_b, vec![]).unwrap();

    assert_eq!(game.racks()[1], vec![l('E'), l('I'), l('S'), l('P')]);

    assert_eq!(
        game.scores()[1],
        vec![TurnScore::new(vec![
            ("TAX".to_string(), 19),
            ("MA".to_string(), 4),
            ("AX".to_string(), 17),
        ])]
    );
    assert_eq!(game.player_index(), 0);

    let turn_c_err_1 = Turn::new(vec![(140, l('T')), (127, l('A')), (128, l('X'))]);

    assert!(matches!(
        game.play(turn_c_err_1, vec![]).unwrap_err(),
        Error::TurnNotLinear
    ));

    let turn_c_err_2 = Turn::new(vec![(140, l('T')), (141, l('A')), (142, l('X'))]);

    assert!(matches!(
        game.play(turn_c_err_2, vec![]).unwrap_err(),
        Error::NoTileToSpend(Tile::Char('A'))
    ));

    let turn_c_1 = Turn::new(vec![(141, l('I')), (156, l('L'))]);

    game.play(turn_c_1, vec![]).unwrap();

    assert_eq!(
        game.scores()[0],
        vec![
            TurnScore::new(vec![("MAR".to_owned(), 10)]),
            TurnScore::new(vec![("TIL".to_owned(), 3)]),
        ]
    );

    let turn_d = Turn::new(vec![
        (169, l('P')),
        (170, l('I')),
        (171, l('E')),
        (172, l('S')),
    ]);

    game.play(turn_d, vec![]).unwrap();

    assert!(game.is_over());

    assert_eq!(
        game.scores()[0],
        vec![
            TurnScore::new(vec![("MAR".to_owned(), 10)]),
            TurnScore::new(vec![("TIL".to_owned(), 3)]),
            TurnScore::new(vec![("(remaining tiles)".to_string(), -12)]),
        ]
    )
}

#[test]
fn test_game_play_with_blanks() {
    let bag = Bag::new(vec![
        l('Q'),
        l('A'),
        l('P'),
        l('S'),
        l('T'),
        l('I'),
        l('E'),
        l('X'),
        l('L'),
        l('I'),
        l('T'),
        l('R'),
        l('A'),
        Tile::Blank(None),
        l('S'),
    ]);
    let mut game = Game::with_bag(bag);

    game.add_player(Player::new("Frankie")).unwrap();
    game.add_player(Player::new("Ada")).unwrap();

    game.start_with(0).unwrap();

    assert_eq!(game.racks().len(), 2);
    assert_eq!(game.racks()[0].len(), 7);
    assert_eq!(game.racks()[1].len(), 7);

    let remaining_0 = game.remaining_tiles(0);
    let remaining_1 = game.remaining_tiles(1);

    println!("{:?} {:?}", remaining_0, remaining_1);

    let turn_a = Turn::new(vec![
        (111, l('S')),
        (112, Tile::Blank(Some('M'))),
        (113, l('A')),
        (114, l('R')),
        (115, l('T')),
    ]);

    game.play(turn_a, vec![]).unwrap();

    assert_eq!(
        game.scores()[0],
        vec![TurnScore::new(vec![("SMART".to_string(), 8)])]
    );

    let words: Vec<String> = word_strings(game.board());
    assert_eq!(words, vec!["SMART".to_string()]);

    let turn_b = Turn::new(vec![(127, l('A')), (128, l('X'))]);

    game.play(turn_b, vec![]).unwrap();
    assert_eq!(
        game.scores()[1],
        vec![TurnScore::new(vec![
            ("AX".to_string(), 17),
            ("MA".to_string(), 1),
            ("AX".to_string(), 17)
        ])],
    );
}
