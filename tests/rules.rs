use std::collections::HashMap;

use scrabble::bag::Bag;
use scrabble::board::Board;
use scrabble::error::Error;
use scrabble::game::{Game, Player};
use scrabble::score::{Overlay, TurnScore};
use scrabble::tile::{score_char, score_tile, Tile};
use scrabble::turn::{parse_decimal, Turn};

fn l(c: char) -> Tile {
    Tile::Char(c)
}

const STANDARD_TEXT: &str = "
    3w .  .  2l .  .  .  3w .  .  .  2l .  .  3w
    .  2w .  .  .  3l .  .  .  3l .  .  .  2w .
    .  .  2w .  .  .  2l .  2l .  .  .  2w .  .
    2l .  .  2w .  .  .  2l .  .  .  2w .  .  2l
    .  .  .  .  2w .  .  .  .  .  2w .  .  .  .
    .  3l .  .  .  3l .  .  .  3l .  .  .  3l .
    .  .  2l .  .  .  2l .  2l .  .  .  2l .  .
    3w .  .  2l .  .  .  2w .  .  .  2l .  .  3w
    .  .  2l .  .  .  2l .  2l .  .  .  2l .  .
    .  3l .  .  .  3l .  .  .  3l .  .  .  3l .
    .  .  .  .  2w .  .  .  .  .  2w .  .  .  .
    2l .  .  2w .  .  .  2l .  .  .  2w .  .  2l
    .  .  2w .  .  .  2l .  2l .  .  .  2w .  .
    .  2w .  .  .  3l .  .  .  3l .  .  .  2w .
    3w .  .  2l .  .  .  3w .  .  .  2l .  .  3w
";

/// A started game whose players drew, in order, from the given bag.
fn started(names: &[&str], tiles: Vec<Tile>) -> Game {
    let mut game = Game::with_bag(Bag::new(tiles));
    for name in names {
        game.add_player(Player::new(name)).unwrap();
    }
    game.start_with(0).unwrap();
    game
}

fn letters(s: &str) -> Vec<Tile> {
    s.chars().map(l).collect()
}

#[test]
fn standard_board_matches_layout_text() {
    let parsed = Board::parse(STANDARD_TEXT).unwrap();
    let built = Board::standard().unwrap();
    assert_eq!(parsed.as_board_string(), built.as_board_string());
    let text = built.as_board_string();
    let first = text.lines().next().unwrap();
    assert_eq!(first, "3w .  .  2l .  .  .  3w .  .  .  2l .  .  3w ");
    assert_eq!(text.lines().count(), 15);
}

#[test]
fn board_parse_rejects_bad_token() {
    let text = STANDARD_TEXT.replacen("3l", "4x", 1);
    match Board::parse(&text) {
        Err(Error::BoardParse(token)) => assert_eq!(token, "4x"),
        other => panic!("unexpected {:?}", other.map(|b| b.as_board_string())),
    }
}

#[test]
fn board_parse_rejects_wrong_cell_count() {
    assert!(matches!(Board::parse(". . ."), Err(Error::BoardParse(_))));
}

#[test]
fn mar_across_center_scores_ten() {
    let game = Game::with_bag(Bag::new(vec![]));
    let turn = Turn::new(vec![(112, l('M')), (113, l('A')), (114, l('R'))]);
    assert_eq!(
        game.propose(&turn),
        TurnScore::new(vec![("MAR".to_string(), 10)])
    );
}

#[test]
fn tiles_off_one_line_are_not_linear() {
    let mut game = started(&["Ada"], letters("RAMXYZQ"));
    let turn = Turn::new(vec![(112, l('M')), (128, l('A'))]);
    assert!(matches!(
        game.play(turn, vec![]).unwrap_err(),
        Error::TurnNotLinear
    ));
    assert_eq!(game.racks()[0].len(), 7);
}

#[test]
fn tiles_away_from_center_are_not_connected() {
    let mut game = started(&["Ada"], letters("RAMXYZQ"));
    let turn = Turn::new(vec![(0, l('M')), (1, l('A'))]);
    assert!(matches!(
        game.play(turn, vec![]).unwrap_err(),
        Error::NotConnected
    ));
}

#[test]
fn repeated_index_is_refused() {
    let mut game = started(&["Ada"], letters("RAMXYZQ"));
    let turn = Turn::new(vec![(112, l('M')), (112, l('A'))]);
    assert!(matches!(
        game.play(turn, vec![]).unwrap_err(),
        Error::TurnIndexesNotUnique
    ));
}

#[test]
fn occupied_square_and_out_of_board_index_are_refused() {
    let mut game = started(&["Ada", "Bo"], letters("ABCDEFGRAMXYZQ"));
    game.play(
        Turn::new(vec![(112, l('M')), (113, l('A')), (114, l('R'))]),
        vec![],
    )
    .unwrap();
    let turn = Turn::new(vec![(113, l('A')), (115, l('B'))]);
    assert!(matches!(
        game.play(turn, vec![]).unwrap_err(),
        Error::SquareOccupied(113)
    ));
    let turn = Turn::new(vec![(225, l('A'))]);
    assert!(matches!(
        game.play(turn, vec![]).unwrap_err(),
        Error::IndexOutOfBounds
    ));
}

#[test]
fn unassigned_blank_cannot_be_placed() {
    let mut game = started(&["Ada"], letters("RAMXYZQ"));
    let turn = Turn::new(vec![(112, Tile::Blank(None))]);
    assert!(matches!(
        game.play(turn, vec![]).unwrap_err(),
        Error::NoTileToSpend(Tile::Blank(None))
    ));
}

#[test]
fn seven_tile_turn_earns_bingo_bonus() {
    let mut game = started(&["Ada"], letters("EGNARTS"));
    assert_eq!(game.racks()[0], letters("STRANGE"));
    let turn = Turn::new(
        (106..113)
            .zip("STRANGE".chars())
            .map(|(i, c)| (i, l(c)))
            .collect(),
    );
    game.play(turn, vec![]).unwrap();
    assert_eq!(
        game.scores()[0],
        vec![TurnScore::new(vec![
            ("STRANGE".to_string(), 18),
            ("*".to_string(), 50)
        ])]
    );
}

#[test]
fn emptied_rack_and_bag_end_the_game_with_penalties() {
    // Ada draws the last seven tiles, Bo the first seven.
    let mut game = started(&["Ada", "Bo"], letters("QZKAEIOEGNARTS"));
    assert_eq!(game.racks()[1], letters("OIEAKZQ"));
    let turn = Turn::new(
        (106..113)
            .zip("STRANGE".chars())
            .map(|(i, c)| (i, l(c)))
            .collect(),
    );
    game.play(turn, vec![]).unwrap();
    assert!(game.is_over());
    assert_eq!(game.current_player(), None);
    assert_eq!(game.scores()[0].len(), 1);
    assert_eq!(
        game.scores()[1],
        vec![TurnScore::new(vec![("(remaining tiles)".to_string(), -29)])]
    );
    let turn = Turn::new(vec![(97, l('O'))]);
    assert!(matches!(
        game.play(turn, vec![]).unwrap_err(),
        Error::GameOver
    ));
}

#[test]
fn illegal_words_forfeit_the_turn() {
    let mut game = started(&["Ada", "Bo"], letters("ABCDEFGRAMXYZQ"));
    let turn = Turn::new(vec![(112, l('Q')), (113, l('Z'))]);
    let err = game.play(turn, vec!["QZ".to_string()]).unwrap_err();
    match err {
        Error::IllegalWords(words) => assert_eq!(words, vec!["QZ".to_string()]),
        other => panic!("unexpected {:?}", other),
    }
    assert_eq!(game.player_index(), 1);
    assert_eq!(game.racks()[0].len(), 7);
    assert!(game.board().words().is_empty());
    assert!(game.scores()[0].is_empty());
}

#[test]
fn lifecycle_errors() {
    let mut game = Game::with_bag(Bag::new(letters("ABCDEFGHIJKLMN")));
    assert!(matches!(
        game.play(Turn::new(vec![(112, l('A'))]), vec![]).unwrap_err(),
        Error::NotStarted
    ));
    assert!(matches!(game.pass().unwrap_err(), Error::NotStarted));
    assert_eq!(game.current_player(), None);
    assert_eq!(game.add_player(Player::new("Ada")).unwrap(), 0);
    assert_eq!(game.add_player(Player::new("Ada")).unwrap(), 0);
    game.start().unwrap();
    assert_eq!(game.current_player(), Some("Ada"));
    assert!(matches!(
        game.add_player(Player::new("Bo")).unwrap_err(),
        Error::AlreadyStarted
    ));
    assert_eq!(game.add_player(Player::new("Ada")).unwrap(), 0);
    assert!(matches!(game.rack(3).unwrap_err(), Error::IndexOutOfBounds));
    assert_eq!(game.rack(0).unwrap().len(), 7);
}

#[test]
fn start_picks_a_player_in_range() {
    for _ in 0..20 {
        let mut game = Game::with_bag(Bag::new(letters("ABCDEFGHIJKLMNOPQRSTU")));
        for name in ["Ada", "Bo", "Cy"] {
            game.add_player(Player::new(name)).unwrap();
        }
        game.start().unwrap();
        assert!(game.player_index() < 3);
    }
}

#[test]
fn pass_needs_a_nearly_empty_bag() {
    let mut game = started(&["Ada", "Bo"], letters("ABCDEFGHIJKLMNOPQRSTU"));
    assert!(matches!(game.pass().unwrap_err(), Error::CannotPass));
    let mut game = started(&["Ada", "Bo"], letters("ABCDEFGHIJKLMNOPQR"));
    game.pass().unwrap();
    assert_eq!(game.player_index(), 1);
}

#[test]
fn swap_exchanges_tiles_with_the_bag() {
    let mut game = started(&["Ada", "Bo"], letters("UVWXYZABCDEFGHIJKLMN"));
    assert_eq!(game.racks()[0], letters("NMLKJIH"));
    assert!(matches!(
        game.swap(Turn::new(vec![])).unwrap_err(),
        Error::CannotSwap
    ));
    assert!(matches!(
        game.swap(Turn::new(vec![(0, l('A'))])).unwrap_err(),
        Error::NoTileToSpend(Tile::Char('A'))
    ));
    game.swap(Turn::new(vec![(0, l('N')), (1, l('M'))])).unwrap();
    assert_eq!(game.racks()[0], letters("LKJIHZY"));
    assert_eq!(game.bag().len(), 6);
    let mut rest: Vec<char> = game
        .bag()
        .tiles()
        .iter()
        .map(|t| t.as_char().unwrap())
        .collect();
    rest.sort();
    assert_eq!(rest, vec!['M', 'N', 'U', 'V', 'W', 'X']);
    assert_eq!(game.player_index(), 1);
    let mut small = started(&["Ada"], letters("ABCDEFGH"));
    assert!(matches!(
        small.swap(Turn::new(vec![(0, l('H')), (1, l('G'))])).unwrap_err(),
        Error::CannotSwap
    ));
}

#[test]
fn remaining_tiles_counts_unseen_tiles_blanks_last() {
    let mut tiles = letters("QBBA");
    tiles.push(Tile::Blank(None));
    tiles.extend(letters("ZZYXWVUT"));
    let game = started(&["Ada"], tiles);
    // Ada holds T U V W X Y Z; the bag keeps Q B B A, a blank and a Z.
    assert_eq!(
        game.remaining_tiles(0),
        vec![
            ("A".to_string(), 1),
            ("B".to_string(), 2),
            ("Q".to_string(), 1),
            ("Z".to_string(), 1),
            ("BLANK".to_string(), 1),
        ]
    );
    let counts: HashMap<String, usize> = game.remaining_tiles(5).into_iter().collect();
    assert_eq!(counts.get("Z"), Some(&2));
    assert_eq!(counts.len(), 11);
}

#[test]
fn standard_bag_holds_the_english_set() {
    let bag = Bag::standard();
    assert_eq!(bag.len(), 100);
    let mut counts: HashMap<String, usize> = HashMap::new();
    for tile in bag.tiles() {
        *counts.entry(tile.to_string()).or_insert(0) += 1;
    }
    assert_eq!(counts["A"], 9);
    assert_eq!(counts["E"], 12);
    assert_eq!(counts["Q"], 1);
    assert_eq!(counts["BLANK"], 2);
    assert_eq!(counts.len(), 27);
}

#[test]
fn tile_text_and_points() {
    assert_eq!(Tile::Blank(None).to_string(), "BLANK");
    assert_eq!(Tile::Blank(Some('M')).to_string(), "M");
    assert_eq!(l('Q').to_string(), "Q");
    assert_eq!(Tile::Blank(None).as_char(), None);
    assert_eq!(score_char(&'Q'), 10);
    assert_eq!(score_char(&'K'), 5);
    assert_eq!(score_char(&'a'), 0);
    assert_eq!(score_tile(&Tile::Blank(Some('Q'))), 0);
    assert_eq!(score_tile(&l('X')), 8);
}

#[test]
fn turn_from_wire_pairs() {
    let pairs = vec![
        ("112".to_string(), "M".to_string()),
        ("113".to_string(), "A".to_string()),
    ];
    let turn = Turn::from_pairs(&pairs).unwrap();
    assert_eq!(turn.tiles(), &vec![(112, l('M')), (113, l('A'))]);
    let bad_key = vec![("11a".to_string(), "M".to_string())];
    assert!(matches!(Turn::from_pairs(&bad_key), Err(Error::TurnParse)));
    let bad_code = vec![("12".to_string(), "MM".to_string())];
    assert!(matches!(Turn::from_pairs(&bad_code), Err(Error::TileParse)));
    assert!(matches!(Tile::parse_code(""), Err(Error::TileParse)));
    assert_eq!(parse_decimal("0"), Some(0));
    assert_eq!(parse_decimal("99999999999999999999999"), None);
    assert_eq!(parse_decimal(""), None);
}

#[test]
fn scanning_and_scoring_repeat_exactly() {
    let board = Board::parse(STANDARD_TEXT).unwrap();
    let empty = Turn::new(vec![]);
    assert!(board.new_words(&empty).is_empty());
    let turn = Turn::new(vec![(112, l('Q')), (113, l('I'))]);
    let overlay = Overlay {
        board: &board,
        turn: &turn,
    };
    let first = overlay.score().unwrap();
    let second = overlay.score().unwrap();
    assert_eq!(first, second);
    assert_eq!(first, TurnScore::new(vec![("QI".to_string(), 22)]));
    let mut b = board.clone();
    b.commit_turn(&turn).unwrap();
    let once: Vec<String> = b.words().into_iter().map(|w| w.into_string()).collect();
    let twice: Vec<String> = b.words().into_iter().map(|w| w.into_string()).collect();
    assert_eq!(once, twice);
    assert_eq!(once, vec!["QI".to_string()]);
}

#[test]
fn saved_parts_restore_the_game() {
    let mut game = started(&["Ada", "Bo"], letters("ABCDEFGRAMXYZQ"));
    game.play(
        Turn::new(vec![(112, l('M')), (113, l('A')), (114, l('R'))]),
        vec![],
    )
    .unwrap();
    game.set_pkid(41);
    let restored = Game::restore(
        game.board().squares().clone(),
        game.players().clone(),
        game.player_index(),
        game.bag().tiles().clone(),
        game.racks().clone(),
        game.scores().clone(),
        game.state(),
        game.name().to_string(),
        game.pkid(),
    )
    .unwrap();
    assert_eq!(restored.player_index(), 1);
    assert_eq!(restored.pkid(), Some(41));
    assert_eq!(restored.racks(), game.racks());
    assert_eq!(restored.scores(), game.scores());
    assert_eq!(
        restored.board().as_board_string(),
        game.board().as_board_string()
    );
    assert_eq!(restored.board_type(), "standard");
    assert_eq!(restored.size(), 15);

    let twins = Game::restore(
        game.board().squares().clone(),
        vec![Player::new("Ada"), Player::new("Ada")],
        0,
        vec![],
        game.racks().clone(),
        game.scores().clone(),
        game.state(),
        String::new(),
        None,
    );
    assert!(twins.is_none());
}

#[test]
fn board_from_squares_checks_shape() {
    let squares = Board::standard().unwrap().squares().clone();
    assert!(Board::from_squares(squares.clone()).is_some());
    assert!(Board::from_squares(squares[1..].to_vec()).is_none());
    let mut odd = squares;
    odd[0] = scrabble::tile::Square::WordBonus(5);
    assert!(Board::from_squares(odd).is_none());
}

#[test]
fn named_game_starts_empty() {
    let game = Game::new("room");
    assert_eq!(game.name(), "room");
    assert_eq!(game.pkid(), None);
    assert!(game.players().is_empty());
    assert_eq!(game.bag().len(), 100);
}

#[test]
fn rack_of_blanks_is_charged_zero_at_the_end() {
    // Ada draws the last seven tiles; Bo draws five letters and two blanks.
    let mut tiles = vec![Tile::Blank(None), Tile::Blank(None)];
    tiles.extend(letters("AAAAAEGNARTS"));
    let mut game = started(&["Ada", "Bo"], tiles);
    // Ada empties her rack with STRANGE.
    let turn = Turn::new(
        (106..113)
            .zip("STRANGE".chars())
            .map(|(i, c)| (i, l(c)))
            .collect(),
    );
    game.play(turn, vec![]).unwrap();
    assert!(game.is_over());
    assert_eq!(
        game.scores()[1],
        vec![TurnScore::new(vec![("(remaining tiles)".to_string(), -5)])]
    );

    let mut blanks = vec![Tile::Blank(None), Tile::Blank(None)];
    blanks.extend(letters("EGNARTS"));
    let mut game = started(&["Ada", "Bo"], blanks);
    assert_eq!(game.racks()[1], vec![Tile::Blank(None), Tile::Blank(None)]);
    let turn = Turn::new(
        (106..113)
            .zip("STRANGE".chars())
            .map(|(i, c)| (i, l(c)))
            .collect(),
    );
    game.play(turn, vec![]).unwrap();
    assert!(game.is_over());
    assert_eq!(
        game.scores()[1],
        vec![TurnScore::new(vec![("(remaining tiles)".to_string(), 0)])]
    );
    assert!(!game.is_turn_of(0));
}
