use vstd::prelude::*;

use crate::board::{board_char, board_ok, board_tile, letter_mult, word_bonus_of, Board};
use crate::error::Error;
use crate::tile::{score_tile, tile_value, Square, Tile};
use crate::turn::{placed_char, placed_tile, Turn};
use crate::words::{all_words, cells_of, scan_words, GetChar, Word, WordView, BOARD_SIZE, INDEX_OVERFLOW};

verus! {

/// The character at `index` once a turn is laid over a board; a tile
/// already on the board shows first.
pub open spec fn overlay_char(b: Seq<Square>, t: Seq<(usize, Tile)>, index: int) -> Option<
    char,
> {
    match board_char(b, index) {
        Some(c) => Some(c),
        None => placed_char(t, index),
    }
}

/// The cells of a board with a turn laid over it.
pub open spec fn overlay_cells(b: Seq<Square>, t: Seq<(usize, Tile)>) -> Seq<Option<char>> {
    Seq::new(INDEX_OVERFLOW as nat, |i: int| overlay_char(b, t, i))
}

/// The cells of a board alone.
pub open spec fn board_cells(b: Seq<Square>) -> Seq<Option<char>> {
    Seq::new(INDEX_OVERFLOW as nat, |i: int| board_char(b, i))
}

/// The tile that counts at `index` for scoring: the turn's, else the board's.
pub open spec fn overlay_tile(b: Seq<Square>, t: Seq<(usize, Tile)>, index: int) -> Option<Tile> {
    match placed_tile(t, index) {
        Some(x) => Some(x),
        None => board_tile(b, index),
    }
}

/// Points of the tile at one cell: its value times the cell's letter bonus.
pub open spec fn cell_points(b: Seq<Square>, t: Seq<(usize, Tile)>, index: int) -> int {
    match overlay_tile(b, t, index) {
        Some(tile) => tile_value(tile) * letter_mult(b, index),
        None => 0,
    }
}

/// The sum of the points of some cells.
pub open spec fn cells_points(b: Seq<Square>, t: Seq<(usize, Tile)>, indexes: Seq<usize>) -> int
    decreases indexes.len(),
{
    if indexes.len() == 0 {
        0
    } else {
        cells_points(b, t, indexes.drop_last()) + cell_points(b, t, indexes.last() as int)
    }
}

/// Points of a word: the sum over its tiles, times every word bonus it covers.
pub open spec fn word_points(b: Seq<Square>, t: Seq<(usize, Tile)>, indexes: Seq<usize>) -> int {
    cells_points(b, t, indexes) * word_bonus_of(b, indexes)
}

/// Some word of a list covers exactly these indexes.
pub open spec fn covers(words: Seq<WordView>, indexes: Seq<usize>) -> bool {
    exists|k: int| 0 <= k < words.len() && (#[trigger] words[k]).indexes == indexes
}

/// The words of a list that cover no index set of another list, in order.
pub open spec fn fresh_words(words: Seq<WordView>, existing: Seq<WordView>) -> Seq<WordView>
    decreases words.len(),
{
    if words.len() == 0 {
        seq![]
    } else {
        let rest = fresh_words(words.drop_last(), existing);
        if covers(existing, words.last().indexes) {
            rest
        } else {
            rest.push(words.last())
        }
    }
}

/// The words a turn forms: those of the board with the turn laid over it
/// that the board alone does not have.
pub open spec fn formed_words(b: Seq<Square>, t: Seq<(usize, Tile)>) -> Seq<WordView> {
    fresh_words(all_words(overlay_cells(b, t)), all_words(board_cells(b)))
}

/// The entry of a score list for one formed word.
pub open spec fn word_entry(b: Seq<Square>, t: Seq<(usize, Tile)>, w: WordView) -> (
    Seq<char>,
    int,
) {
    (w.text, word_points(b, t, w.indexes))
}

/// The bonus entry of a turn that empties a full rack.
pub open spec fn bingo_entry() -> (Seq<char>, int) {
    (seq!['*'], 50)
}

/// The score of a turn: one entry per formed word in scan order, then the
/// bonus entry for seven tiles or more.
pub open spec fn turn_score(b: Seq<Square>, t: Seq<(usize, Tile)>) -> Seq<(Seq<char>, int)> {
    let entries = formed_words(b, t).map_values(|w: WordView| word_entry(b, t, w));
    if t.len() >= 7 {
        entries.push(bingo_entry())
    } else {
        entries
    }
}

/// The points of one turn: a label and a value per entry.
#[derive(Clone, Debug, PartialEq, Eq)]
pub struct TurnScore {
    scores: Vec<(String, i64)>,
}

impl View for TurnScore {
    type V = Seq<(Seq<char>, int)>;

    closed spec fn view(&self) -> Seq<(Seq<char>, int)> {
        self.scores@.map_values(|e: (String, i64)| (e.0@, e.1 as int))
    }
}

impl TurnScore {
    pub fn new(scores: Vec<(String, i64)>) -> (r: TurnScore)
        ensures
            r@ == scores@.map_values(|e: (String, i64)| (e.0@, e.1 as int)),
    {
        TurnScore { scores }
    }

    pub fn scores(&self) -> (r: &Vec<(String, i64)>)
        ensures
            r@.map_values(|e: (String, i64)| (e.0@, e.1 as int)) == self@,
    {
        &self.scores
    }

    pub fn into_scores(self) -> (r: Vec<(String, i64)>)
        ensures
            r@.map_values(|e: (String, i64)| (e.0@, e.1 as int)) == self@,
    {
        self.scores
    }
}

/// A board with a proposed turn laid over it, read without changing either.
pub struct Overlay<'a> {
    pub board: &'a Board,
    pub turn: &'a Turn,
}

impl<'a> GetChar for Overlay<'a> {
    open spec fn char_at(&self, index: int) -> Option<char> {
        overlay_char(self.board@, self.turn@, index)
    }

    fn get_char(&self, index: usize) -> (r: Option<char>) {
        match self.board.get_char(index) {
            Some(c) => Some(c),
            None => self.turn.get_char(index),
        }
    }
}

/// Whether some word of a list covers the indexes of `word`.
fn covered(words: &Vec<Word>, word: &Word) -> (r: bool)
    ensures
        r == covers(words@.map_values(|w: Word| w@), word@.indexes),
{
    let ghost views = words@.map_values(|w: Word| w@);
    let mut k: usize = 0;
    while k < words.len()
        invariant
            views == words@.map_values(|w: Word| w@),
            k <= words@.len(),
            forall|j: int| 0 <= j < k ==> views[j].indexes != word@.indexes,
        decreases words@.len() - k,
    {
        if words[k].same_indexes(word) {
            proof {
                assert(views[k as int].indexes == word@.indexes);
            }
            return true;
        }
        k += 1;
    }
    false
}

impl<'a> Overlay<'a> {
    /// The words this turn forms, in scan order.
    pub fn new_words(&self) -> (r: Vec<Word>)
        ensures
            r@.map_values(|w: Word| w@) == formed_words(self.board@, self.turn@),
            forall|k: int|
                0 <= k < r@.len() ==> {
                    let w = #[trigger] r@[k]@;
                    &&& 2 <= w.indexes.len() <= BOARD_SIZE
                    &&& w.indexes.len() == w.text.len()
                },
    {
        let on_board = self.board.words();
        let overlay_words = scan_words(self);
        proof {
            assert(cells_of(self.board) =~= board_cells(self.board@));
            assert(cells_of(self) =~= overlay_cells(self.board@, self.turn@));
        }
        let ghost existing = on_board@.map_values(|w: Word| w@);
        let ghost all = overlay_words@.map_values(|w: Word| w@);
        let mut r: Vec<Word> = Vec::new();
        let mut k: usize = 0;
        while k < overlay_words.len()
            invariant
                existing == on_board@.map_values(|w: Word| w@),
                all == overlay_words@.map_values(|w: Word| w@),
                k <= overlay_words@.len(),
                r@.map_values(|w: Word| w@) == fresh_words(all.take(k as int), existing),
                forall|j: int|
                    0 <= j < overlay_words@.len() ==> {
                        let w = #[trigger] overlay_words@[j]@;
                        &&& 2 <= w.indexes.len() <= BOARD_SIZE
                        &&& w.indexes.len() == w.text.len()
                    },
                forall|j: int|
                    0 <= j < r@.len() ==> {
                        let w = #[trigger] r@[j]@;
                        &&& 2 <= w.indexes.len() <= BOARD_SIZE
                        &&& w.indexes.len() == w.text.len()
                    },
            decreases overlay_words@.len() - k,
        {
            proof {
                assert(all.take(k as int + 1).drop_last() =~= all.take(k as int));
                assert(all.take(k as int + 1).last() == overlay_words@[k as int]@);
            }
            let word = overlay_words[k].duplicate();
            if !covered(&on_board, &overlay_words[k]) {
                r.push(word);
                proof {
                    assert(r@.map_values(|w: Word| w@) =~= fresh_words(
                        all.take(k as int + 1),
                        existing,
                    ));
                }
            }
            k += 1;
        }
        proof {
            assert(all.take(k as int) =~= all);
        }
        r
    }

    pub fn score_tile(&self, tile: &Tile, index: &usize) -> (r: i64)
        requires
            board_ok(self.board@),
        ensures
            r == tile_value(*tile) * letter_mult(self.board@, *index as int),
            0 <= r <= 30,
    {
        let value = score_tile(tile) as i64;
        let bonus = self.letter_bonus(index);
        proof {
            assert(0 <= value * bonus <= 30) by (nonlinear_arith)
                requires
                    0 <= value <= 10,
                    1 <= bonus <= 3,
            ;
        }
        value * bonus
    }

    pub fn get_tile(&self, index: &usize) -> (r: Option<&Tile>)
        requires
            board_ok(self.board@),
        ensures
            match overlay_tile(self.board@, self.turn@, *index as int) {
                Some(t) => r matches Some(x) && *x == t,
                None => r is None,
            },
    {
        match self.turn.get_tile(index) {
            Some(tile) => Some(tile),
            None => if *index < INDEX_OVERFLOW {
                self.board.get_tile(index)
            } else {
                None
            },
        }
    }

    pub fn score_word(&self, word: &Word) -> (r: i64)
        requires
            board_ok(self.board@),
            word@.indexes.len() <= BOARD_SIZE,
        ensures
            r == word_points(self.board@, self.turn@, word@.indexes),
    {
        let indexes = word.indexes();
        let word_bonus = self.word_bonus(indexes);
        let mut score: i64 = 0;
        let mut k: usize = 0;
        while k < indexes.len()
            invariant
                board_ok(self.board@),
                indexes@ == word@.indexes,
                indexes@.len() <= BOARD_SIZE,
                k <= indexes@.len(),
                score == cells_points(self.board@, self.turn@, indexes@.take(k as int)),
                0 <= score <= 30 * k,
            decreases indexes@.len() - k,
        {
            proof {
                assert(indexes@.take(k as int + 1).drop_last() =~= indexes@.take(k as int));
            }
            let index = indexes[k];
            let points = match self.get_tile(&index) {
                Some(tile) => self.score_tile(tile, &index),
                None => 0,
            };
            score = score + points;
            k += 1;
        }
        proof {
            assert(indexes@.take(k as int) =~= indexes@);
            assert(0 <= score * word_bonus <= 450 * 14348907) by (nonlinear_arith)
                requires
                    0 <= score <= 450,
                    1 <= word_bonus <= 14348907,
            ;
        }
        score * word_bonus
    }

    pub fn word_bonus(&self, indexes: &Vec<usize>) -> (r: i64)
        requires
            board_ok(self.board@),
            indexes@.len() <= BOARD_SIZE,
        ensures
            r == word_bonus_of(self.board@, indexes@),
            1 <= r <= 14348907,
    {
        self.board.word_bonus(indexes)
    }

    pub fn letter_bonus(&self, index: &usize) -> (r: i64)
        requires
            board_ok(self.board@),
        ensures
            r == letter_mult(self.board@, *index as int),
            1 <= r <= 3,
    {
        match self.board.get_square(index) {
            Some(Square::LetterBonus(multiplier)) => {
                proof {
                    assert(crate::board::square_ok(self.board@[*index as int]));
                }
                *multiplier as i64
            },
            _ => 1,
        }
    }

    /// The score of the turn, one entry per formed word and the bonus for
    /// seven tiles or more.
    pub fn score(&self) -> (r: Result<TurnScore, Error>)
        requires
            board_ok(self.board@),
        ensures
            r matches Ok(s) && s@ == turn_score(self.board@, self.turn@),
    {
        let words = self.new_words();
        let ghost views = words@.map_values(|w: Word| w@);
        let ghost b = self.board@;
        let ghost t = self.turn@;
        let mut scores: Vec<(String, i64)> = Vec::new();
        let mut k: usize = 0;
        while k < words.len()
            invariant
                board_ok(self.board@),
                b == self.board@,
                t == self.turn@,
                views == words@.map_values(|w: Word| w@),
                views == formed_words(b, t),
                k <= words@.len(),
                forall|j: int|
                    0 <= j < words@.len() ==> {
                        let w = #[trigger] words@[j]@;
                        &&& 2 <= w.indexes.len() <= BOARD_SIZE
                        &&& w.indexes.len() == w.text.len()
                    },
                scores@.map_values(|e: (String, i64)| (e.0@, e.1 as int)) == views.take(
                    k as int,
                ).map_values(|w: WordView| word_entry(b, t, w)),
            decreases words@.len() - k,
        {
            let points = self.score_word(&words[k]);
            let label = words[k].as_string();
            let ghost before = scores@.map_values(|e: (String, i64)| (e.0@, e.1 as int));
            scores.push((label, points));
            proof {
                assert(views[k as int] == words@[k as int]@);
                assert(scores@.map_values(|e: (String, i64)| (e.0@, e.1 as int)) =~= before.push(
                    (label@, points as int),
                ));
                assert(views.take(k as int + 1) =~= views.take(k as int).push(views[k as int]));
                assert(scores@.map_values(|e: (String, i64)| (e.0@, e.1 as int)) =~= views.take(
                    k as int + 1,
                ).map_values(|w: WordView| word_entry(b, t, w)));
            }
            k += 1;
        }
        proof {
            assert(views.take(k as int) =~= views);
        }
        if self.turn.is_bingo() {
            let star = String::from_str("*");
            proof {
                reveal_strlit("*");
                assert(star@ =~= seq!['*']);
            }
            let ghost before = scores@.map_values(|e: (String, i64)| (e.0@, e.1 as int));
            scores.push((star, 50));
            proof {
                assert(scores@.map_values(|e: (String, i64)| (e.0@, e.1 as int)) =~= before.push(
                    (star@, 50),
                ));
                assert(before == views.map_values(|w: WordView| word_entry(b, t, w)));
                assert(scores@.map_values(|e: (String, i64)| (e.0@, e.1 as int)) =~= turn_score(
                    b,
                    t,
                ));
            }
        }
        Ok(TurnScore { scores })
    }
}

impl Board {
    /// The words a turn would form on this board.
    pub fn new_words(&self, turn: &Turn) -> (r: Vec<Word>)
        ensures
            r@.map_values(|w: Word| w@) == formed_words(self@, turn@),
    {
        let overlay = Overlay { board: self, turn };
        overlay.new_words()
    }
}

/// A list of words that another list covers entirely leaves nothing fresh.
pub proof fn lemma_fresh_words_covered(words: Seq<WordView>, existing: Seq<WordView>)
    requires
        forall|k: int| 0 <= k < words.len() ==> covers(existing, (#[trigger] words[k]).indexes),
    ensures
        fresh_words(words, existing) == Seq::<WordView>::empty(),
    decreases words.len(),
{
    if words.len() > 0 {
        assert forall|k: int| 0 <= k < words.len() - 1 implies covers(
            existing,
            (#[trigger] words.drop_last()[k]).indexes,
        ) by {
            assert(words.drop_last()[k] == words[k]);
        }
        lemma_fresh_words_covered(words.drop_last(), existing);
        assert(covers(existing, words[words.len() - 1].indexes));
    }
}

/// A turn that places no tile forms no word.
pub proof fn lemma_empty_turn_forms_nothing(b: Seq<Square>, t: Seq<(usize, Tile)>)
    requires
        t.len() == 0,
    ensures
        formed_words(b, t) == Seq::<WordView>::empty(),
{
    assert(overlay_cells(b, t) =~= board_cells(b));
    let words = all_words(board_cells(b));
    assert forall|k: int| 0 <= k < words.len() implies covers(words, (#[trigger] words[k]).indexes) by {
    }
    lemma_fresh_words_covered(words, words);
}

/// Scoring reads nothing but the board and the turn: the same board and
/// turn always give the same score.
pub proof fn lemma_score_repeatable(
    board: Seq<Square>,
    turn: Seq<(usize, Tile)>,
    first: TurnScore,
    second: TurnScore,
)
    requires
        first@ == turn_score(board, turn),
        second@ == turn_score(board, turn),
    ensures
        first@ == second@,
{
}

} // verus!
